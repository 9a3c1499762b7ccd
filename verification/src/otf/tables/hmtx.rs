//! The 'hmtx' table: the horizontal metrics of the glyphs.
use vstd::prelude::*;
use crate::big_endian::{
    be16s, be_i16_value, be_u16_value, bei16s, get_i16, get_i16s, get_u16s, lemma_be16s_values,
    lemma_get_u16_value, lemma_get_u16s_values, i16_bits, i16_from_bits, i16_of_bits, i16_to_bits,
    lemma_be16s, lemma_bei16s, lemma_get_i16s, lemma_get_u16s, lemma_i16_bits, read_i16s_at,
    read_u16s_at, write_i16s, write_u16s,
};
use crate::otf::error::FontError;
use crate::otf::tables::Glyph;
use crate::otf::tables::hhea::HheaTable;
use crate::otf::tables::maxp::MaxpTable;

verus! {

/// The horizontal metrics table.
/// See https://docs.microsoft.com/en-us/typography/opentype/spec/hmtx
#[derive(Debug, PartialEq, Clone)]
pub struct HmtxTable {
    /// Paired advance width and left side bearing values for each glyph, indexed by glyph id.
    pub h_metrics: Vec<LongHorMetric>,
    /// Left side bearings for glyph ids greater than or equal to the number of `h_metrics`.
    pub left_side_bearings: Vec<i16>,
}

#[derive(Debug, PartialEq, Eq, Clone, Copy, Structural)]
pub struct LongHorMetric {
    /// Advance width, in font design units.
    pub advance_width: u16,
    /// Glyph left side bearing, in font design units.
    pub lsb: i16,
}

/// The indices of `glyphs`, in order.
pub open spec fn glyph_indices(glyphs: Seq<Glyph>) -> Seq<u16> {
    glyphs.map_values(|g: Glyph| g.index)
}

/// The 16-bit words that hold `metrics`: advance width, then left side bearing, for each.
pub open spec fn metric_words(metrics: Seq<LongHorMetric>) -> Seq<u16> {
    Seq::new(
        2 * metrics.len(),
        |k: int|
            if k % 2 == 0 {
                metrics[k / 2].advance_width
            } else {
                i16_bits(metrics[k / 2].lsb)
            },
    )
}

/// The metrics held by the words `w`, two for each.
pub open spec fn metrics_of_words(w: Seq<u16>, n: nat) -> Seq<LongHorMetric> {
    Seq::new(
        n,
        |k: int| LongHorMetric { advance_width: w[2 * k], lsb: i16_of_bits(w[2 * k + 1]) },
    )
}

/// The metrics of the glyphs with indices `idx` below the number of metrics, in order.
pub open spec fn subset_metrics(m: Seq<LongHorMetric>, idx: Seq<u16>) -> Seq<LongHorMetric>
    decreases idx.len(),
{
    if idx.len() == 0 {
        Seq::empty()
    } else {
        let r = subset_metrics(m, idx.drop_last());
        if (idx.last() as int) < m.len() {
            r.push(m[idx.last() as int])
        } else {
            r
        }
    }
}

/// The left side bearings of the glyphs with indices `idx` at or above `n`, the number of
/// metrics, and that `b` holds, in order.
pub open spec fn subset_bearings(n: nat, b: Seq<i16>, idx: Seq<u16>) -> Seq<i16>
    decreases idx.len(),
{
    if idx.len() == 0 {
        Seq::empty()
    } else {
        let r = subset_bearings(n, b, idx.drop_last());
        let i = idx.last() as int;
        if i >= n && i - n < b.len() {
            r.push(b[i - n])
        } else {
            r
        }
    }
}

/// The number of left side bearings that follow `n` metrics for `g` glyphs.
pub open spec fn bearing_count(g: u16, n: u16) -> nat {
    if g > n { (g - n) as nat } else { 0 }
}

impl HmtxTable {
    /// What reading the table from `s` gives, with `n` metrics and `g` glyphs.
    pub open spec fn spec_unpack(s: Seq<u8>, n: u16, g: u16) -> Result<(Seq<LongHorMetric>, Seq<i16>), FontError> {
        if s.len() < 4 * n + 2 * bearing_count(g, n) {
            Err(FontError::UnexpectedEof)
        } else {
            Ok((
                metrics_of_words(get_u16s(s, 0, 2 * n as nat), n as nat),
                get_i16s(s, 4 * n, bearing_count(g, n)),
            ))
        }
    }

    /// The bytes that `pack` writes for the metrics.
    pub open spec fn metric_bytes(self) -> Seq<u8> {
        be16s(metric_words(self.h_metrics@))
    }

    /// Reads the table; `hhea` gives the number of metrics and `maxp` the number of glyphs.
    pub fn unpack(data: &[u8], hhea: &HheaTable, maxp: &MaxpTable) -> (r: Result<HmtxTable, FontError>)
        ensures
            match (r, Self::spec_unpack(data@, hhea.number_of_h_metrics, maxp.spec_num_glyphs())) {
                (Ok(t), Ok((m, b))) => t.h_metrics@ == m && t.left_side_bearings@ == b,
                (Err(e), Err(f)) => e == f,
                _ => false,
            },
    {
        let n = hhea.number_of_h_metrics;
        let g = maxp.num_glyphs();
        let nb: u16 = if g > n { g - n } else { 0 };
        if data.len() < 4 * (n as usize) + 2 * (nb as usize) {
            return Err(FontError::UnexpectedEof);
        }
        let w = read_u16s_at(data, 0, 2 * (n as usize));
        let mut h_metrics: Vec<LongHorMetric> = Vec::new();
        let mut k: usize = 0;
        while k < n as usize
            invariant
                k <= n,
                w@.len() == 2 * n,
                h_metrics@ == metrics_of_words(w@, k as nat),
            decreases n - k,
        {
            h_metrics.push(LongHorMetric { advance_width: w[2 * k], lsb: i16_from_bits(w[2 * k + 1]) });
            k = k + 1;
            assert(h_metrics@ =~= metrics_of_words(w@, k as nat));
        }
        let left_side_bearings = read_i16s_at(data, 4 * (n as usize), nb as usize);
        Ok(HmtxTable { h_metrics, left_side_bearings })
    }

    /// Appends the table to `out`: fails, having written nothing, where there are more metrics
    /// than a `u16` counts, and fails after the metrics where there are more left side bearings.
    pub fn pack(&self, out: &mut Vec<u8>) -> (r: Result<(), FontError>)
        ensures
            self.h_metrics@.len() > 0xFFFF ==> r == Err::<(), FontError>(FontError::TooManyHMetrics)
                && final(out)@ == old(out)@,
            self.h_metrics@.len() <= 0xFFFF && self.left_side_bearings@.len() > 0xFFFF ==> r
                == Err::<(), FontError>(FontError::TooManyLeftSideBearings) && final(out)@ == old(out)@
                + self.metric_bytes(),
            self.h_metrics@.len() <= 0xFFFF && self.left_side_bearings@.len() <= 0xFFFF ==> r
                == Ok::<(), FontError>(()) && final(out)@ == old(out)@ + self.metric_bytes() + bei16s(
                self.left_side_bearings@,
            ),
    {
        if self.h_metrics.len() > 0xFFFF {
            return Err(FontError::TooManyHMetrics);
        }
        let mut w: Vec<u16> = Vec::new();
        let mut k: usize = 0;
        while k < self.h_metrics.len()
            invariant
                k <= self.h_metrics@.len() <= 0xFFFF,
                w@ =~= metric_words(self.h_metrics@.subrange(0, k as int)),
            decreases self.h_metrics@.len() - k,
        {
            let m = self.h_metrics[k];
            w.push(m.advance_width);
            w.push(i16_to_bits(m.lsb));
            k = k + 1;
            assert(w@ =~= metric_words(self.h_metrics@.subrange(0, k as int)));
        }
        assert(self.h_metrics@.subrange(0, k as int) =~= self.h_metrics@);
        write_u16s(out, &w);
        if self.left_side_bearings.len() > 0xFFFF {
            return Err(FontError::TooManyLeftSideBearings);
        }
        write_i16s(out, &self.left_side_bearings);
        Ok(())
    }

    /// The table of a font subset to `glyphs`: the metrics of the glyphs that have one, then
    /// the left side bearings of the others, each in the order of `glyphs`.
    pub fn subset(&self, glyphs: &[Glyph]) -> (r: HmtxTable)
        ensures
            r.h_metrics@ == subset_metrics(self.h_metrics@, glyph_indices(glyphs@)),
            r.left_side_bearings@ == subset_bearings(
                self.h_metrics@.len(),
                self.left_side_bearings@,
                glyph_indices(glyphs@),
            ),
    {
        let mut h_metrics: Vec<LongHorMetric> = Vec::new();
        let mut left_side_bearings: Vec<i16> = Vec::new();
        let n = self.h_metrics.len();
        let nb = self.left_side_bearings.len();
        let mut k: usize = 0;
        while k < glyphs.len()
            invariant
                k <= glyphs@.len(),
                n == self.h_metrics@.len(),
                nb == self.left_side_bearings@.len(),
                h_metrics@ == subset_metrics(self.h_metrics@, glyph_indices(glyphs@).take(k as int)),
                left_side_bearings@ == subset_bearings(
                    n as nat,
                    self.left_side_bearings@,
                    glyph_indices(glyphs@).take(k as int),
                ),
            decreases glyphs@.len() - k,
        {
            let i = glyphs[k].index as usize;
            assert(glyph_indices(glyphs@).take(k + 1).drop_last() =~= glyph_indices(glyphs@).take(k as int));
            if i < n {
                h_metrics.push(self.h_metrics[i]);
            } else if i - n < nb {
                left_side_bearings.push(self.left_side_bearings[i - n]);
            }
            k = k + 1;
        }
        assert(glyph_indices(glyphs@).take(k as int) =~= glyph_indices(glyphs@));
        HmtxTable { h_metrics, left_side_bearings }
    }

    /// Reading back what `pack` wrote, with as many metrics and glyphs as the table holds,
    /// gives the same table.
    pub proof fn lemma_pack_unpack(self)
        requires
            self.h_metrics@.len() + self.left_side_bearings@.len() <= 0xFFFF,
        ensures
            ({
                let n = self.h_metrics@.len() as u16;
                let g = (self.h_metrics@.len() + self.left_side_bearings@.len()) as u16;
                Self::spec_unpack(self.metric_bytes() + bei16s(self.left_side_bearings@), n, g)
                    == Ok::<(Seq<LongHorMetric>, Seq<i16>), FontError>(
                    (self.h_metrics@, self.left_side_bearings@),
                )
            }),
    {
        let m = self.h_metrics@;
        let b = self.left_side_bearings@;
        let w = metric_words(m);
        let s = self.metric_bytes() + bei16s(b);
        lemma_be16s(w);
        lemma_bei16s(b);
        lemma_get_u16s(Seq::empty(), w, bei16s(b));
        assert(Seq::<u8>::empty() + be16s(w) + bei16s(b) =~= s);
        lemma_get_i16s(be16s(w), b, Seq::empty());
        assert(be16s(w) + bei16s(b) + Seq::<u8>::empty() =~= s);
        assert forall|k: int| 0 <= k < m.len() implies #[trigger] metrics_of_words(w, m.len())[k] == m[k] by {
            assert((2 * k) % 2 == 0);
            assert((2 * k + 1) % 2 == 1);
            assert((2 * k) / 2 == k);
            assert((2 * k + 1) / 2 == k);
            lemma_i16_bits(m[k].lsb);
        }
        assert(metrics_of_words(w, m.len()) =~= m);
    }
}

} // verus!

verus! {

/// Reading an 'hmtx' table with `n` metrics for `g` glyphs: the metric `k` is the big-endian
/// advance width at `4 k` and the signed left side bearing at `4 k + 2`; the side bearing `j` of
/// each of the `g - n` remaining glyphs is the signed value at `4 n + 2 j`; it fails where the
/// bytes end before them.
pub proof fn law_hmtx_layout_read(s: Seq<u8>, n: u16, g: u16)
    ensures
        HmtxTable::spec_unpack(s, n, g) is Ok <==> s.len() >= 4 * n + 2 * bearing_count(g, n),
        HmtxTable::spec_unpack(s, n, g) matches Ok((m, l)) ==> {
            &&& m.len() == n
            &&& l.len() == (if g > n { g - n } else { 0 })
            &&& forall|k: int|
                0 <= k < n ==> (#[trigger] m[k]).advance_width == be_u16_value(s, 4 * k) && m[k].lsb
                    == be_i16_value(s, 4 * k + 2)
            &&& forall|j: int| 0 <= j < l.len() ==> #[trigger] l[j] == be_i16_value(s, 4 * n + 2 * j)
        },
{
    if s.len() >= 4 * n + 2 * bearing_count(g, n) {
        lemma_get_u16s_values(s, 0, 2 * n as nat);
        let w = get_u16s(s, 0, 2 * n as nat);
        let m = metrics_of_words(w, n as nat);
        let l = get_i16s(s, 4 * n, bearing_count(g, n));
        assert forall|k: int| 0 <= k < n implies (#[trigger] m[k]).advance_width == be_u16_value(s, 4 * k)
            && m[k].lsb == be_i16_value(s, 4 * k + 2) by {
            assert(w[2 * k] as int == be_u16_value(s, 0 + 2 * (2 * k)));
            assert(i16_of_bits(w[2 * k + 1]) as int == be_i16_value(s, 0 + 2 * (2 * k + 1)));
        }
        assert forall|j: int| 0 <= j < l.len() implies #[trigger] l[j] == be_i16_value(s, 4 * n + 2 * j) by {
            lemma_get_u16_value(s, 4 * n + 2 * j);
        }
    }
}

/// Writing an 'hmtx' table puts the metric `k` at `4 k` (advance width, then left side bearing)
/// and the side bearing `j` of the remaining glyphs at `4 n + 2 j`, `n` the number of metrics.
pub proof fn law_hmtx_layout_write(t: HmtxTable)
    ensures
        ({
            let b = t.metric_bytes() + bei16s(t.left_side_bearings@);
            let n = t.h_metrics@.len();
            &&& b.len() == 4 * n + 2 * t.left_side_bearings@.len()
            &&& forall|k: int|
                0 <= k < n ==> be_u16_value(b, 4 * k) == (#[trigger] t.h_metrics@[k]).advance_width && be_i16_value(
                    b,
                    4 * k + 2,
                ) == t.h_metrics@[k].lsb
            &&& forall|j: int|
                0 <= j < t.left_side_bearings@.len() ==> be_i16_value(b, 4 * n + 2 * j)
                    == #[trigger] t.left_side_bearings@[j]
        }),
{
    let mw = metric_words(t.h_metrics@);
    let mb = be16s(mw);
    let lb = bei16s(t.left_side_bearings@);
    let b = t.metric_bytes() + lb;
    let n = t.h_metrics@.len();
    lemma_be16s_values(mw);
    lemma_bei16s(t.left_side_bearings@);
    assert forall|k: int| 0 <= k < n implies be_u16_value(b, 4 * k) == (#[trigger] t.h_metrics@[k]).advance_width
        && be_i16_value(b, 4 * k + 2) == t.h_metrics@[k].lsb by {
        assert(b[4 * k] == mb[2 * (2 * k)]);
        assert(b[4 * k + 1] == mb[2 * (2 * k) + 1]);
        assert(b[4 * k + 2] == mb[2 * (2 * k + 1)]);
        assert(b[4 * k + 3] == mb[2 * (2 * k + 1) + 1]);
        assert(be_u16_value(mb, 2 * (2 * k)) == mw[2 * k]);
        assert(be_i16_value(mb, 2 * (2 * k + 1)) == i16_of_bits(mw[2 * k + 1]));
        assert((2 * k + 1) / 2 == k);
        lemma_i16_bits(t.h_metrics@[k].lsb);
    }
    assert forall|j: int| 0 <= j < t.left_side_bearings@.len() implies be_i16_value(b, 4 * n + 2 * j)
        == #[trigger] t.left_side_bearings@[j] by {
        assert(b[4 * n + 2 * j] == lb[2 * j]);
        assert(b[4 * n + 2 * j + 1] == lb[2 * j + 1]);
        lemma_get_u16_value(lb, 2 * j);
        assert(get_i16(lb, 2 * j) == t.left_side_bearings@[j]);
    }
}

} // verus!
