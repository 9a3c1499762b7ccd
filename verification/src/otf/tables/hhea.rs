//! The 'hhea' table: information for horizontal layout.
use vstd::prelude::*;
use crate::big_endian::{
    be16s, be_i16_value, be_u16_value, get_u16, get_u16s, i16_bits, i16_from_bits, i16_of_bits, i16_to_bits, lemma_be16s,
    lemma_be16s_value, lemma_get_u16_value,
    lemma_get_u16s, lemma_i16_bits, read_u16s_at, write_u16s,
};
use crate::otf::error::FontError;
use crate::otf::tables::head::HeadTable;
use crate::otf::tables::hmtx::{HmtxTable, LongHorMetric};

verus! {

/// The horizontal header table.
/// See https://docs.microsoft.com/en-us/typography/opentype/spec/hhea
#[derive(Debug, Default, PartialEq, Eq, Clone, Copy, Structural)]
pub struct HheaTable {
    /// Major version number of the horizontal header table — set to 1.
    pub major_version: u16,
    /// Minor version number of the horizontal header table — set to 0.
    pub minor_version: u16,
    /// Distance from baseline of highest ascender.
    pub ascent: i16,
    /// Distance from baseline of lowest descender.
    pub descent: i16,
    /// Typographic line gap.
    pub line_gap: i16,
    /// Maximum advance width value in 'hmtx' table.
    pub advance_width_max: u16,
    /// Minimum left sidebearing value in 'hmtx' table.
    pub min_left_side_bearing: i16,
    /// Minimum right sidebearing value; calculated as Min(aw - lsb - (xMax - xMin)).
    pub min_right_side_bearing: i16,
    /// Max(lsb + (xMax - xMin)).
    pub x_max_extent: i16,
    /// Used to calculate the slope of the cursor (rise/run); 1 for vertical.
    pub caret_slope_rise: i16,
    /// 0 for vertical.
    pub caret_slope_run: i16,
    /// The amount by which a slanted highlight on a glyph needs to be shifted.
    pub caret_offset: i16,
    /// 0 for current format.
    pub metric_data_format: i16,
    /// Number of hMetric entries in 'hmtx' table.
    pub number_of_h_metrics: u16,
}

/// `v` clamped into the range of an `i16`.
pub open spec fn clamp_i16(v: int) -> i16 {
    if v < -32768 { -32768i16 } else if v > 32767 { 32767i16 } else { v as i16 }
}

/// The largest of `s`, or 0 where `s` is empty.
pub open spec fn max_u16(s: Seq<u16>) -> u16
    decreases s.len(),
{
    if s.len() == 0 {
        0
    } else {
        let m = max_u16(s.drop_last());
        if s.last() > m { s.last() } else { m }
    }
}

/// The largest of `s`, or 0 where `s` is empty.
pub open spec fn max_i16(s: Seq<i16>) -> i16
    decreases s.len(),
{
    if s.len() == 0 {
        0
    } else if s.len() == 1 {
        s[0]
    } else {
        let m = max_i16(s.drop_last());
        if s.last() > m { s.last() } else { m }
    }
}

/// The smallest of `s`, or 0 where `s` is empty.
pub open spec fn min_i16(s: Seq<i16>) -> i16
    decreases s.len(),
{
    if s.len() == 0 {
        0
    } else if s.len() == 1 {
        s[0]
    } else {
        let m = min_i16(s.drop_last());
        if s.last() < m { s.last() } else { m }
    }
}

/// An advance width as an `i16`, or `i16::MAX` where it does not fit.
pub open spec fn width_as_i16(w: u16) -> int {
    if w > 32767 { 32767 } else { w as int }
}

/// The right side bearing term `aw - lsb` of a metric.
pub open spec fn side_term(m: LongHorMetric) -> int {
    width_as_i16(m.advance_width) - m.lsb
}

/// Every metric's `aw - lsb` fits into an `i16`.
pub open spec fn side_terms_fit(m: Seq<LongHorMetric>) -> bool {
    forall|k: int| 0 <= k < m.len() ==> -32768 <= #[trigger] side_term(m[k]) <= 32767
}

/// The `aw - lsb` terms of the metrics.
pub open spec fn side_terms(m: Seq<LongHorMetric>) -> Seq<i16> {
    m.map_values(|x: LongHorMetric| side_term(x) as i16)
}

fn largest_u16(s: &Vec<u16>) -> (r: u16)
    ensures
        r == max_u16(s@),
{
    let mut r: u16 = 0;
    let mut k: usize = 0;
    while k < s.len()
        invariant
            k <= s@.len(),
            r == max_u16(s@.take(k as int)),
        decreases s@.len() - k,
    {
        assert(s@.take(k + 1).drop_last() =~= s@.take(k as int));
        if s[k] > r {
            r = s[k];
        }
        k = k + 1;
    }
    assert(s@.take(k as int) =~= s@);
    r
}

pub(crate) fn extreme_i16(s: &Vec<i16>, largest: bool) -> (r: i16)
    ensures
        r == if largest { max_i16(s@) } else { min_i16(s@) },
{
    if s.len() == 0 {
        return 0;
    }
    let mut r: i16 = s[0];
    let mut k: usize = 1;
    assert(s@.take(1).drop_last() =~= Seq::<i16>::empty());
    while k < s.len()
        invariant
            1 <= k <= s@.len(),
            r == if largest { max_i16(s@.take(k as int)) } else { min_i16(s@.take(k as int)) },
        decreases s@.len() - k,
    {
        assert(s@.take(k + 1).drop_last() =~= s@.take(k as int));
        if largest && s[k] > r {
            r = s[k];
        } else if !largest && s[k] < r {
            r = s[k];
        }
        k = k + 1;
    }
    assert(s@.take(k as int) =~= s@);
    r
}

fn clamp_to_i16(v: i32) -> (r: i16)
    ensures
        r == clamp_i16(v as int),
{
    if v < -32768 { -32768 } else if v > 32767 { 32767 } else { v as i16 }
}

impl HheaTable {
    /// The table held by the 18 big-endian words `w`; four of them are reserved.
    pub open spec fn from_words(w: Seq<u16>) -> HheaTable {
        HheaTable {
            major_version: w[0],
            minor_version: w[1],
            ascent: i16_of_bits(w[2]),
            descent: i16_of_bits(w[3]),
            line_gap: i16_of_bits(w[4]),
            advance_width_max: w[5],
            min_left_side_bearing: i16_of_bits(w[6]),
            min_right_side_bearing: i16_of_bits(w[7]),
            x_max_extent: i16_of_bits(w[8]),
            caret_slope_rise: i16_of_bits(w[9]),
            caret_slope_run: i16_of_bits(w[10]),
            caret_offset: i16_of_bits(w[11]),
            metric_data_format: i16_of_bits(w[16]),
            number_of_h_metrics: w[17],
        }
    }

    /// The 18 big-endian words that hold the table; the four reserved ones are 0.
    pub open spec fn words(self) -> Seq<u16> {
        seq![
            self.major_version,
            self.minor_version,
            i16_bits(self.ascent),
            i16_bits(self.descent),
            i16_bits(self.line_gap),
            self.advance_width_max,
            i16_bits(self.min_left_side_bearing),
            i16_bits(self.min_right_side_bearing),
            i16_bits(self.x_max_extent),
            i16_bits(self.caret_slope_rise),
            i16_bits(self.caret_slope_run),
            i16_bits(self.caret_offset),
            0u16,
            0u16,
            0u16,
            0u16,
            i16_bits(self.metric_data_format),
            self.number_of_h_metrics,
        ]
    }

    /// The table that the bytes `s` hold, or `None` where they end too early.
    pub open spec fn spec_unpack(s: Seq<u8>) -> Option<HheaTable> {
        if s.len() < 36 {
            None
        } else {
            Some(Self::from_words(get_u16s(s, 0, 18)))
        }
    }

    /// The bytes that `pack` writes.
    pub open spec fn spec_pack(self) -> Seq<u8> {
        be16s(self.words())
    }

    /// Reads the table from its bytes.
    pub fn unpack(data: &[u8]) -> (r: Result<HheaTable, FontError>)
        ensures
            match r {
                Ok(t) => Self::spec_unpack(data@) == Some(t),
                Err(e) => Self::spec_unpack(data@) is None && e == FontError::UnexpectedEof,
            },
    {
        if data.len() < 36 {
            return Err(FontError::UnexpectedEof);
        }
        let w = read_u16s_at(data, 0, 18);
        let t = HheaTable {
            major_version: w[0],
            minor_version: w[1],
            ascent: i16_from_bits(w[2]),
            descent: i16_from_bits(w[3]),
            line_gap: i16_from_bits(w[4]),
            advance_width_max: w[5],
            min_left_side_bearing: i16_from_bits(w[6]),
            min_right_side_bearing: i16_from_bits(w[7]),
            x_max_extent: i16_from_bits(w[8]),
            caret_slope_rise: i16_from_bits(w[9]),
            caret_slope_run: i16_from_bits(w[10]),
            caret_offset: i16_from_bits(w[11]),
            metric_data_format: i16_from_bits(w[16]),
            number_of_h_metrics: w[17],
        };
        assert(t == Self::from_words(w@));
        Ok(t)
    }

    /// Appends the table to `out`.
    pub fn pack(&self, out: &mut Vec<u8>)
        ensures
            final(out)@ == old(out)@ + self.spec_pack(),
    {
        let w: Vec<u16> = vec![
            self.major_version,
            self.minor_version,
            i16_to_bits(self.ascent),
            i16_to_bits(self.descent),
            i16_to_bits(self.line_gap),
            self.advance_width_max,
            i16_to_bits(self.min_left_side_bearing),
            i16_to_bits(self.min_right_side_bearing),
            i16_to_bits(self.x_max_extent),
            i16_to_bits(self.caret_slope_rise),
            i16_to_bits(self.caret_slope_run),
            i16_to_bits(self.caret_offset),
            0,
            0,
            0,
            0,
            i16_to_bits(self.metric_data_format),
            self.number_of_h_metrics,
        ];
        assert(w@ =~= self.words());
        write_u16s(out, &w);
    }

    /// Reading back what `pack` wrote gives the same table.
    pub proof fn lemma_pack_unpack(self)
        ensures
            Self::spec_unpack(self.spec_pack()) == Some(self),
    {
        let w = self.words();
        lemma_get_u16s(Seq::empty(), w, Seq::empty());
        assert(Seq::<u8>::empty() + be16s(w) + Seq::<u8>::empty() =~= be16s(w));
        lemma_be16s(w);
        lemma_i16_bits(self.ascent);
        lemma_i16_bits(self.descent);
        lemma_i16_bits(self.line_gap);
        lemma_i16_bits(self.min_left_side_bearing);
        lemma_i16_bits(self.min_right_side_bearing);
        lemma_i16_bits(self.x_max_extent);
        lemma_i16_bits(self.caret_slope_rise);
        lemma_i16_bits(self.caret_slope_run);
        lemma_i16_bits(self.caret_offset);
        lemma_i16_bits(self.metric_data_format);
        assert(Self::from_words(w) == self);
    }

    /// The table of a font subset whose head table is `head` and whose metrics are `m` and `b`.
    pub open spec fn spec_subset(self, head: HeadTable, m: Seq<LongHorMetric>, b: Seq<i16>) -> HheaTable {
        let max_width = clamp_i16(head.x_max - head.x_min);
        HheaTable {
            advance_width_max: max_u16(m.map_values(|x: LongHorMetric| x.advance_width)),
            min_left_side_bearing: min_i16(b),
            min_right_side_bearing: clamp_i16(min_i16(side_terms(m)) - max_width),
            x_max_extent: clamp_i16(max_i16(m.map_values(|x: LongHorMetric| x.lsb) + b) + max_width),
            number_of_h_metrics: if m.len() > 0xFFFF { 0xFFFF } else { m.len() as u16 },
            ..self
        }
    }

    /// The table of a font whose glyph metrics are `hmtx` and whose bounding box is in `head`:
    /// the advance width maximum, the minimal side bearings, the maximal extent and the number
    /// of metrics are computed anew.
    pub fn subset(&self, head: &HeadTable, hmtx: &HmtxTable) -> (r: HheaTable)
        requires
            side_terms_fit(hmtx.h_metrics@),
        ensures
            r == self.spec_subset(*head, hmtx.h_metrics@, hmtx.left_side_bearings@),
    {
        let max_width = clamp_to_i16(head.x_max as i32 - head.x_min as i32);
        let mut widths: Vec<u16> = Vec::new();
        let mut terms: Vec<i16> = Vec::new();
        let mut bearings: Vec<i16> = Vec::new();
        let mut k: usize = 0;
        while k < hmtx.h_metrics.len()
            invariant
                k <= hmtx.h_metrics@.len(),
                side_terms_fit(hmtx.h_metrics@),
                widths@ == hmtx.h_metrics@.take(k as int).map_values(|x: LongHorMetric| x.advance_width),
                terms@ == side_terms(hmtx.h_metrics@.take(k as int)),
                bearings@ == hmtx.h_metrics@.take(k as int).map_values(|x: LongHorMetric| x.lsb),
            decreases hmtx.h_metrics@.len() - k,
        {
            let m = hmtx.h_metrics[k];
            assert(-32768 <= side_term(hmtx.h_metrics@[k as int]) <= 32767);
            let w: i32 = if m.advance_width > 32767 { 32767 } else { m.advance_width as i32 };
            widths.push(m.advance_width);
            terms.push((w - m.lsb as i32) as i16);
            bearings.push(m.lsb);
            k = k + 1;
            assert(widths@ =~= hmtx.h_metrics@.take(k as int).map_values(|x: LongHorMetric| x.advance_width));
            assert(terms@ =~= side_terms(hmtx.h_metrics@.take(k as int)));
            assert(bearings@ =~= hmtx.h_metrics@.take(k as int).map_values(|x: LongHorMetric| x.lsb));
        }
        assert(hmtx.h_metrics@.take(k as int) =~= hmtx.h_metrics@);
        let ghost lsbs = bearings@;
        let mut j: usize = 0;
        while j < hmtx.left_side_bearings.len()
            invariant
                j <= hmtx.left_side_bearings@.len(),
                bearings@ == lsbs + hmtx.left_side_bearings@.take(j as int),
            decreases hmtx.left_side_bearings@.len() - j,
        {
            bearings.push(hmtx.left_side_bearings[j]);
            j = j + 1;
            assert(bearings@ =~= lsbs + hmtx.left_side_bearings@.take(j as int));
        }
        assert(hmtx.left_side_bearings@.take(j as int) =~= hmtx.left_side_bearings@);
        let min_term = extreme_i16(&terms, false);
        let max_lsb = extreme_i16(&bearings, true);
        let n = hmtx.h_metrics.len();
        HheaTable {
            advance_width_max: largest_u16(&widths),
            min_left_side_bearing: extreme_i16(&hmtx.left_side_bearings, false),
            min_right_side_bearing: clamp_to_i16(min_term as i32 - max_width as i32),
            x_max_extent: clamp_to_i16(max_lsb as i32 + max_width as i32),
            number_of_h_metrics: if n > 0xFFFF { 0xFFFF } else { n as u16 },
            ..*self
        }
    }
}

} // verus!

verus! {

/// Reading an 'hhea' table takes each field from its place in the OpenType layout: the
/// version at bytes 0 and 2, the ascender at 4, the descender at 6, the line gap at 8, the
/// largest advance width at 10, the smallest side bearings at 12 and 14, the largest extent at
/// 16, the caret's slope rise, run and offset at 18, 20 and 22, the metric data format at 32
/// and the number of horizontal metrics at 34, each a big-endian 16-bit value; it fails where
/// the bytes end before 36.
pub proof fn law_hhea_layout_read(s: Seq<u8>)
    ensures
        HheaTable::spec_unpack(s) is Some <==> s.len() >= 36,
        HheaTable::spec_unpack(s) matches Some(t) ==> {
            &&& t.major_version == be_u16_value(s, 0)
            &&& t.minor_version == be_u16_value(s, 2)
            &&& t.ascent == be_i16_value(s, 4)
            &&& t.descent == be_i16_value(s, 6)
            &&& t.line_gap == be_i16_value(s, 8)
            &&& t.advance_width_max == be_u16_value(s, 10)
            &&& t.min_left_side_bearing == be_i16_value(s, 12)
            &&& t.min_right_side_bearing == be_i16_value(s, 14)
            &&& t.x_max_extent == be_i16_value(s, 16)
            &&& t.caret_slope_rise == be_i16_value(s, 18)
            &&& t.caret_slope_run == be_i16_value(s, 20)
            &&& t.caret_offset == be_i16_value(s, 22)
            &&& t.metric_data_format == be_i16_value(s, 32)
            &&& t.number_of_h_metrics == be_u16_value(s, 34)
        },
{
    if s.len() >= 36 {
        let w = get_u16s(s, 0, 18);
        lemma_get_u16_value(s, 0int);
        assert(get_u16(s, 0int) == w[0]);
        lemma_get_u16_value(s, 2int);
        assert(get_u16(s, 2int) == w[1]);
        lemma_get_u16_value(s, 4int);
        assert(get_u16(s, 4int) == w[2]);
        lemma_get_u16_value(s, 6int);
        assert(get_u16(s, 6int) == w[3]);
        lemma_get_u16_value(s, 8int);
        assert(get_u16(s, 8int) == w[4]);
        lemma_get_u16_value(s, 10int);
        assert(get_u16(s, 10int) == w[5]);
        lemma_get_u16_value(s, 12int);
        assert(get_u16(s, 12int) == w[6]);
        lemma_get_u16_value(s, 14int);
        assert(get_u16(s, 14int) == w[7]);
        lemma_get_u16_value(s, 16int);
        assert(get_u16(s, 16int) == w[8]);
        lemma_get_u16_value(s, 18int);
        assert(get_u16(s, 18int) == w[9]);
        lemma_get_u16_value(s, 20int);
        assert(get_u16(s, 20int) == w[10]);
        lemma_get_u16_value(s, 22int);
        assert(get_u16(s, 22int) == w[11]);
        lemma_get_u16_value(s, 32int);
        assert(get_u16(s, 32int) == w[16]);
        lemma_get_u16_value(s, 34int);
        assert(get_u16(s, 34int) == w[17]);
    }
}

/// Writing an 'hhea' table puts each field at its place in the OpenType layout (see
/// `law_hhea_layout_read`), as a big-endian 16-bit value, and zeros in the four reserved words
/// from byte 24 to 32; the table is 36 bytes long.
pub proof fn law_hhea_layout_write(t: HheaTable)
    ensures
        ({
            let b = t.spec_pack();
            &&& b.len() == 36
            &&& be_u16_value(b, 0) == t.major_version
            &&& be_u16_value(b, 2) == t.minor_version
            &&& be_i16_value(b, 4) == t.ascent
            &&& be_i16_value(b, 6) == t.descent
            &&& be_i16_value(b, 8) == t.line_gap
            &&& be_u16_value(b, 10) == t.advance_width_max
            &&& be_i16_value(b, 12) == t.min_left_side_bearing
            &&& be_i16_value(b, 14) == t.min_right_side_bearing
            &&& be_i16_value(b, 16) == t.x_max_extent
            &&& be_i16_value(b, 18) == t.caret_slope_rise
            &&& be_i16_value(b, 20) == t.caret_slope_run
            &&& be_i16_value(b, 22) == t.caret_offset
            &&& be_u16_value(b, 24) == 0 && be_u16_value(b, 26) == 0 && be_u16_value(b, 28) == 0
                && be_u16_value(b, 30) == 0
            &&& be_i16_value(b, 32) == t.metric_data_format
            &&& be_u16_value(b, 34) == t.number_of_h_metrics
        }),
{
    let w = t.words();
    lemma_be16s_value(w, 0int);
    lemma_be16s_value(w, 1int);
    lemma_be16s_value(w, 2int);
    lemma_be16s_value(w, 3int);
    lemma_be16s_value(w, 4int);
    lemma_be16s_value(w, 5int);
    lemma_be16s_value(w, 6int);
    lemma_be16s_value(w, 7int);
    lemma_be16s_value(w, 8int);
    lemma_be16s_value(w, 9int);
    lemma_be16s_value(w, 10int);
    lemma_be16s_value(w, 11int);
    lemma_be16s_value(w, 12int);
    lemma_be16s_value(w, 13int);
    lemma_be16s_value(w, 14int);
    lemma_be16s_value(w, 15int);
    lemma_be16s_value(w, 16int);
    lemma_be16s_value(w, 17int);
    lemma_be16s(w);
    lemma_i16_bits(t.ascent);
    lemma_i16_bits(t.descent);
    lemma_i16_bits(t.line_gap);
    lemma_i16_bits(t.min_left_side_bearing);
    lemma_i16_bits(t.min_right_side_bearing);
    lemma_i16_bits(t.x_max_extent);
    lemma_i16_bits(t.caret_slope_rise);
    lemma_i16_bits(t.caret_slope_run);
    lemma_i16_bits(t.caret_offset);
    lemma_i16_bits(t.metric_data_format);
    assert(be_u16_value(be16s(w), 0int) == w[0]);
    assert(be_u16_value(be16s(w), 2int) == w[1]);
    assert(be_i16_value(be16s(w), 4int) == i16_of_bits(w[2]));
    assert(be_i16_value(be16s(w), 6int) == i16_of_bits(w[3]));
    assert(be_i16_value(be16s(w), 8int) == i16_of_bits(w[4]));
    assert(be_u16_value(be16s(w), 10int) == w[5]);
    assert(be_i16_value(be16s(w), 12int) == i16_of_bits(w[6]));
    assert(be_i16_value(be16s(w), 14int) == i16_of_bits(w[7]));
    assert(be_i16_value(be16s(w), 16int) == i16_of_bits(w[8]));
    assert(be_i16_value(be16s(w), 18int) == i16_of_bits(w[9]));
    assert(be_i16_value(be16s(w), 20int) == i16_of_bits(w[10]));
    assert(be_i16_value(be16s(w), 22int) == i16_of_bits(w[11]));
    assert(be_u16_value(be16s(w), 24int) == w[12]);
    assert(be_u16_value(be16s(w), 26int) == w[13]);
    assert(be_u16_value(be16s(w), 28int) == w[14]);
    assert(be_u16_value(be16s(w), 30int) == w[15]);
    assert(be_i16_value(be16s(w), 32int) == i16_of_bits(w[16]));
    assert(be_u16_value(be16s(w), 34int) == w[17]);
}

} // verus!
