//! The 'loca' table: the offsets of the glyphs in the 'glyf' table.
use vstd::prelude::*;
use crate::big_endian::{be16, be32, be_u16_value, be_u32_value, get_u16, get_u32, lemma_get_u16, lemma_get_u16_value, lemma_get_u32, lemma_get_u32_value, read_u16_at, read_u32_at, write_u16, write_u32};
use crate::otf::error::FontError;
use crate::otf::tables::glyf::{components_size, GlyphData, GlyphDescription, GlyphView};
use crate::otf::tables::glyf::table::GlyfTable;
use crate::otf::tables::head::HeadTable;
use crate::otf::tables::maxp::MaxpTable;

verus! {

/// The index to location table.
/// See https://docs.microsoft.com/en-us/typography/opentype/spec/loca
#[derive(Debug, PartialEq, Clone)]
pub struct LocaTable {
    /// Offsets indexed by glyph id; the size of a glyph is the difference of two consecutive
    /// offsets.
    pub offsets: Vec<u32>,
    /// Whether the offsets are stored as halves in 16 bits or in 32 bits; kept to write the table
    /// as it was read.
    pub format: Format,
}

#[derive(Debug, PartialEq, Eq, Clone, Copy, Structural)]
pub enum Format {
    Short,
    Long,
}

/// The number of bytes a glyph takes: padded to 4 bytes where `aligned`; none for no outline.
pub open spec fn glyph_size(o: Option<GlyphView>, aligned: bool) -> nat {
    match o {
        Some(g) => if aligned { g.spec_size() } else { g.unaligned_size() },
        None => 0,
    }
}

/// The number of bytes the glyphs `gs` take together.
pub open spec fn total_size(gs: Seq<Option<GlyphView>>, aligned: bool) -> nat
    decreases gs.len(),
{
    if gs.len() == 0 {
        0
    } else {
        total_size(gs.drop_last(), aligned) + glyph_size(gs.last(), aligned)
    }
}

/// The offsets of glyphs stored one after another: 0, then the end of each glyph, as long as it
/// fits into a `u32`.
pub open spec fn glyph_offsets(gs: Seq<Option<GlyphView>>, aligned: bool) -> Seq<u32>
    decreases gs.len(),
{
    if gs.len() == 0 {
        seq![0u32]
    } else {
        let prev = glyph_offsets(gs.drop_last(), aligned);
        let t = total_size(gs, aligned);
        if t <= u32::MAX {
            prev.push(t as u32)
        } else {
            prev
        }
    }
}

/// The offsets held by the bytes `s` of a table with `n` entries in the given format.
pub open spec fn offsets_at(s: Seq<u8>, n: nat, format: Format) -> Seq<u32> {
    Seq::new(
        n,
        |k: int|
            match format {
                Format::Short => (get_u16(s, 2 * k) * 2) as u32,
                Format::Long => get_u32(s, 4 * k),
            },
    )
}

/// The bytes of the offsets in the given format: halves as 16 bits, or 32 bits.
pub open spec fn offsets_bytes(offs: Seq<u32>, format: Format) -> Seq<u8>
    decreases offs.len(),
{
    if offs.len() == 0 {
        Seq::empty()
    } else {
        offsets_bytes(offs.drop_last(), format) + match format {
            Format::Short => be16(((offs.last() / 2) % 0x10000) as u16),
            Format::Long => be32(offs.last()),
        }
    }
}

/// The format that the head table's index to location format stands for.
pub open spec fn format_of(index_to_loc_format: i16) -> Format {
    if index_to_loc_format == 0 { Format::Short } else { Format::Long }
}

fn wide_size(g: &GlyphData, aligned: bool) -> (r: u128)
    ensures
        r == glyph_size(Some(g@), aligned),
        r <= 0x1_0000_0000_0000_0000_0000,
{
    let d: u128 = match &g.description {
        GlyphDescription::Simple(v) => v.len() as u128,
        GlyphDescription::Composite(c) => {
            let mut total: u128 = 0;
            let mut k: usize = 0;
            while k < c.components.len()
                invariant
                    k <= c.components@.len(),
                    total == components_size(c.components@.take(k as int)),
                    total <= 16 * k,
                decreases c.components@.len() - k,
            {
                assert(c.components@.take(k + 1).drop_last() =~= c.components@.take(k as int));
                total = total + c.components[k].size_in_byte() as u128;
                k = k + 1;
            }
            assert(c.components@.take(k as int) =~= c.components@);
            match &c.instructions {
                Some(i) => total + i.len() as u128 + 2,
                None => total,
            }
        },
    };
    let u = 10 + d;
    if aligned && u % 4 != 0 {
        u + 4 - u % 4
    } else {
        u
    }
}

/// The offsets of the glyphs of `glyf` stored one after another.
fn offsets_of(glyf: &GlyfTable, aligned: bool) -> (r: Vec<u32>)
    ensures
        r@ == glyph_offsets(glyf@, aligned),
{
    let mut r: Vec<u32> = Vec::new();
    r.push(0);
    let mut total: u128 = 0;
    let mut k: usize = 0;
    assert(r@ =~= glyph_offsets(glyf@.take(0), aligned));
    while k < glyf.glyphs.len()
        invariant
            k <= glyf.glyphs@.len(),
            glyf@.len() == glyf.glyphs@.len(),
            r@ == glyph_offsets(glyf@.take(k as int), aligned),
            total <= 0x1_0000_0000,
            total == total_size(glyf@.take(k as int), aligned) || (total == 0x1_0000_0000 && total_size(
                glyf@.take(k as int),
                aligned,
            ) > u32::MAX),
        decreases glyf.glyphs@.len() - k,
    {
        let size: u128 = match &glyf.glyphs[k] {
            Some(g) => wide_size(g, aligned),
            None => 0,
        };
        assert(glyf@.take(k + 1).drop_last() =~= glyf@.take(k as int));
        assert(glyf@.take(k + 1).last() == glyf@[k as int]);
        total = total + size;
        if total <= 0xFFFF_FFFF {
            r.push(total as u32);
        } else {
            total = 0x1_0000_0000;
        }
        k = k + 1;
    }
    assert(glyf@.take(k as int) =~= glyf@);
    r
}

impl LocaTable {
    /// Reads the table: `maxp` gives the number of glyphs, `head` the format.
    pub fn unpack(data: &[u8], head: &HeadTable, maxp: &MaxpTable) -> (r: Result<LocaTable, FontError>)
        ensures
            ({
                let n = maxp.spec_num_glyphs() + 1;
                let format = format_of(head.index_to_loc_format);
                let width = if format == Format::Short { 2int } else { 4int };
                match r {
                    Ok(t) => data@.len() >= width * n && t.format == format && t.offsets@ == offsets_at(
                        data@,
                        n as nat,
                        format,
                    ),
                    Err(e) => data@.len() < width * n && e == FontError::UnexpectedEof,
                }
            }),
    {
        let n = maxp.num_glyphs() as usize + 1;
        let format = if head.index_to_loc_format == 0 { Format::Short } else { Format::Long };
        let needed: usize = if head.index_to_loc_format == 0 { 2 * n } else { 4 * n };
        let len = data.len();
        if len < needed {
            return Err(FontError::UnexpectedEof);
        }
        let mut offsets: Vec<u32> = Vec::new();
        let mut k: usize = 0;
        while k < n
            invariant
                k <= n,
                len == data@.len(),
                len >= needed,
                needed == if format == Format::Short { 2 * n } else { 4 * n },
                offsets@ == offsets_at(data@, k as nat, format),
            decreases n - k,
        {
            let o = match format {
                Format::Short => (read_u16_at(data, 2 * k) as u32) * 2,
                Format::Long => read_u32_at(data, 4 * k),
            };
            offsets.push(o);
            k = k + 1;
            assert(offsets@ =~= offsets_at(data@, k as nat, format));
        }
        Ok(LocaTable { offsets, format })
    }

    /// Appends the offsets of the glyphs of `glyf` to `out`, in the table's format; the offsets
    /// count the glyphs with their padding, as `glyf` packs them.
    pub fn pack(&self, out: &mut Vec<u8>, glyf: &GlyfTable)
        ensures
            final(out)@ == old(out)@ + offsets_bytes(glyph_offsets(glyf@, true), self.format),
    {
        let offsets = offsets_of(glyf, true);
        let mut k: usize = 0;
        while k < offsets.len()
            invariant
                k <= offsets@.len(),
                out@ == old(out)@ + offsets_bytes(offsets@.take(k as int), self.format),
            decreases offsets@.len() - k,
        {
            assert(offsets@.take(k + 1).drop_last() =~= offsets@.take(k as int));
            match self.format {
                Format::Short => write_u16(out, ((offsets[k] / 2) % 0x10000) as u16),
                Format::Long => write_u32(out, offsets[k]),
            }
            k = k + 1;
        }
        assert(offsets@.take(k as int) =~= offsets@);
    }

    /// The table of a font whose glyphs are those of `glyf`: the offsets of its glyphs stored one
    /// after another, each counted without its padding, in the same format.
    pub fn subset(&self, glyf: &GlyfTable) -> (r: LocaTable)
        ensures
            r.offsets@ == glyph_offsets(glyf@, false),
            r.format == self.format,
    {
        LocaTable { offsets: offsets_of(glyf, false), format: self.format }
    }
}


/// The bytes of one offset in the given format.
pub open spec fn offset_bytes(o: u32, format: Format) -> Seq<u8> {
    match format {
        Format::Short => be16(((o / 2) % 0x10000) as u16),
        Format::Long => be32(o),
    }
}

/// The width of an offset in the given format.
pub open spec fn offset_width(format: Format) -> int {
    if format == Format::Short { 2 } else { 4 }
}

proof fn lemma_offsets_bytes_len(offs: Seq<u32>, format: Format)
    ensures
        offsets_bytes(offs, format).len() == offs.len() * offset_width(format),
    decreases offs.len(),
{
    if offs.len() > 0 {
        let d = offs.drop_last();
        lemma_offsets_bytes_len(d, format);
        let w = offset_width(format);
        assert(offset_bytes(offs.last(), format).len() == w);
        assert(offsets_bytes(offs, format).len() == d.len() * w + w);
        assert(d.len() * w + w == offs.len() * w) by (nonlinear_arith)
            requires
                d.len() + 1 == offs.len(),
        ;
    }
}

/// The bytes of the offset `k` stand at `k` times the width.
proof fn lemma_offsets_bytes_at(offs: Seq<u32>, format: Format, k: int)
    requires
        0 <= k < offs.len(),
    ensures
        offsets_bytes(offs, format).subrange(offset_width(format) * k, offset_width(format) * k + offset_width(format))
            == offset_bytes(offs[k], format),
    decreases offs.len(),
{
    let d = offs.drop_last();
    let w = offset_width(format);
    let b = offsets_bytes(offs, format);
    let bd = offsets_bytes(d, format);
    lemma_offsets_bytes_len(d, format);
    assert(b == bd + offset_bytes(offs.last(), format));
    if k < d.len() {
        lemma_offsets_bytes_at(d, format, k);
        assert(offs[k] == d[k]);
        assert(b.subrange(w * k, w * k + w) =~= bd.subrange(w * k, w * k + w));
    } else {
        assert(b.subrange(w * k, w * k + w) =~= offset_bytes(offs.last(), format));
    }
}

/// The glyphs padded to 4 bytes end at multiples of 4.
proof fn lemma_aligned_offsets(gs: Seq<Option<GlyphView>>)
    ensures
        total_size(gs, true) % 4 == 0,
        forall|k: int| 0 <= k < glyph_offsets(gs, true).len() ==> #[trigger] glyph_offsets(gs, true)[k] % 4 == 0,
    decreases gs.len(),
{
    if gs.len() > 0 {
        let d = gs.drop_last();
        lemma_aligned_offsets(d);
        let size = glyph_size(gs.last(), true);
        assert(size % 4 == 0) by {
            match gs.last() {
                Some(g) => {
                    let u = g.unaligned_size();
                    if u % 4 != 0 {
                        assert((u + 4 - u % 4) % 4 == 0) by (nonlinear_arith);
                    }
                },
                None => {},
            }
        }
        let t = total_size(gs, true);
        assert(t == total_size(d, true) + size);
        assert(t % 4 == 0) by (nonlinear_arith)
            requires
                t == total_size(d, true) + size,
                total_size(d, true) % 4 == 0,
                size % 4 == 0,
        ;
        let prev = glyph_offsets(d, true);
        assert forall|k: int| 0 <= k < glyph_offsets(gs, true).len() implies #[trigger] glyph_offsets(gs, true)[k] % 4 == 0 by {
            if k < prev.len() {
                assert(glyph_offsets(gs, true)[k] == prev[k]);
            } else {
                assert(glyph_offsets(gs, true)[k] == t);
            }
        }
    }
}

/// Reading back the offsets that the table writes gives the offsets, where in the short
/// format each is even and below `0x20000` (the short format stores halves in 16 bits).
pub proof fn lemma_offsets_round_trip(offs: Seq<u32>, format: Format)
    requires
        format == Format::Short ==> forall|k: int| 0 <= k < offs.len() ==> #[trigger] offs[k] % 2 == 0 && offs[k] < 0x20000,
    ensures
        offsets_bytes(offs, format).len() == offs.len() * offset_width(format),
        offsets_at(offsets_bytes(offs, format), offs.len(), format) == offs,
{
    lemma_offsets_bytes_len(offs, format);
    let b = offsets_bytes(offs, format);
    assert forall|k: int| 0 <= k < offs.len() implies #[trigger] offsets_at(b, offs.len(), format)[k] == offs[k] by {
        lemma_offsets_bytes_at(offs, format, k);
        match format {
            Format::Short => {
                lemma_get_u16(b, 2 * k, ((offs[k] / 2) % 0x10000) as u16);
                assert(offs[k] % 2 == 0 && offs[k] < 0x20000);
            },
            Format::Long => {
                lemma_get_u32(b, 4 * k, offs[k]);
            },
        }
    }
    assert(offsets_at(b, offs.len(), format) =~= offs);
}

/// Writing a loca table for `glyf` and reading it back gives the offsets of the glyphs, padded
/// to 4 bytes: where there is one offset more than the font has glyphs, the format is the one
/// the head table gives, and in the short format the offsets stay below `0x20000`.
pub proof fn law_loca_round_trip(format: Format, glyf: GlyfTable, head: HeadTable, maxp: MaxpTable)
    requires
        glyph_offsets(glyf@, true).len() == maxp.spec_num_glyphs() + 1,
        format == format_of(head.index_to_loc_format),
        format == Format::Short ==> forall|k: int|
            0 <= k < glyph_offsets(glyf@, true).len() ==> #[trigger] glyph_offsets(glyf@, true)[k] < 0x20000,
    ensures
        offsets_bytes(glyph_offsets(glyf@, true), format).len() == (if format == Format::Short { 2int } else { 4int })
            * (maxp.spec_num_glyphs() + 1),
        offsets_at(
            offsets_bytes(glyph_offsets(glyf@, true), format),
            (maxp.spec_num_glyphs() + 1) as nat,
            format_of(head.index_to_loc_format),
        ) == glyph_offsets(glyf@, true),
{
    let offs = glyph_offsets(glyf@, true);
    lemma_aligned_offsets(glyf@);
    if format == Format::Short {
        assert forall|k: int| 0 <= k < offs.len() implies #[trigger] offs[k] % 2 == 0 && offs[k] < 0x20000 by {
            assert(offs[k] % 4 == 0);
        }
    }
    lemma_offsets_round_trip(offs, format);
}

} // verus!

verus! {

/// Where the glyphs' sizes fit 32 bits, there is one offset more than glyphs.
pub proof fn lemma_glyph_offsets_len(gs: Seq<Option<GlyphView>>, aligned: bool)
    requires
        total_size(gs, aligned) <= u32::MAX,
    ensures
        glyph_offsets(gs, aligned).len() == gs.len() + 1,
    decreases gs.len(),
{
    if gs.len() > 0 {
        lemma_glyph_offsets_len(gs.drop_last(), aligned);
    }
}

} // verus!

verus! {

/// Reading `n` loca offsets: the head table's format 0 is the short format, in which offset `k`
/// is twice the big-endian 16-bit value at `2 k`; any other is the long format, in which it is
/// the big-endian 32-bit value at `4 k`.
pub proof fn law_loca_layout_read(s: Seq<u8>, n: nat, index_to_loc_format: i16)
    ensures
        format_of(index_to_loc_format) == (if index_to_loc_format == 0 { Format::Short } else { Format::Long }),
        s.len() >= 2 * n ==> forall|k: int|
            0 <= k < n ==> #[trigger] offsets_at(s, n, Format::Short)[k] == 2 * be_u16_value(s, 2 * k),
        s.len() >= 4 * n ==> forall|k: int|
            0 <= k < n ==> #[trigger] offsets_at(s, n, Format::Long)[k] == be_u32_value(s, 4 * k),
{
    if s.len() >= 2 * n {
        assert forall|k: int| 0 <= k < n implies #[trigger] offsets_at(s, n, Format::Short)[k] == 2 * be_u16_value(
            s,
            2 * k,
        ) by {
            lemma_get_u16_value(s, 2 * k);
        }
    }
    if s.len() >= 4 * n {
        assert forall|k: int| 0 <= k < n implies #[trigger] offsets_at(s, n, Format::Long)[k] == be_u32_value(
            s,
            4 * k,
        ) by {
            lemma_get_u32_value(s, 4 * k);
        }
    }
}

} // verus!
