//! The 'post' table: information for PostScript printers.
use vstd::prelude::*;
use crate::big_endian::{
    be16s, be_i16_value, be_i32_value, be_u16_value, be_u32_value, lemma_be16s_values, lemma_get_u16s_values,
    lemma_halves, get_u16s, hi16, i16_bits, i16_from_bits, i16_of_bits, i16_to_bits, i32_bits,
    i32_from_bits, i32_of_bits, i32_to_bits, join32, lemma_be16s, lemma_get_u16s, lemma_i16_bits,
    lemma_i32_bits, lemma_join32, lo16, make32, read_u16s_at, split32, write_bytes, write_u16s,
    copy_range,
};
use crate::otf::error::FontError;

verus! {

/// The PostScript table.
/// See https://docs.microsoft.com/en-us/typography/opentype/spec/post
#[derive(Debug, PartialEq, Clone)]
pub struct PostTable {
    pub major_version: u16,
    pub minor_version: u16,
    /// Italic angle in counter-clockwise degrees from the vertical, as a 16.16 fixed point number.
    pub italic_angle: i32,
    /// The suggested distance of the top of the underline from the baseline.
    pub underline_position: i16,
    /// The suggested underline thickness.
    pub underline_thickness: i16,
    /// 0 if the font is proportionally spaced, non-zero if it is monospaced.
    pub is_fixed_path: u32,
    /// Minimum memory usage when an OpenType font is downloaded.
    pub min_mem_type42: u32,
    /// Maximum memory usage when an OpenType font is downloaded.
    pub max_mem_type42: u32,
    /// Minimum memory usage when an OpenType font is downloaded as a Type 1 font.
    pub min_mem_type1: u32,
    /// Maximum memory usage when an OpenType font is downloaded as a Type 1 font.
    pub max_mem_type1: u32,
    /// The content of format 2 and format 4 tables that follows the header, unparsed.
    pub addition: Vec<u8>,
}

impl PostTable {
    /// The 16 big-endian words of the header.
    pub open spec fn words(self) -> Seq<u16> {
        seq![
            self.major_version,
            self.minor_version,
            hi16(i32_bits(self.italic_angle)),
            lo16(i32_bits(self.italic_angle)),
            i16_bits(self.underline_position),
            i16_bits(self.underline_thickness),
            hi16(self.is_fixed_path),
            lo16(self.is_fixed_path),
            hi16(self.min_mem_type42),
            lo16(self.min_mem_type42),
            hi16(self.max_mem_type42),
            lo16(self.max_mem_type42),
            hi16(self.min_mem_type1),
            lo16(self.min_mem_type1),
            hi16(self.max_mem_type1),
            lo16(self.max_mem_type1),
        ]
    }

    /// The header fields are those that the 16 words `w` hold.
    pub open spec fn matches_words(self, w: Seq<u16>) -> bool {
        &&& self.major_version == w[0]
        &&& self.minor_version == w[1]
        &&& self.italic_angle == i32_of_bits(join32(w[2], w[3]))
        &&& self.underline_position == i16_of_bits(w[4])
        &&& self.underline_thickness == i16_of_bits(w[5])
        &&& self.is_fixed_path == join32(w[6], w[7])
        &&& self.min_mem_type42 == join32(w[8], w[9])
        &&& self.max_mem_type42 == join32(w[10], w[11])
        &&& self.min_mem_type1 == join32(w[12], w[13])
        &&& self.max_mem_type1 == join32(w[14], w[15])
    }

    /// The table is the one the bytes `s` hold: a 32-byte header, then the addition.
    pub open spec fn matches_bytes(self, s: Seq<u8>) -> bool {
        &&& s.len() >= 32
        &&& self.matches_words(get_u16s(s, 0, 16))
        &&& self.addition@ == s.subrange(32, s.len() as int)
    }

    /// The bytes that `pack` writes.
    pub open spec fn spec_pack(self) -> Seq<u8> {
        be16s(self.words()) + self.addition@
    }

    /// Reads the table from its bytes; all bytes after the header are its addition.
    pub fn unpack(data: &[u8]) -> (r: Result<PostTable, FontError>)
        ensures
            match r {
                Ok(t) => t.matches_bytes(data@),
                Err(e) => data@.len() < 32 && e == FontError::UnexpectedEof,
            },
    {
        if data.len() < 32 {
            return Err(FontError::UnexpectedEof);
        }
        let w = read_u16s_at(data, 0, 16);
        Ok(PostTable {
            major_version: w[0],
            minor_version: w[1],
            italic_angle: i32_from_bits(make32(w[2], w[3])),
            underline_position: i16_from_bits(w[4]),
            underline_thickness: i16_from_bits(w[5]),
            is_fixed_path: make32(w[6], w[7]),
            min_mem_type42: make32(w[8], w[9]),
            max_mem_type42: make32(w[10], w[11]),
            min_mem_type1: make32(w[12], w[13]),
            max_mem_type1: make32(w[14], w[15]),
            addition: copy_range(data, 32, data.len()),
        })
    }

    /// Appends the table to `out`.
    pub fn pack(&self, out: &mut Vec<u8>)
        ensures
            final(out)@ == old(out)@ + self.spec_pack(),
    {
        let (a0, a1) = split32(i32_to_bits(self.italic_angle));
        let (f0, f1) = split32(self.is_fixed_path);
        let (b0, b1) = split32(self.min_mem_type42);
        let (c0, c1) = split32(self.max_mem_type42);
        let (d0, d1) = split32(self.min_mem_type1);
        let (e0, e1) = split32(self.max_mem_type1);
        let w: Vec<u16> = vec![
            self.major_version,
            self.minor_version,
            a0,
            a1,
            i16_to_bits(self.underline_position),
            i16_to_bits(self.underline_thickness),
            f0,
            f1,
            b0,
            b1,
            c0,
            c1,
            d0,
            d1,
            e0,
            e1,
        ];
        assert(w@ =~= self.words());
        write_u16s(out, &w);
        write_bytes(out, self.addition.as_slice());
        assert(final(out)@ =~= old(out)@ + self.spec_pack());
    }

    /// Reading back what `pack` wrote gives the same table.
    pub proof fn lemma_pack_unpack(self)
        ensures
            self.matches_bytes(self.spec_pack()),
    {
        let w = self.words();
        let s = self.spec_pack();
        lemma_be16s(w);
        lemma_get_u16s(Seq::empty(), w, self.addition@);
        assert(Seq::<u8>::empty() + be16s(w) + self.addition@ =~= s);
        assert(s.subrange(32, s.len() as int) =~= self.addition@);
        lemma_join32(i32_bits(self.italic_angle));
        lemma_i32_bits(self.italic_angle);
        lemma_i16_bits(self.underline_position);
        lemma_i16_bits(self.underline_thickness);
        lemma_join32(self.is_fixed_path);
        lemma_join32(self.min_mem_type42);
        lemma_join32(self.max_mem_type42);
        lemma_join32(self.min_mem_type1);
        lemma_join32(self.max_mem_type1);
    }
}

impl PostTable {
    /// A copy of the table.
    pub fn duplicate(&self) -> (r: PostTable)
        ensures
            r.words() == self.words(),
            r.addition@ == self.addition@,
            r.major_version == self.major_version && r.minor_version == self.minor_version
                && r.italic_angle == self.italic_angle && r.underline_position == self.underline_position
                && r.underline_thickness == self.underline_thickness && r.is_fixed_path == self.is_fixed_path
                && r.min_mem_type42 == self.min_mem_type42 && r.max_mem_type42 == self.max_mem_type42
                && r.min_mem_type1 == self.min_mem_type1 && r.max_mem_type1 == self.max_mem_type1,
    {
        PostTable { addition: crate::big_endian::copy_vec(&self.addition), ..*self }
    }
}

} // verus!

verus! {

/// The header of a 'post' table at its places in the OpenType layout of `s`: the version at 0
/// and 2, the italic angle at 4 (32 bits, signed), the underline position and thickness at 8
/// and 10, the fixed-pitch flag at 12 and the four memory hints at 16, 20, 24 and 28 (32 bits);
/// the bytes from 32 on are the addition.
pub open spec fn post_at_layout(t: PostTable, s: Seq<u8>) -> bool {
    &&& s.len() >= 32
    &&& t.major_version == be_u16_value(s, 0)
    &&& t.minor_version == be_u16_value(s, 2)
    &&& t.italic_angle == be_i32_value(s, 4)
    &&& t.underline_position == be_i16_value(s, 8)
    &&& t.underline_thickness == be_i16_value(s, 10)
    &&& t.is_fixed_path == be_u32_value(s, 12)
    &&& t.min_mem_type42 == be_u32_value(s, 16)
    &&& t.max_mem_type42 == be_u32_value(s, 20)
    &&& t.min_mem_type1 == be_u32_value(s, 24)
    &&& t.max_mem_type1 == be_u32_value(s, 28)
    &&& t.addition@ == s.subrange(32, s.len() as int)
}

/// A 'post' table read from `s` has its fields at their places in the OpenType layout (see
/// `post_at_layout`).
pub proof fn law_post_layout_read(t: PostTable, s: Seq<u8>)
    requires
        t.matches_bytes(s),
    ensures
        post_at_layout(t, s),
{
    lemma_get_u16s_values(s, 0, 16);
    let w = get_u16s(s, 0, 16);
    assert(w[0] as int == be_u16_value(s, 0));
    assert(w[1] as int == be_u16_value(s, 2));
    assert(w[2] as int == be_u16_value(s, 4));
    assert(w[3] as int == be_u16_value(s, 6));
    assert(i16_of_bits(w[4]) as int == be_i16_value(s, 8));
    assert(i16_of_bits(w[5]) as int == be_i16_value(s, 10));
    assert(w[6] as int == be_u16_value(s, 12));
    assert(w[7] as int == be_u16_value(s, 14));
    assert(w[8] as int == be_u16_value(s, 16));
    assert(w[9] as int == be_u16_value(s, 18));
    assert(w[10] as int == be_u16_value(s, 20));
    assert(w[11] as int == be_u16_value(s, 22));
    assert(w[12] as int == be_u16_value(s, 24));
    assert(w[13] as int == be_u16_value(s, 26));
    assert(w[14] as int == be_u16_value(s, 28));
    assert(w[15] as int == be_u16_value(s, 30));
    assert(s[4] >= 128 <==> w[2] >= 0x8000);
}

/// Writing a 'post' table puts its header at its places in the OpenType layout and the addition
/// after it (see `post_at_layout`).
pub proof fn law_post_layout_write(t: PostTable)
    ensures
        post_at_layout(t, t.spec_pack()),
{
    let w = t.words();
    let b = t.spec_pack();
    lemma_be16s_values(w);
    let h = be16s(w);
    assert forall|k: int| 0 <= k < 16 implies be_u16_value(b, 2 * k) == #[trigger] w[k] && be_i16_value(b, 2 * k)
        == i16_of_bits(w[k]) by {
        assert(b[2 * k] == h[2 * k]);
        assert(b[2 * k + 1] == h[2 * k + 1]);
        assert(be_u16_value(h, 2 * k) == w[k]);
    }
    assert(b.subrange(32, b.len() as int) =~= t.addition@);
    lemma_i16_bits(t.underline_position);
    lemma_i16_bits(t.underline_thickness);
    let a = i32_bits(t.italic_angle);
    lemma_halves(a);
    lemma_halves(t.is_fixed_path);
    lemma_halves(t.min_mem_type42);
    lemma_halves(t.max_mem_type42);
    lemma_halves(t.min_mem_type1);
    lemma_halves(t.max_mem_type1);
    assert(be_u16_value(b, 0) == w[0]);
    assert(be_u16_value(b, 2) == w[1]);
    assert(be_u16_value(b, 4) == w[2]);
    assert(be_u16_value(b, 6) == w[3]);
    assert(be_i16_value(b, 8) == i16_of_bits(w[4]));
    assert(be_i16_value(b, 10) == i16_of_bits(w[5]));
    assert(be_u16_value(b, 12) == w[6]);
    assert(be_u16_value(b, 14) == w[7]);
    assert(be_u16_value(b, 16) == w[8]);
    assert(be_u16_value(b, 18) == w[9]);
    assert(be_u16_value(b, 20) == w[10]);
    assert(be_u16_value(b, 22) == w[11]);
    assert(be_u16_value(b, 24) == w[12]);
    assert(be_u16_value(b, 26) == w[13]);
    assert(be_u16_value(b, 28) == w[14]);
    assert(be_u16_value(b, 30) == w[15]);
    assert(b[4] >= 128 <==> w[2] >= 0x8000);
}

} // verus!
