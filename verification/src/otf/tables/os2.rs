//! The 'OS/2' table: metrics and other data that a font requires.
use vstd::prelude::*;
use crate::big_endian::{
    be16s, be_i16_value, be_u16_value, be_u32_value, lemma_be16s_values, lemma_get_u16s_values, lemma_halves, get_u16, get_u16s, hi16, hi8, hi_byte, i16_bits, i16_from_bits, i16_of_bits,
    i16_to_bits, join32, lemma_be16s, lemma_get_u16s, lemma_i16_bits, lemma_join32, lo16, lo8,
    lo_byte, make16, make32, pair16, read_u16_at, read_u16s_at, split32, write_u16s,
};
use crate::otf::error::FontError;

verus! {

/// The OS/2 and Windows metrics table. Which fields the data holds depends on the version:
/// the code page range from version 1 on, the heights and characters from version 2 on, the
/// optical point sizes from version 5 on; absent fields are 0.
/// See https://docs.microsoft.com/en-us/typography/opentype/spec/os2
#[derive(Debug, PartialEq, Clone, Copy)]
pub struct Os2Table {
    pub version: u16,
    pub x_avg_char_width: i16,
    pub us_weight_class: u16,
    pub us_width_class: u16,
    pub fs_type: u16,
    pub y_subscript_x_size: i16,
    pub y_subscript_y_size: i16,
    pub y_subscript_x_offset: i16,
    pub y_subscript_y_offset: i16,
    pub y_superscript_x_size: i16,
    pub y_superscript_y_size: i16,
    pub y_superscript_x_offset: i16,
    pub y_superscript_y_offset: i16,
    pub y_strikeout_size: i16,
    pub y_strikeout_position: i16,
    pub s_family_class: i16,
    pub panose: [u8; 10],
    pub ul_unicode_range: [u32; 4],
    pub ach_vend_id: [u8; 4],
    pub fs_selection: u16,
    pub us_first_char_index: u16,
    pub us_last_char_index: u16,
    pub s_typo_ascender: i16,
    pub s_typo_descender: i16,
    pub s_typo_line_gap: i16,
    pub us_win_ascent: u16,
    pub us_win_descent: u16,
    pub ul_code_page_range: [u32; 2],
    pub sx_height: i16,
    pub s_cap_height: i16,
    pub us_default_char: u16,
    pub us_break_char: u16,
    pub us_max_context: u16,
    pub us_lower_optical_point_size: u16,
    pub us_upper_optical_point_size: u16,
}

/// The number of 16-bit words that a table of the given version holds.
pub open spec fn word_count(version: u16) -> nat {
    39 + (if version > 0 { 4nat } else { 0nat }) + (if version > 1 { 5nat } else { 0nat }) + (if version
        > 4 { 2nat } else { 0nat })
}

fn word_count_of(version: u16) -> (r: usize)
    ensures
        r == word_count(version),
{
    39 + (if version > 0 { 4 } else { 0 }) + (if version > 1 { 5 } else { 0 }) + (if version > 4 { 2 } else { 0 })
}

/// A `u8` pair holds the bytes of a 16-bit word.
proof fn lemma_pair16(w: u16)
    ensures
        pair16(hi8(w), lo8(w)) == w,
{
}

/// The bytes of a pair make up its word.
proof fn lemma_bytes_of_pair(a: u8, b: u8)
    ensures
        hi8(pair16(a, b)) == a,
        lo8(pair16(a, b)) == b,
{
}

impl Os2Table {
    /// The words of the fields that every version holds.
    pub open spec fn base_words(self) -> Seq<u16> {
        seq![
            self.version,
            i16_bits(self.x_avg_char_width),
            self.us_weight_class,
            self.us_width_class,
            self.fs_type,
            i16_bits(self.y_subscript_x_size),
            i16_bits(self.y_subscript_y_size),
            i16_bits(self.y_subscript_x_offset),
            i16_bits(self.y_subscript_y_offset),
            i16_bits(self.y_superscript_x_size),
            i16_bits(self.y_superscript_y_size),
            i16_bits(self.y_superscript_x_offset),
            i16_bits(self.y_superscript_y_offset),
            i16_bits(self.y_strikeout_size),
            i16_bits(self.y_strikeout_position),
            i16_bits(self.s_family_class),
            pair16(self.panose[0], self.panose[1]),
            pair16(self.panose[2], self.panose[3]),
            pair16(self.panose[4], self.panose[5]),
            pair16(self.panose[6], self.panose[7]),
            pair16(self.panose[8], self.panose[9]),
            hi16(self.ul_unicode_range[0]),
            lo16(self.ul_unicode_range[0]),
            hi16(self.ul_unicode_range[1]),
            lo16(self.ul_unicode_range[1]),
            hi16(self.ul_unicode_range[2]),
            lo16(self.ul_unicode_range[2]),
            hi16(self.ul_unicode_range[3]),
            lo16(self.ul_unicode_range[3]),
            pair16(self.ach_vend_id[0], self.ach_vend_id[1]),
            pair16(self.ach_vend_id[2], self.ach_vend_id[3]),
            self.fs_selection,
            self.us_first_char_index,
            self.us_last_char_index,
            i16_bits(self.s_typo_ascender),
            i16_bits(self.s_typo_descender),
            i16_bits(self.s_typo_line_gap),
            self.us_win_ascent,
            self.us_win_descent,
        ]
    }

    /// The words of the code page range (version 1 on).
    pub open spec fn v1_words(self) -> Seq<u16> {
        seq![
            hi16(self.ul_code_page_range[0]),
            lo16(self.ul_code_page_range[0]),
            hi16(self.ul_code_page_range[1]),
            lo16(self.ul_code_page_range[1]),
        ]
    }

    /// The words of the heights and characters (version 2 on).
    pub open spec fn v2_words(self) -> Seq<u16> {
        seq![
            i16_bits(self.sx_height),
            i16_bits(self.s_cap_height),
            self.us_default_char,
            self.us_break_char,
            self.us_max_context,
        ]
    }

    /// The words of the optical point sizes (version 5 on).
    pub open spec fn v5_words(self) -> Seq<u16> {
        seq![
            self.us_lower_optical_point_size,
            self.us_upper_optical_point_size,
        ]
    }

    /// The big-endian words that hold the table, as its version prescribes.
    pub open spec fn words(self) -> Seq<u16> {
        self.base_words() + (if self.version > 0 { self.v1_words() } else { Seq::empty() }) + (if self.version
            > 1 { self.v2_words() } else { Seq::empty() }) + (if self.version > 4 { self.v5_words() } else { Seq::empty() })
    }

    /// The fields that every version holds are those in `w`.
    pub open spec fn matches_base(self, w: Seq<u16>) -> bool {
        &&& self.version == w[0]
        &&& self.x_avg_char_width == i16_of_bits(w[1])
        &&& self.us_weight_class == w[2]
        &&& self.us_width_class == w[3]
        &&& self.fs_type == w[4]
        &&& self.y_subscript_x_size == i16_of_bits(w[5])
        &&& self.y_subscript_y_size == i16_of_bits(w[6])
        &&& self.y_subscript_x_offset == i16_of_bits(w[7])
        &&& self.y_subscript_y_offset == i16_of_bits(w[8])
        &&& self.y_superscript_x_size == i16_of_bits(w[9])
        &&& self.y_superscript_y_size == i16_of_bits(w[10])
        &&& self.y_superscript_x_offset == i16_of_bits(w[11])
        &&& self.y_superscript_y_offset == i16_of_bits(w[12])
        &&& self.y_strikeout_size == i16_of_bits(w[13])
        &&& self.y_strikeout_position == i16_of_bits(w[14])
        &&& self.s_family_class == i16_of_bits(w[15])
        &&& self.panose@ == seq![hi8(w[16]), lo8(w[16]), hi8(w[17]), lo8(w[17]), hi8(w[18]), lo8(w[18]), hi8(w[19]), lo8(w[19]), hi8(w[20]), lo8(w[20])]
        &&& self.ul_unicode_range@ == seq![join32(w[21], w[22]), join32(w[23], w[24]), join32(w[25], w[26]), join32(w[27], w[28])]
        &&& self.ach_vend_id@ == seq![hi8(w[29]), lo8(w[29]), hi8(w[30]), lo8(w[30])]
        &&& self.fs_selection == w[31]
        &&& self.us_first_char_index == w[32]
        &&& self.us_last_char_index == w[33]
        &&& self.s_typo_ascender == i16_of_bits(w[34])
        &&& self.s_typo_descender == i16_of_bits(w[35])
        &&& self.s_typo_line_gap == i16_of_bits(w[36])
        &&& self.us_win_ascent == w[37]
        &&& self.us_win_descent == w[38]
    }

    /// The fields of version 1 on are those in `w`, or 0 where the version lacks them.
    pub open spec fn matches_v1(self, w: Seq<u16>) -> bool {
        if self.version > 0 {
        &&& self.ul_code_page_range@ == seq![join32(w[39], w[40]), join32(w[41], w[42])]
        } else {
        &&& self.ul_code_page_range@ == seq![0u32, 0u32]
        }
    }

    /// The fields of version 2 on are those in `w`, or 0 where the version lacks them.
    pub open spec fn matches_v2(self, w: Seq<u16>) -> bool {
        let i = if self.version > 0 { 43int } else { 39int };
        if self.version > 1 {
        &&& self.sx_height == i16_of_bits(w[i + 0])
        &&& self.s_cap_height == i16_of_bits(w[i + 1])
        &&& self.us_default_char == w[i + 2]
        &&& self.us_break_char == w[i + 3]
        &&& self.us_max_context == w[i + 4]
        } else {
        &&& self.sx_height == 0
        &&& self.s_cap_height == 0
        &&& self.us_default_char == 0
        &&& self.us_break_char == 0
        &&& self.us_max_context == 0
        }
    }

    /// The fields of version 5 on are those in `w`, or 0 where the version lacks them.
    pub open spec fn matches_v5(self, w: Seq<u16>) -> bool {
        if self.version > 4 {
        &&& self.us_lower_optical_point_size == w[48]
        &&& self.us_upper_optical_point_size == w[49]
        } else {
        &&& self.us_lower_optical_point_size == 0
        &&& self.us_upper_optical_point_size == 0
        }
    }

    /// The table is the one the words `w` hold.
    pub open spec fn matches_words(self, w: Seq<u16>) -> bool {
        &&& self.matches_base(w)
        &&& self.matches_v1(w)
        &&& self.matches_v2(w)
        &&& self.matches_v5(w)
    }

    /// The bytes `s` hold a table: they are long enough for the version they start with.
    pub open spec fn holds_table(s: Seq<u8>) -> bool {
        s.len() >= 2 && s.len() >= 2 * word_count(get_u16(s, 0))
    }

    /// The fields that the table's version lacks are 0.
    pub open spec fn is_normalized(self) -> bool {
        &&& self.version == 0 ==> self.ul_code_page_range@ == seq![0u32, 0u32]
        &&& self.version <= 1 ==> (self.sx_height == 0 && self.s_cap_height == 0 && self.us_default_char == 0
            && self.us_break_char == 0 && self.us_max_context == 0)
        &&& self.version <= 4 ==> (self.us_lower_optical_point_size == 0 && self.us_upper_optical_point_size == 0)
    }

    /// The bytes that `pack` writes.
    pub open spec fn spec_pack(self) -> Seq<u8> {
        be16s(self.words())
    }

    /// Reads the table from its bytes: fails where they end before the fields of the version
    /// that they start with.
    pub fn unpack(data: &[u8]) -> (r: Result<Os2Table, FontError>)
        ensures
            match r {
                Ok(t) => Self::holds_table(data@) && t.matches_words(get_u16s(data@, 0, word_count(get_u16(data@, 0)))),
                Err(e) => !Self::holds_table(data@) && e == FontError::UnexpectedEof,
            },
    {
        if data.len() < 2 {
            return Err(FontError::UnexpectedEof);
        }
        let version = read_u16_at(data, 0);
        let n = word_count_of(version);
        if data.len() < 2 * n {
            return Err(FontError::UnexpectedEof);
        }
        let w = read_u16s_at(data, 0, n);
        let i: usize = if version > 0 { 43 } else { 39 };
        let t = Os2Table {
            version: w[0],
            x_avg_char_width: i16_from_bits(w[1]),
            us_weight_class: w[2],
            us_width_class: w[3],
            fs_type: w[4],
            y_subscript_x_size: i16_from_bits(w[5]),
            y_subscript_y_size: i16_from_bits(w[6]),
            y_subscript_x_offset: i16_from_bits(w[7]),
            y_subscript_y_offset: i16_from_bits(w[8]),
            y_superscript_x_size: i16_from_bits(w[9]),
            y_superscript_y_size: i16_from_bits(w[10]),
            y_superscript_x_offset: i16_from_bits(w[11]),
            y_superscript_y_offset: i16_from_bits(w[12]),
            y_strikeout_size: i16_from_bits(w[13]),
            y_strikeout_position: i16_from_bits(w[14]),
            s_family_class: i16_from_bits(w[15]),
            panose: [hi_byte(w[16]), lo_byte(w[16]), hi_byte(w[17]), lo_byte(w[17]), hi_byte(w[18]), lo_byte(w[18]), hi_byte(w[19]), lo_byte(w[19]), hi_byte(w[20]), lo_byte(w[20])],
            ul_unicode_range: [make32(w[21], w[22]), make32(w[23], w[24]), make32(w[25], w[26]), make32(w[27], w[28])],
            ach_vend_id: [hi_byte(w[29]), lo_byte(w[29]), hi_byte(w[30]), lo_byte(w[30])],
            fs_selection: w[31],
            us_first_char_index: w[32],
            us_last_char_index: w[33],
            s_typo_ascender: i16_from_bits(w[34]),
            s_typo_descender: i16_from_bits(w[35]),
            s_typo_line_gap: i16_from_bits(w[36]),
            us_win_ascent: w[37],
            us_win_descent: w[38],
            ul_code_page_range: if version > 0 {
                [make32(w[39], w[40]), make32(w[41], w[42])]
            } else {
                [0, 0]
            },
            sx_height: if version > 1 { i16_from_bits(w[i]) } else { 0 },
            s_cap_height: if version > 1 { i16_from_bits(w[i + 1]) } else { 0 },
            us_default_char: if version > 1 { w[i + 2] } else { 0 },
            us_break_char: if version > 1 { w[i + 3] } else { 0 },
            us_max_context: if version > 1 { w[i + 4] } else { 0 },
            us_lower_optical_point_size: if version > 4 { w[48] } else { 0 },
            us_upper_optical_point_size: if version > 4 { w[49] } else { 0 },
        };
        Ok(t)
    }

    /// Appends the table to `out`, with the fields that its version holds.
    pub fn pack(&self, out: &mut Vec<u8>)
        ensures
            final(out)@ == old(out)@ + self.spec_pack(),
    {
        let mut w: Vec<u16> = vec![
            self.version,
            i16_to_bits(self.x_avg_char_width),
            self.us_weight_class,
            self.us_width_class,
            self.fs_type,
            i16_to_bits(self.y_subscript_x_size),
            i16_to_bits(self.y_subscript_y_size),
            i16_to_bits(self.y_subscript_x_offset),
            i16_to_bits(self.y_subscript_y_offset),
            i16_to_bits(self.y_superscript_x_size),
            i16_to_bits(self.y_superscript_y_size),
            i16_to_bits(self.y_superscript_x_offset),
            i16_to_bits(self.y_superscript_y_offset),
            i16_to_bits(self.y_strikeout_size),
            i16_to_bits(self.y_strikeout_position),
            i16_to_bits(self.s_family_class),
            make16(self.panose[0], self.panose[1]),
            make16(self.panose[2], self.panose[3]),
            make16(self.panose[4], self.panose[5]),
            make16(self.panose[6], self.panose[7]),
            make16(self.panose[8], self.panose[9]),
            split32(self.ul_unicode_range[0]).0,
            split32(self.ul_unicode_range[0]).1,
            split32(self.ul_unicode_range[1]).0,
            split32(self.ul_unicode_range[1]).1,
            split32(self.ul_unicode_range[2]).0,
            split32(self.ul_unicode_range[2]).1,
            split32(self.ul_unicode_range[3]).0,
            split32(self.ul_unicode_range[3]).1,
            make16(self.ach_vend_id[0], self.ach_vend_id[1]),
            make16(self.ach_vend_id[2], self.ach_vend_id[3]),
            self.fs_selection,
            self.us_first_char_index,
            self.us_last_char_index,
            i16_to_bits(self.s_typo_ascender),
            i16_to_bits(self.s_typo_descender),
            i16_to_bits(self.s_typo_line_gap),
            self.us_win_ascent,
            self.us_win_descent,
        ];
        assert(w@ =~= self.base_words());
        if self.version > 0 {
            let (a, b) = split32(self.ul_code_page_range[0]);
            let (c, d) = split32(self.ul_code_page_range[1]);
            w.push(a);
            w.push(b);
            w.push(c);
            w.push(d);
        }
        assert(w@ =~= self.base_words() + (if self.version > 0 { self.v1_words() } else { Seq::empty() }));
        if self.version > 1 {
            w.push(i16_to_bits(self.sx_height));
            w.push(i16_to_bits(self.s_cap_height));
            w.push(self.us_default_char);
            w.push(self.us_break_char);
            w.push(self.us_max_context);
        }
        if self.version > 4 {
            w.push(self.us_lower_optical_point_size);
            w.push(self.us_upper_optical_point_size);
        }
        assert(w@ =~= self.words());
        write_u16s(out, &w);
    }

    /// Reading back what `pack` wrote gives a table equal, field by field, to this one, where
    /// the fields that its version lacks are 0.
    pub proof fn lemma_pack_unpack(self)
        requires
            self.is_normalized(),
        ensures
            Self::holds_table(self.spec_pack()),
            self.matches_words(get_u16s(self.spec_pack(), 0, word_count(get_u16(self.spec_pack(), 0)))),
    {
        let w = self.words();
        lemma_be16s(w);
        lemma_get_u16s(Seq::empty(), w, Seq::empty());
        assert(Seq::<u8>::empty() + be16s(w) + Seq::<u8>::empty() =~= be16s(w));
        assert(w.len() == word_count(self.version));
        assert(get_u16(be16s(w), 0) == w[0]) by { assert(0int == 2 * 0int); }
        lemma_i16_bits(self.x_avg_char_width);
        lemma_i16_bits(self.y_subscript_x_size);
        lemma_i16_bits(self.y_subscript_y_size);
        lemma_i16_bits(self.y_subscript_x_offset);
        lemma_i16_bits(self.y_subscript_y_offset);
        lemma_i16_bits(self.y_superscript_x_size);
        lemma_i16_bits(self.y_superscript_y_size);
        lemma_i16_bits(self.y_superscript_x_offset);
        lemma_i16_bits(self.y_superscript_y_offset);
        lemma_i16_bits(self.y_strikeout_size);
        lemma_i16_bits(self.y_strikeout_position);
        lemma_i16_bits(self.s_family_class);
        lemma_i16_bits(self.s_typo_ascender);
        lemma_i16_bits(self.s_typo_descender);
        lemma_i16_bits(self.s_typo_line_gap);
        lemma_i16_bits(self.sx_height);
        lemma_i16_bits(self.s_cap_height);
        lemma_join32(self.ul_unicode_range[0]);
        lemma_join32(self.ul_unicode_range[1]);
        lemma_join32(self.ul_unicode_range[2]);
        lemma_join32(self.ul_unicode_range[3]);
        lemma_join32(self.ul_code_page_range[0]);
        lemma_join32(self.ul_code_page_range[1]);
        lemma_bytes_of_pair(self.panose[0], self.panose[1]);
        lemma_bytes_of_pair(self.panose[2], self.panose[3]);
        lemma_bytes_of_pair(self.panose[4], self.panose[5]);
        lemma_bytes_of_pair(self.panose[6], self.panose[7]);
        lemma_bytes_of_pair(self.panose[8], self.panose[9]);
        lemma_bytes_of_pair(self.ach_vend_id[0], self.ach_vend_id[1]);
        lemma_bytes_of_pair(self.ach_vend_id[2], self.ach_vend_id[3]);
        assert(self.panose@ =~= seq![self.panose[0], self.panose[1], self.panose[2], self.panose[3], self.panose[4], self.panose[5], self.panose[6], self.panose[7], self.panose[8], self.panose[9]]);
        assert(self.ach_vend_id@ =~= seq![self.ach_vend_id[0], self.ach_vend_id[1], self.ach_vend_id[2], self.ach_vend_id[3]]);
        assert(self.ul_unicode_range@ =~= seq![self.ul_unicode_range[0], self.ul_unicode_range[1], self.ul_unicode_range[2], self.ul_unicode_range[3]]);
        assert(self.ul_code_page_range@ =~= seq![self.ul_code_page_range[0], self.ul_code_page_range[1]]);
    }
}

} // verus!

verus! {

/// The fields of an 'OS/2' table at their places in the OpenType layout of `s`: the version
/// and the fields of every version at 0 to 76 (the PANOSE bytes at 32, the Unicode ranges at
/// 42, 46, 50 and 54, the vendor id bytes at 58), the code page ranges at 78 and 82 (version 1
/// on), the heights and characters at 86 to 94 (version 2 on), the optical point sizes at 96
/// and 98 (version 5 on); all big-endian.
pub open spec fn os2_at_layout(t: Os2Table, s: Seq<u8>) -> bool {
    &&& t.version == be_u16_value(s, 0)
    &&& t.x_avg_char_width == be_i16_value(s, 2)
    &&& t.us_weight_class == be_u16_value(s, 4)
    &&& t.us_width_class == be_u16_value(s, 6)
    &&& t.fs_type == be_u16_value(s, 8)
    &&& t.y_subscript_x_size == be_i16_value(s, 10)
    &&& t.y_subscript_y_size == be_i16_value(s, 12)
    &&& t.y_subscript_x_offset == be_i16_value(s, 14)
    &&& t.y_subscript_y_offset == be_i16_value(s, 16)
    &&& t.y_superscript_x_size == be_i16_value(s, 18)
    &&& t.y_superscript_y_size == be_i16_value(s, 20)
    &&& t.y_superscript_x_offset == be_i16_value(s, 22)
    &&& t.y_superscript_y_offset == be_i16_value(s, 24)
    &&& t.y_strikeout_size == be_i16_value(s, 26)
    &&& t.y_strikeout_position == be_i16_value(s, 28)
    &&& t.s_family_class == be_i16_value(s, 30)
    &&& t.fs_selection == be_u16_value(s, 62)
    &&& t.us_first_char_index == be_u16_value(s, 64)
    &&& t.us_last_char_index == be_u16_value(s, 66)
    &&& t.s_typo_ascender == be_i16_value(s, 68)
    &&& t.s_typo_descender == be_i16_value(s, 70)
    &&& t.s_typo_line_gap == be_i16_value(s, 72)
    &&& t.us_win_ascent == be_u16_value(s, 74)
    &&& t.us_win_descent == be_u16_value(s, 76)
    &&& t.panose@[0] == s[32]
    &&& t.panose@[1] == s[33]
    &&& t.panose@[2] == s[34]
    &&& t.panose@[3] == s[35]
    &&& t.panose@[4] == s[36]
    &&& t.panose@[5] == s[37]
    &&& t.panose@[6] == s[38]
    &&& t.panose@[7] == s[39]
    &&& t.panose@[8] == s[40]
    &&& t.panose@[9] == s[41]
    &&& t.ul_unicode_range@[0] == be_u32_value(s, 42)
    &&& t.ul_unicode_range@[1] == be_u32_value(s, 46)
    &&& t.ul_unicode_range@[2] == be_u32_value(s, 50)
    &&& t.ul_unicode_range@[3] == be_u32_value(s, 54)
    &&& t.ach_vend_id@[0] == s[58]
    &&& t.ach_vend_id@[1] == s[59]
    &&& t.ach_vend_id@[2] == s[60]
    &&& t.ach_vend_id@[3] == s[61]
    &&& (t.version > 0 ==> t.ul_code_page_range@[0] == be_u32_value(s, 78) && t.ul_code_page_range@[1] == be_u32_value(s, 82))
    &&& (t.version > 1 ==> t.sx_height == be_i16_value(s, 86) && t.s_cap_height == be_i16_value(s, 88) && t.us_default_char == be_u16_value(s, 90) && t.us_break_char == be_u16_value(s, 92) && t.us_max_context == be_u16_value(s, 94))
    &&& (t.version > 4 ==> t.us_lower_optical_point_size == be_u16_value(s, 96) && t.us_upper_optical_point_size == be_u16_value(s, 98))
}

/// An 'OS/2' table read from `s` has its fields at their places in the OpenType layout (see
/// `os2_at_layout`).
pub proof fn law_os2_layout_read(t: Os2Table, s: Seq<u8>)
    requires
        Os2Table::holds_table(s),
        t.matches_words(get_u16s(s, 0, word_count(get_u16(s, 0)))),
    ensures
        os2_at_layout(t, s),
{
    let w = get_u16s(s, 0, word_count(get_u16(s, 0)));
    lemma_get_u16s_values(s, 0, word_count(get_u16(s, 0)));
    assert(w.len() >= 39);
    if true {
        if 0 < w.len() { assert(w[0] as int == be_u16_value(s, 0) && i16_of_bits(w[0]) as int == be_i16_value(s, 0)); }
        if 1 < w.len() { assert(w[1] as int == be_u16_value(s, 2) && i16_of_bits(w[1]) as int == be_i16_value(s, 2)); }
        if 2 < w.len() { assert(w[2] as int == be_u16_value(s, 4) && i16_of_bits(w[2]) as int == be_i16_value(s, 4)); }
        if 3 < w.len() { assert(w[3] as int == be_u16_value(s, 6) && i16_of_bits(w[3]) as int == be_i16_value(s, 6)); }
        if 4 < w.len() { assert(w[4] as int == be_u16_value(s, 8) && i16_of_bits(w[4]) as int == be_i16_value(s, 8)); }
        if 5 < w.len() { assert(w[5] as int == be_u16_value(s, 10) && i16_of_bits(w[5]) as int == be_i16_value(s, 10)); }
        if 6 < w.len() { assert(w[6] as int == be_u16_value(s, 12) && i16_of_bits(w[6]) as int == be_i16_value(s, 12)); }
        if 7 < w.len() { assert(w[7] as int == be_u16_value(s, 14) && i16_of_bits(w[7]) as int == be_i16_value(s, 14)); }
        if 8 < w.len() { assert(w[8] as int == be_u16_value(s, 16) && i16_of_bits(w[8]) as int == be_i16_value(s, 16)); }
        if 9 < w.len() { assert(w[9] as int == be_u16_value(s, 18) && i16_of_bits(w[9]) as int == be_i16_value(s, 18)); }
        if 10 < w.len() { assert(w[10] as int == be_u16_value(s, 20) && i16_of_bits(w[10]) as int == be_i16_value(s, 20)); }
        if 11 < w.len() { assert(w[11] as int == be_u16_value(s, 22) && i16_of_bits(w[11]) as int == be_i16_value(s, 22)); }
        if 12 < w.len() { assert(w[12] as int == be_u16_value(s, 24) && i16_of_bits(w[12]) as int == be_i16_value(s, 24)); }
        if 13 < w.len() { assert(w[13] as int == be_u16_value(s, 26) && i16_of_bits(w[13]) as int == be_i16_value(s, 26)); }
        if 14 < w.len() { assert(w[14] as int == be_u16_value(s, 28) && i16_of_bits(w[14]) as int == be_i16_value(s, 28)); }
        if 15 < w.len() { assert(w[15] as int == be_u16_value(s, 30) && i16_of_bits(w[15]) as int == be_i16_value(s, 30)); }
        if 16 < w.len() { assert(w[16] as int == be_u16_value(s, 32) && i16_of_bits(w[16]) as int == be_i16_value(s, 32)); }
        if 17 < w.len() { assert(w[17] as int == be_u16_value(s, 34) && i16_of_bits(w[17]) as int == be_i16_value(s, 34)); }
        if 18 < w.len() { assert(w[18] as int == be_u16_value(s, 36) && i16_of_bits(w[18]) as int == be_i16_value(s, 36)); }
        if 19 < w.len() { assert(w[19] as int == be_u16_value(s, 38) && i16_of_bits(w[19]) as int == be_i16_value(s, 38)); }
        if 20 < w.len() { assert(w[20] as int == be_u16_value(s, 40) && i16_of_bits(w[20]) as int == be_i16_value(s, 40)); }
        if 21 < w.len() { assert(w[21] as int == be_u16_value(s, 42) && i16_of_bits(w[21]) as int == be_i16_value(s, 42)); }
        if 22 < w.len() { assert(w[22] as int == be_u16_value(s, 44) && i16_of_bits(w[22]) as int == be_i16_value(s, 44)); }
        if 23 < w.len() { assert(w[23] as int == be_u16_value(s, 46) && i16_of_bits(w[23]) as int == be_i16_value(s, 46)); }
        if 24 < w.len() { assert(w[24] as int == be_u16_value(s, 48) && i16_of_bits(w[24]) as int == be_i16_value(s, 48)); }
        if 25 < w.len() { assert(w[25] as int == be_u16_value(s, 50) && i16_of_bits(w[25]) as int == be_i16_value(s, 50)); }
        if 26 < w.len() { assert(w[26] as int == be_u16_value(s, 52) && i16_of_bits(w[26]) as int == be_i16_value(s, 52)); }
        if 27 < w.len() { assert(w[27] as int == be_u16_value(s, 54) && i16_of_bits(w[27]) as int == be_i16_value(s, 54)); }
        if 28 < w.len() { assert(w[28] as int == be_u16_value(s, 56) && i16_of_bits(w[28]) as int == be_i16_value(s, 56)); }
        if 29 < w.len() { assert(w[29] as int == be_u16_value(s, 58) && i16_of_bits(w[29]) as int == be_i16_value(s, 58)); }
        if 30 < w.len() { assert(w[30] as int == be_u16_value(s, 60) && i16_of_bits(w[30]) as int == be_i16_value(s, 60)); }
        if 31 < w.len() { assert(w[31] as int == be_u16_value(s, 62) && i16_of_bits(w[31]) as int == be_i16_value(s, 62)); }
        if 32 < w.len() { assert(w[32] as int == be_u16_value(s, 64) && i16_of_bits(w[32]) as int == be_i16_value(s, 64)); }
        if 33 < w.len() { assert(w[33] as int == be_u16_value(s, 66) && i16_of_bits(w[33]) as int == be_i16_value(s, 66)); }
        if 34 < w.len() { assert(w[34] as int == be_u16_value(s, 68) && i16_of_bits(w[34]) as int == be_i16_value(s, 68)); }
        if 35 < w.len() { assert(w[35] as int == be_u16_value(s, 70) && i16_of_bits(w[35]) as int == be_i16_value(s, 70)); }
        if 36 < w.len() { assert(w[36] as int == be_u16_value(s, 72) && i16_of_bits(w[36]) as int == be_i16_value(s, 72)); }
        if 37 < w.len() { assert(w[37] as int == be_u16_value(s, 74) && i16_of_bits(w[37]) as int == be_i16_value(s, 74)); }
        if 38 < w.len() { assert(w[38] as int == be_u16_value(s, 76) && i16_of_bits(w[38]) as int == be_i16_value(s, 76)); }
        if 39 < w.len() { assert(w[39] as int == be_u16_value(s, 78) && i16_of_bits(w[39]) as int == be_i16_value(s, 78)); }
        if 40 < w.len() { assert(w[40] as int == be_u16_value(s, 80) && i16_of_bits(w[40]) as int == be_i16_value(s, 80)); }
        if 41 < w.len() { assert(w[41] as int == be_u16_value(s, 82) && i16_of_bits(w[41]) as int == be_i16_value(s, 82)); }
        if 42 < w.len() { assert(w[42] as int == be_u16_value(s, 84) && i16_of_bits(w[42]) as int == be_i16_value(s, 84)); }
        if 43 < w.len() { assert(w[43] as int == be_u16_value(s, 86) && i16_of_bits(w[43]) as int == be_i16_value(s, 86)); }
        if 44 < w.len() { assert(w[44] as int == be_u16_value(s, 88) && i16_of_bits(w[44]) as int == be_i16_value(s, 88)); }
        if 45 < w.len() { assert(w[45] as int == be_u16_value(s, 90) && i16_of_bits(w[45]) as int == be_i16_value(s, 90)); }
        if 46 < w.len() { assert(w[46] as int == be_u16_value(s, 92) && i16_of_bits(w[46]) as int == be_i16_value(s, 92)); }
        if 47 < w.len() { assert(w[47] as int == be_u16_value(s, 94) && i16_of_bits(w[47]) as int == be_i16_value(s, 94)); }
        if 48 < w.len() { assert(w[48] as int == be_u16_value(s, 96) && i16_of_bits(w[48]) as int == be_i16_value(s, 96)); }
        if 49 < w.len() { assert(w[49] as int == be_u16_value(s, 98) && i16_of_bits(w[49]) as int == be_i16_value(s, 98)); }
        assert(hi8(w[16]) == s[32] && lo8(w[16]) == s[33]);
        assert(hi8(w[17]) == s[34] && lo8(w[17]) == s[35]);
        assert(hi8(w[18]) == s[36] && lo8(w[18]) == s[37]);
        assert(hi8(w[19]) == s[38] && lo8(w[19]) == s[39]);
        assert(hi8(w[20]) == s[40] && lo8(w[20]) == s[41]);
        assert(hi8(w[29]) == s[58] && lo8(w[29]) == s[59]);
        assert(hi8(w[30]) == s[60] && lo8(w[30]) == s[61]);
    }
}

} // verus!

verus! {

/// Writing an 'OS/2' table puts its fields at their places in the OpenType layout (see
/// `os2_at_layout`); the table holds the words of its version.
#[verifier::spinoff_prover]
#[verifier::rlimit(100)]
pub proof fn law_os2_layout_write(t: Os2Table)
    ensures
        t.spec_pack().len() == 2 * word_count(t.version),
        os2_at_layout(t, t.spec_pack()),
{
    let w = t.words();
    let b = t.spec_pack();
    lemma_be16s_values(w);
    lemma_be16s(w);
    assert(w.len() == word_count(t.version));
    lemma_i16_bits(t.x_avg_char_width);
    lemma_i16_bits(t.y_subscript_x_size);
    lemma_i16_bits(t.y_subscript_y_size);
    lemma_i16_bits(t.y_subscript_x_offset);
    lemma_i16_bits(t.y_subscript_y_offset);
    lemma_i16_bits(t.y_superscript_x_size);
    lemma_i16_bits(t.y_superscript_y_size);
    lemma_i16_bits(t.y_superscript_x_offset);
    lemma_i16_bits(t.y_superscript_y_offset);
    lemma_i16_bits(t.y_strikeout_size);
    lemma_i16_bits(t.y_strikeout_position);
    lemma_i16_bits(t.s_family_class);
    lemma_i16_bits(t.s_typo_ascender);
    lemma_i16_bits(t.s_typo_descender);
    lemma_i16_bits(t.s_typo_line_gap);
    lemma_i16_bits(t.sx_height);
    lemma_i16_bits(t.s_cap_height);
    lemma_halves(t.ul_unicode_range[0]);
    lemma_halves(t.ul_unicode_range[1]);
    lemma_halves(t.ul_unicode_range[2]);
    lemma_halves(t.ul_unicode_range[3]);
    lemma_halves(t.ul_code_page_range[0]);
    lemma_halves(t.ul_code_page_range[1]);
    if 0 < w.len() { assert(be_u16_value(b, 0) == w[0] && be_i16_value(b, 0) == i16_of_bits(w[0])); }
    if 1 < w.len() { assert(be_u16_value(b, 2) == w[1] && be_i16_value(b, 2) == i16_of_bits(w[1])); }
    if 2 < w.len() { assert(be_u16_value(b, 4) == w[2] && be_i16_value(b, 4) == i16_of_bits(w[2])); }
    if 3 < w.len() { assert(be_u16_value(b, 6) == w[3] && be_i16_value(b, 6) == i16_of_bits(w[3])); }
    if 4 < w.len() { assert(be_u16_value(b, 8) == w[4] && be_i16_value(b, 8) == i16_of_bits(w[4])); }
    if 5 < w.len() { assert(be_u16_value(b, 10) == w[5] && be_i16_value(b, 10) == i16_of_bits(w[5])); }
    if 6 < w.len() { assert(be_u16_value(b, 12) == w[6] && be_i16_value(b, 12) == i16_of_bits(w[6])); }
    if 7 < w.len() { assert(be_u16_value(b, 14) == w[7] && be_i16_value(b, 14) == i16_of_bits(w[7])); }
    if 8 < w.len() { assert(be_u16_value(b, 16) == w[8] && be_i16_value(b, 16) == i16_of_bits(w[8])); }
    if 9 < w.len() { assert(be_u16_value(b, 18) == w[9] && be_i16_value(b, 18) == i16_of_bits(w[9])); }
    if 10 < w.len() { assert(be_u16_value(b, 20) == w[10] && be_i16_value(b, 20) == i16_of_bits(w[10])); }
    if 11 < w.len() { assert(be_u16_value(b, 22) == w[11] && be_i16_value(b, 22) == i16_of_bits(w[11])); }
    if 12 < w.len() { assert(be_u16_value(b, 24) == w[12] && be_i16_value(b, 24) == i16_of_bits(w[12])); }
    if 13 < w.len() { assert(be_u16_value(b, 26) == w[13] && be_i16_value(b, 26) == i16_of_bits(w[13])); }
    if 14 < w.len() { assert(be_u16_value(b, 28) == w[14] && be_i16_value(b, 28) == i16_of_bits(w[14])); }
    if 15 < w.len() { assert(be_u16_value(b, 30) == w[15] && be_i16_value(b, 30) == i16_of_bits(w[15])); }
    if 16 < w.len() { assert(be_u16_value(b, 32) == w[16] && be_i16_value(b, 32) == i16_of_bits(w[16])); }
    if 17 < w.len() { assert(be_u16_value(b, 34) == w[17] && be_i16_value(b, 34) == i16_of_bits(w[17])); }
    if 18 < w.len() { assert(be_u16_value(b, 36) == w[18] && be_i16_value(b, 36) == i16_of_bits(w[18])); }
    if 19 < w.len() { assert(be_u16_value(b, 38) == w[19] && be_i16_value(b, 38) == i16_of_bits(w[19])); }
    if 20 < w.len() { assert(be_u16_value(b, 40) == w[20] && be_i16_value(b, 40) == i16_of_bits(w[20])); }
    if 21 < w.len() { assert(be_u16_value(b, 42) == w[21] && be_i16_value(b, 42) == i16_of_bits(w[21])); }
    if 22 < w.len() { assert(be_u16_value(b, 44) == w[22] && be_i16_value(b, 44) == i16_of_bits(w[22])); }
    if 23 < w.len() { assert(be_u16_value(b, 46) == w[23] && be_i16_value(b, 46) == i16_of_bits(w[23])); }
    if 24 < w.len() { assert(be_u16_value(b, 48) == w[24] && be_i16_value(b, 48) == i16_of_bits(w[24])); }
    if 25 < w.len() { assert(be_u16_value(b, 50) == w[25] && be_i16_value(b, 50) == i16_of_bits(w[25])); }
    if 26 < w.len() { assert(be_u16_value(b, 52) == w[26] && be_i16_value(b, 52) == i16_of_bits(w[26])); }
    if 27 < w.len() { assert(be_u16_value(b, 54) == w[27] && be_i16_value(b, 54) == i16_of_bits(w[27])); }
    if 28 < w.len() { assert(be_u16_value(b, 56) == w[28] && be_i16_value(b, 56) == i16_of_bits(w[28])); }
    if 29 < w.len() { assert(be_u16_value(b, 58) == w[29] && be_i16_value(b, 58) == i16_of_bits(w[29])); }
    if 30 < w.len() { assert(be_u16_value(b, 60) == w[30] && be_i16_value(b, 60) == i16_of_bits(w[30])); }
    if 31 < w.len() { assert(be_u16_value(b, 62) == w[31] && be_i16_value(b, 62) == i16_of_bits(w[31])); }
    if 32 < w.len() { assert(be_u16_value(b, 64) == w[32] && be_i16_value(b, 64) == i16_of_bits(w[32])); }
    if 33 < w.len() { assert(be_u16_value(b, 66) == w[33] && be_i16_value(b, 66) == i16_of_bits(w[33])); }
    if 34 < w.len() { assert(be_u16_value(b, 68) == w[34] && be_i16_value(b, 68) == i16_of_bits(w[34])); }
    if 35 < w.len() { assert(be_u16_value(b, 70) == w[35] && be_i16_value(b, 70) == i16_of_bits(w[35])); }
    if 36 < w.len() { assert(be_u16_value(b, 72) == w[36] && be_i16_value(b, 72) == i16_of_bits(w[36])); }
    if 37 < w.len() { assert(be_u16_value(b, 74) == w[37] && be_i16_value(b, 74) == i16_of_bits(w[37])); }
    if 38 < w.len() { assert(be_u16_value(b, 76) == w[38] && be_i16_value(b, 76) == i16_of_bits(w[38])); }
    if 39 < w.len() { assert(be_u16_value(b, 78) == w[39] && be_i16_value(b, 78) == i16_of_bits(w[39])); }
    if 40 < w.len() { assert(be_u16_value(b, 80) == w[40] && be_i16_value(b, 80) == i16_of_bits(w[40])); }
    if 41 < w.len() { assert(be_u16_value(b, 82) == w[41] && be_i16_value(b, 82) == i16_of_bits(w[41])); }
    if 42 < w.len() { assert(be_u16_value(b, 84) == w[42] && be_i16_value(b, 84) == i16_of_bits(w[42])); }
    if 43 < w.len() { assert(be_u16_value(b, 86) == w[43] && be_i16_value(b, 86) == i16_of_bits(w[43])); }
    if 44 < w.len() { assert(be_u16_value(b, 88) == w[44] && be_i16_value(b, 88) == i16_of_bits(w[44])); }
    if 45 < w.len() { assert(be_u16_value(b, 90) == w[45] && be_i16_value(b, 90) == i16_of_bits(w[45])); }
    if 46 < w.len() { assert(be_u16_value(b, 92) == w[46] && be_i16_value(b, 92) == i16_of_bits(w[46])); }
    if 47 < w.len() { assert(be_u16_value(b, 94) == w[47] && be_i16_value(b, 94) == i16_of_bits(w[47])); }
    if 48 < w.len() { assert(be_u16_value(b, 96) == w[48] && be_i16_value(b, 96) == i16_of_bits(w[48])); }
    if 49 < w.len() { assert(be_u16_value(b, 98) == w[49] && be_i16_value(b, 98) == i16_of_bits(w[49])); }
    assert(b[32] == hi8(w[16]) && b[33] == lo8(w[16]));
    assert(b[34] == hi8(w[17]) && b[35] == lo8(w[17]));
    assert(b[36] == hi8(w[18]) && b[37] == lo8(w[18]));
    assert(b[38] == hi8(w[19]) && b[39] == lo8(w[19]));
    assert(b[40] == hi8(w[20]) && b[41] == lo8(w[20]));
    assert(b[58] == hi8(w[29]) && b[59] == lo8(w[29]));
    assert(b[60] == hi8(w[30]) && b[61] == lo8(w[30]));
}

} // verus!
