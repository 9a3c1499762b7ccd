//! The 'maxp' table: the memory requirements of the font.
use vstd::prelude::*;
use crate::big_endian::{
    be16, be16s, be32, be_u16_value, be_u32_value, get_u16, get_u16s, get_u32, lemma_be16s_values, lemma_get_u16, lemma_get_u16_value, lemma_get_u16s, lemma_get_u16s_values, lemma_get_u32,
    read_u16_at, read_u16s_at, read_u32_at, write_u16, write_u16s, write_u32,
};
use crate::otf::error::FontError;
use crate::otf::tables::Glyph;

verus! {

/// The version number of a CFF (version 0.5) table.
pub const CFF_VERSION: u32 = 0x00005000;

/// The version number of a TrueType (version 1.0) table.
pub const TRUE_TYPE_VERSION: u32 = 0x00010000;

/// The maximum profile table.
/// See https://docs.microsoft.com/en-us/typography/opentype/spec/maxp
#[derive(Debug, PartialEq, Eq, Clone, Copy, Structural)]
pub enum MaxpTable {
    /// Version 0.5
    CFF(CffMaxpTable),
    /// Version 1.0
    TrueType(TrueTypeMaxpTable),
}

#[derive(Debug, PartialEq, Eq, Clone, Copy, Structural)]
pub struct CffMaxpTable {
    /// The number of glyphs in the font.
    pub num_glyphs: u16,
}

#[derive(Debug, PartialEq, Eq, Clone, Copy, Structural)]
pub struct TrueTypeMaxpTable {
    /// The number of glyphs in the font.
    pub num_glyphs: u16,
    /// Maximum points in a non-composite glyph.
    pub max_points: u16,
    /// Maximum contours in a non-composite glyph.
    pub max_contours: u16,
    /// Maximum points in a composite glyph.
    pub max_component_points: u16,
    /// Maximum contours in a composite glyph.
    pub max_component_contours: u16,
    /// 1 if instructions do not use the twilight zone (Z0), or 2 if they do.
    pub max_zones: u16,
    /// Maximum points used in Z0.
    pub max_twilight_points: u16,
    /// Number of Storage Area locations.
    pub max_storage: u16,
    /// Number of FDEFs, equal to the highest function number + 1.
    pub max_function_defs: u16,
    /// Number of IDEFs.
    pub max_instruction_defs: u16,
    /// Maximum stack depth across the font program, the CVT program and all glyph instructions.
    pub max_stack_elements: u16,
    /// Maximum byte count for glyph instructions.
    pub max_size_of_instructions: u16,
    /// Maximum number of components referenced at the top level of any composite glyph.
    pub max_component_elements: u16,
    /// Maximum levels of recursion; 1 for simple components.
    pub max_component_depth: u16,
}

/// The number of glyphs a subset of `n` glyphs holds: glyph 0 is always added, and the count
/// saturates at `u16::MAX`.
pub open spec fn subset_glyph_count(n: int) -> u16 {
    if n + 1 > 0xFFFF { 0xFFFF } else { (n + 1) as u16 }
}

fn count_with_default_glyph(n: usize) -> (r: u16)
    ensures
        r == subset_glyph_count(n as int),
{
    if n >= 0xFFFF { 0xFFFF } else { (n + 1) as u16 }
}

impl TrueTypeMaxpTable {
    /// The table held by the 14 big-endian words `w` that follow the version.
    pub open spec fn from_words(w: Seq<u16>) -> TrueTypeMaxpTable {
        TrueTypeMaxpTable {
            num_glyphs: w[0],
            max_points: w[1],
            max_contours: w[2],
            max_component_points: w[3],
            max_component_contours: w[4],
            max_zones: w[5],
            max_twilight_points: w[6],
            max_storage: w[7],
            max_function_defs: w[8],
            max_instruction_defs: w[9],
            max_stack_elements: w[10],
            max_size_of_instructions: w[11],
            max_component_elements: w[12],
            max_component_depth: w[13],
        }
    }

    /// The 14 big-endian words that hold the table after its version.
    pub open spec fn words(self) -> Seq<u16> {
        seq![
            self.num_glyphs,
            self.max_points,
            self.max_contours,
            self.max_component_points,
            self.max_component_contours,
            self.max_zones,
            self.max_twilight_points,
            self.max_storage,
            self.max_function_defs,
            self.max_instruction_defs,
            self.max_stack_elements,
            self.max_size_of_instructions,
            self.max_component_elements,
            self.max_component_depth,
        ]
    }

    fn unpack_words(w: &Vec<u16>) -> (r: TrueTypeMaxpTable)
        requires
            w@.len() == 14,
        ensures
            r == Self::from_words(w@),
    {
        TrueTypeMaxpTable {
            num_glyphs: w[0],
            max_points: w[1],
            max_contours: w[2],
            max_component_points: w[3],
            max_component_contours: w[4],
            max_zones: w[5],
            max_twilight_points: w[6],
            max_storage: w[7],
            max_function_defs: w[8],
            max_instruction_defs: w[9],
            max_stack_elements: w[10],
            max_size_of_instructions: w[11],
            max_component_elements: w[12],
            max_component_depth: w[13],
        }
    }

    fn pack_words(&self, out: &mut Vec<u8>)
        ensures
            final(out)@ == old(out)@ + be16s(self.words()),
    {
        let w: Vec<u16> = vec![
            self.num_glyphs,
            self.max_points,
            self.max_contours,
            self.max_component_points,
            self.max_component_contours,
            self.max_zones,
            self.max_twilight_points,
            self.max_storage,
            self.max_function_defs,
            self.max_instruction_defs,
            self.max_stack_elements,
            self.max_size_of_instructions,
            self.max_component_elements,
            self.max_component_depth,
        ];
        assert(w@ =~= self.words());
        write_u16s(out, &w);
    }

    /// The table of a font subset to `glyphs`: only the number of glyphs changes.
    pub fn subset(&self, glyphs: &[Glyph]) -> (r: TrueTypeMaxpTable)
        ensures
            r == (TrueTypeMaxpTable { num_glyphs: subset_glyph_count(glyphs@.len() as int), ..*self }),
    {
        TrueTypeMaxpTable { num_glyphs: count_with_default_glyph(glyphs.len()), ..*self }
    }
}

impl CffMaxpTable {
    /// The table of a font subset to `glyphs`.
    pub fn subset(&self, glyphs: &[Glyph]) -> (r: CffMaxpTable)
        ensures
            r.num_glyphs == subset_glyph_count(glyphs@.len() as int),
    {
        CffMaxpTable { num_glyphs: count_with_default_glyph(glyphs.len()) }
    }
}

impl MaxpTable {
    /// The number of glyphs in the font.
    pub open spec fn spec_num_glyphs(self) -> u16 {
        match self {
            MaxpTable::CFF(t) => t.num_glyphs,
            MaxpTable::TrueType(t) => t.num_glyphs,
        }
    }

    /// The number of glyphs in the font.
    pub fn num_glyphs(&self) -> (r: u16)
        ensures
            r == self.spec_num_glyphs(),
    {
        match self {
            MaxpTable::CFF(t) => t.num_glyphs,
            MaxpTable::TrueType(t) => t.num_glyphs,
        }
    }

    /// What reading the table from the bytes `s` gives.
    pub open spec fn spec_unpack(s: Seq<u8>) -> Result<MaxpTable, FontError> {
        if s.len() < 4 {
            Err(FontError::UnexpectedEof)
        } else if get_u32(s, 0) == CFF_VERSION {
            if s.len() < 6 {
                Err(FontError::UnexpectedEof)
            } else {
                Ok(MaxpTable::CFF(CffMaxpTable { num_glyphs: get_u16(s, 4) }))
            }
        } else if get_u32(s, 0) == TRUE_TYPE_VERSION {
            if s.len() < 32 {
                Err(FontError::UnexpectedEof)
            } else {
                Ok(MaxpTable::TrueType(TrueTypeMaxpTable::from_words(get_u16s(s, 4, 14))))
            }
        } else {
            Err(FontError::InvalidMaxpVersion(get_u32(s, 0)))
        }
    }

    /// The bytes that `pack` writes.
    pub open spec fn spec_pack(self) -> Seq<u8> {
        match self {
            MaxpTable::CFF(t) => be32(CFF_VERSION) + be16(t.num_glyphs),
            MaxpTable::TrueType(t) => be32(TRUE_TYPE_VERSION) + be16s(t.words()),
        }
    }

    /// Reads the table from its bytes.
    pub fn unpack(data: &[u8]) -> (r: Result<MaxpTable, FontError>)
        ensures
            r == Self::spec_unpack(data@),
    {
        if data.len() < 4 {
            return Err(FontError::UnexpectedEof);
        }
        let version = read_u32_at(data, 0);
        if version == CFF_VERSION {
            if data.len() < 6 {
                return Err(FontError::UnexpectedEof);
            }
            Ok(MaxpTable::CFF(CffMaxpTable { num_glyphs: read_u16_at(data, 4) }))
        } else if version == TRUE_TYPE_VERSION {
            if data.len() < 32 {
                return Err(FontError::UnexpectedEof);
            }
            let w = read_u16s_at(data, 4, 14);
            Ok(MaxpTable::TrueType(TrueTypeMaxpTable::unpack_words(&w)))
        } else {
            Err(FontError::InvalidMaxpVersion(version))
        }
    }

    /// Appends the table to `out`.
    pub fn pack(&self, out: &mut Vec<u8>)
        ensures
            final(out)@ == old(out)@ + self.spec_pack(),
    {
        match self {
            MaxpTable::CFF(t) => {
                write_u32(out, CFF_VERSION);
                write_u16(out, t.num_glyphs);
                assert(final(out)@ =~= old(out)@ + self.spec_pack());
            },
            MaxpTable::TrueType(t) => {
                write_u32(out, TRUE_TYPE_VERSION);
                t.pack_words(out);
                assert(final(out)@ =~= old(out)@ + self.spec_pack());
            },
        }
    }

    /// The table of a font subset to `n` glyphs besides the default glyph 0.
    pub open spec fn spec_subset(self, n: int) -> MaxpTable {
        match self {
            MaxpTable::CFF(_) => MaxpTable::CFF(CffMaxpTable { num_glyphs: subset_glyph_count(n) }),
            MaxpTable::TrueType(t) => MaxpTable::TrueType(TrueTypeMaxpTable { num_glyphs: subset_glyph_count(n), ..t }),
        }
    }

    /// The table of a font subset to `glyphs`: only the number of glyphs changes, to the number
    /// of glyphs plus the default glyph 0.
    pub fn subset(&self, glyphs: &[Glyph]) -> (r: MaxpTable)
        ensures
            r == self.spec_subset(glyphs@.len() as int),
            r.spec_num_glyphs() == subset_glyph_count(glyphs@.len() as int),
    {
        match self {
            MaxpTable::CFF(t) => MaxpTable::CFF(t.subset(glyphs)),
            MaxpTable::TrueType(t) => MaxpTable::TrueType(t.subset(glyphs)),
        }
    }

    /// Reading back what `pack` wrote gives the same table.
    pub proof fn lemma_pack_unpack(self)
        ensures
            Self::spec_unpack(self.spec_pack()) == Ok::<MaxpTable, FontError>(self),
    {
        let s = self.spec_pack();
        match self {
            MaxpTable::CFF(t) => {
                assert(s.subrange(0, 4) =~= be32(CFF_VERSION));
                lemma_get_u32(s, 0, CFF_VERSION);
                assert(s.subrange(4, 6) =~= be16(t.num_glyphs));
                lemma_get_u16(s, 4, t.num_glyphs);
            },
            MaxpTable::TrueType(t) => {
                assert(s.subrange(0, 4) =~= be32(TRUE_TYPE_VERSION));
                lemma_get_u32(s, 0, TRUE_TYPE_VERSION);
                lemma_get_u16s(be32(TRUE_TYPE_VERSION), t.words(), Seq::empty());
                assert(be32(TRUE_TYPE_VERSION) + be16s(t.words()) + Seq::<u8>::empty() =~= s);
                crate::big_endian::lemma_be16s(t.words());
                assert(TrueTypeMaxpTable::from_words(t.words()) == t);
            },
        }
    }
}

} // verus!

verus! {

/// The fields of a TrueType 'maxp' table at their places in the OpenType layout of `s`, after
/// the 32-bit version: the number of glyphs at 4, then the other limits, one big-endian 16-bit
/// value each, at 6, 8, ..., 30.
pub open spec fn true_type_maxp_at_layout(t: TrueTypeMaxpTable, s: Seq<u8>) -> bool {
    &&& s.len() >= 32
    &&& t.num_glyphs == be_u16_value(s, 4)
    &&& t.max_points == be_u16_value(s, 6)
    &&& t.max_contours == be_u16_value(s, 8)
    &&& t.max_component_points == be_u16_value(s, 10)
    &&& t.max_component_contours == be_u16_value(s, 12)
    &&& t.max_zones == be_u16_value(s, 14)
    &&& t.max_twilight_points == be_u16_value(s, 16)
    &&& t.max_storage == be_u16_value(s, 18)
    &&& t.max_function_defs == be_u16_value(s, 20)
    &&& t.max_instruction_defs == be_u16_value(s, 22)
    &&& t.max_stack_elements == be_u16_value(s, 24)
    &&& t.max_size_of_instructions == be_u16_value(s, 26)
    &&& t.max_component_elements == be_u16_value(s, 28)
    &&& t.max_component_depth == be_u16_value(s, 30)
}

/// Reading a 'maxp' table: the version is the big-endian 32-bit value at 0; version 0x5000 (CFF)
/// holds the number of glyphs at 4, version 0x10000 (TrueType) its fields at their places (see
/// `true_type_maxp_at_layout`); another version is an error that names it.
pub proof fn law_maxp_layout_read(s: Seq<u8>)
    ensures
        s.len() >= 4 ==> get_u32(s, 0) == be_u32_value(s, 0),
        MaxpTable::spec_unpack(s) matches Ok(MaxpTable::CFF(t)) ==> be_u32_value(s, 0) == 0x5000 && s.len() >= 6
            && t.num_glyphs == be_u16_value(s, 4),
        MaxpTable::spec_unpack(s) matches Ok(MaxpTable::TrueType(t)) ==> be_u32_value(s, 0) == 0x10000
            && true_type_maxp_at_layout(t, s),
        s.len() >= 6 && be_u32_value(s, 0) == 0x5000 ==> MaxpTable::spec_unpack(s) is Ok,
        s.len() >= 32 && be_u32_value(s, 0) == 0x10000 ==> MaxpTable::spec_unpack(s) is Ok,
        s.len() >= 4 && be_u32_value(s, 0) != 0x5000 && be_u32_value(s, 0) != 0x10000 ==> MaxpTable::spec_unpack(s)
            == Err::<MaxpTable, FontError>(FontError::InvalidMaxpVersion(get_u32(s, 0))),
{
    if s.len() >= 4 {
        lemma_get_u16_value(s, 0);
        lemma_get_u16_value(s, 2);
        if s.len() >= 6 {
            lemma_get_u16_value(s, 4);
        }
        if s.len() >= 32 {
            lemma_get_u16s_values(s, 4, 14);
            let w = get_u16s(s, 4, 14);
            assert(w[0] as int == be_u16_value(s, 4));
            assert(w[1] as int == be_u16_value(s, 6));
            assert(w[2] as int == be_u16_value(s, 8));
            assert(w[3] as int == be_u16_value(s, 10));
            assert(w[4] as int == be_u16_value(s, 12));
            assert(w[5] as int == be_u16_value(s, 14));
            assert(w[6] as int == be_u16_value(s, 16));
            assert(w[7] as int == be_u16_value(s, 18));
            assert(w[8] as int == be_u16_value(s, 20));
            assert(w[9] as int == be_u16_value(s, 22));
            assert(w[10] as int == be_u16_value(s, 24));
            assert(w[11] as int == be_u16_value(s, 26));
            assert(w[12] as int == be_u16_value(s, 28));
            assert(w[13] as int == be_u16_value(s, 30));
        }
    }
}

/// Writing a 'maxp' table puts the version as a big-endian 32-bit value at 0 (0x5000 for CFF,
/// 0x10000 for TrueType), then the number of glyphs at 4, and for TrueType the other limits at
/// their places (see `true_type_maxp_at_layout`).
pub proof fn law_maxp_layout_write(t: MaxpTable)
    ensures
        match t {
            MaxpTable::CFF(c) => {
                let b = t.spec_pack();
                b.len() == 6 && be_u32_value(b, 0) == 0x5000 && be_u16_value(b, 4) == c.num_glyphs
            },
            MaxpTable::TrueType(m) => {
                let b = t.spec_pack();
                b.len() == 32 && be_u32_value(b, 0) == 0x10000 && true_type_maxp_at_layout(m, b)
            },
        },
{
    match t {
        MaxpTable::CFF(c) => {
            let b = t.spec_pack();
            assert(b =~= be32(CFF_VERSION) + be16(c.num_glyphs));
            assert(b.subrange(0, 4) =~= be32(CFF_VERSION));
            lemma_get_u32(b, 0, CFF_VERSION);
            assert(b.subrange(4, 6) =~= be16(c.num_glyphs));
            lemma_get_u16(b, 4, c.num_glyphs);
            lemma_get_u16_value(b, 0);
            lemma_get_u16_value(b, 2);
            lemma_get_u16_value(b, 4);
        },
        MaxpTable::TrueType(m) => {
            let b = t.spec_pack();
            let w = m.words();
            lemma_be16s_values(w);
            assert(b.subrange(0, 4) =~= be32(TRUE_TYPE_VERSION));
            lemma_get_u32(b, 0, TRUE_TYPE_VERSION);
            lemma_get_u16_value(b, 0);
            lemma_get_u16_value(b, 2);
            assert forall|k: int| 0 <= k < 14 implies be_u16_value(b, 4 + 2 * k) == #[trigger] w[k] by {
                assert(b[4 + 2 * k] == be16s(w)[2 * k]);
                assert(b[4 + 2 * k + 1] == be16s(w)[2 * k + 1]);
                assert(be_u16_value(be16s(w), 2 * k) == w[k]);
            }
            assert(be_u16_value(b, 4) == w[0]);
            assert(be_u16_value(b, 6) == w[1]);
            assert(be_u16_value(b, 8) == w[2]);
            assert(be_u16_value(b, 10) == w[3]);
            assert(be_u16_value(b, 12) == w[4]);
            assert(be_u16_value(b, 14) == w[5]);
            assert(be_u16_value(b, 16) == w[6]);
            assert(be_u16_value(b, 18) == w[7]);
            assert(be_u16_value(b, 20) == w[8]);
            assert(be_u16_value(b, 22) == w[9]);
            assert(be_u16_value(b, 24) == w[10]);
            assert(be_u16_value(b, 26) == w[11]);
            assert(be_u16_value(b, 28) == w[12]);
            assert(be_u16_value(b, 30) == w[13]);
        },
    }
}

} // verus!
