//! The 'head' table: global information about the font.
use vstd::prelude::*;
use crate::big_endian::{be16s, be_i16_value, be_i64_value, be_u16_value, be_u32_value, lemma_be16s_values, lemma_get_u16s_values, lemma_halves, lemma_halves64, get_u16s, hi16, hi32, i16_bits, i16_from_bits, i16_of_bits, i16_to_bits, i64_bits, i64_from_bits, i64_of_bits, i64_to_bits, join32, join_words64, lemma_get_u16s, lemma_i16_bits, lemma_i64_bits, lemma_join32, lemma_join64, lo16, lo32, make32, make64, read_u16s_at, split32, split64, write_u16s};
use crate::otf::error::FontError;
use crate::otf::tables::glyf::GlyphView;
use crate::otf::tables::glyf::table::{opt_glyph, GlyfTable};
use crate::otf::tables::hhea::{extreme_i16, max_i16, min_i16};
use crate::otf::tables::loca::{Format, LocaTable};

verus! {

/// The font header table.
/// See https://docs.microsoft.com/en-us/typography/opentype/spec/head
#[derive(Debug, Default, PartialEq, Clone, Copy)]
pub struct HeadTable {
    /// Major version number of the font header table — set to 1.
    pub major_version: u16,
    /// Minor version number of the font header table — set to 0.
    pub minor_version: u16,
    /// Set by font manufacturer.
    pub font_revision: (i16, u16),
    /// To compute: set it to 0, sum the entire font as uint32, then store 0xB1B0AFBA - sum.
    pub check_sum_adjustment: u32,
    /// Set to 0x5F0F3CF5.
    pub magic_number: u32,
    pub flags: u16,
    /// Set to a value from 16 to 16384.
    pub units_per_em: u16,
    /// Number of seconds since 12:00 midnight that started January 1st 1904 in GMT/UTC time zone.
    pub created: i64,
    /// Number of seconds since 12:00 midnight that started January 1st 1904 in GMT/UTC time zone.
    pub modified: i64,
    /// Min x of all glyph bounding boxes.
    pub x_min: i16,
    /// Min y of all glyph bounding boxes.
    pub y_min: i16,
    /// Max x of all glyph bounding boxes.
    pub x_max: i16,
    /// Max y of all glyph bounding boxes.
    pub y_max: i16,
    pub mac_style: u16,
    /// Smallest readable size in pixels.
    pub lowest_rec_ppem: u16,
    /// Deprecated (Set to 2).
    pub font_direction_hint: i16,
    /// 0 for short offsets (Offset16), 1 for long (Offset32).
    pub index_to_loc_format: i16,
    /// 0 for current format.
    pub glyph_data_format: i16,
}

impl HeadTable {
    /// The table held by the 27 big-endian 16-bit words `w`.
    pub open spec fn from_words(w: Seq<u16>) -> HeadTable {
        HeadTable {
            major_version: w[0],
            minor_version: w[1],
            font_revision: (i16_of_bits(w[2]), w[3]),
            check_sum_adjustment: join32(w[4], w[5]),
            magic_number: join32(w[6], w[7]),
            flags: w[8],
            units_per_em: w[9],
            created: i64_of_bits(join_words64(w, 10)),
            modified: i64_of_bits(join_words64(w, 14)),
            x_min: i16_of_bits(w[18]),
            y_min: i16_of_bits(w[19]),
            x_max: i16_of_bits(w[20]),
            y_max: i16_of_bits(w[21]),
            mac_style: w[22],
            lowest_rec_ppem: w[23],
            font_direction_hint: i16_of_bits(w[24]),
            index_to_loc_format: i16_of_bits(w[25]),
            glyph_data_format: i16_of_bits(w[26]),
        }
    }

    /// The 27 big-endian 16-bit words that hold the table, in the order of the format.
    pub open spec fn words(self) -> Seq<u16> {
        let c = i64_bits(self.created);
        let m = i64_bits(self.modified);
        seq![
            self.major_version,
            self.minor_version,
            i16_bits(self.font_revision.0),
            self.font_revision.1,
            hi16(self.check_sum_adjustment),
            lo16(self.check_sum_adjustment),
            hi16(self.magic_number),
            lo16(self.magic_number),
            self.flags,
            self.units_per_em,
            hi16(hi32(c)),
            lo16(hi32(c)),
            hi16(lo32(c)),
            lo16(lo32(c)),
            hi16(hi32(m)),
            lo16(hi32(m)),
            hi16(lo32(m)),
            lo16(lo32(m)),
            i16_bits(self.x_min),
            i16_bits(self.y_min),
            i16_bits(self.x_max),
            i16_bits(self.y_max),
            self.mac_style,
            self.lowest_rec_ppem,
            i16_bits(self.font_direction_hint),
            i16_bits(self.index_to_loc_format),
            i16_bits(self.glyph_data_format),
        ]
    }

    /// The table that the bytes `s` hold, or `None` where they end too early.
    pub open spec fn spec_unpack(s: Seq<u8>) -> Option<HeadTable> {
        if s.len() < 54 {
            None
        } else {
            Some(Self::from_words(get_u16s(s, 0, 27)))
        }
    }

    /// The bytes that `pack` writes.
    pub open spec fn spec_pack(self) -> Seq<u8> {
        be16s(self.words())
    }

    /// Reads the table from its bytes.
    pub fn unpack(data: &[u8]) -> (r: Result<HeadTable, FontError>)
        ensures
            match r {
                Ok(t) => Self::spec_unpack(data@) == Some(t),
                Err(e) => Self::spec_unpack(data@) is None && e == FontError::UnexpectedEof,
            },
    {
        if data.len() < 54 {
            return Err(FontError::UnexpectedEof);
        }
        let w = read_u16s_at(data, 0, 27);
        let created = i64_from_bits(make64(make32(w[10], w[11]), make32(w[12], w[13])));
        let modified = i64_from_bits(make64(make32(w[14], w[15]), make32(w[16], w[17])));
        let t = HeadTable {
            major_version: w[0],
            minor_version: w[1],
            font_revision: (i16_from_bits(w[2]), w[3]),
            check_sum_adjustment: make32(w[4], w[5]),
            magic_number: make32(w[6], w[7]),
            flags: w[8],
            units_per_em: w[9],
            created,
            modified,
            x_min: i16_from_bits(w[18]),
            y_min: i16_from_bits(w[19]),
            x_max: i16_from_bits(w[20]),
            y_max: i16_from_bits(w[21]),
            mac_style: w[22],
            lowest_rec_ppem: w[23],
            font_direction_hint: i16_from_bits(w[24]),
            index_to_loc_format: i16_from_bits(w[25]),
            glyph_data_format: i16_from_bits(w[26]),
        };
        assert(t == Self::from_words(w@));
        Ok(t)
    }

    /// Appends the table to `out`.
    pub fn pack(&self, out: &mut Vec<u8>)
        ensures
            final(out)@ == old(out)@ + self.spec_pack(),
    {
        let rev = i16_to_bits(self.font_revision.0);
        let (ch, cl) = split32(self.check_sum_adjustment);
        let (mh, ml) = split32(self.magic_number);
        let (c_hi, c_lo) = split64(i64_to_bits(self.created));
        let (c0, c1) = split32(c_hi);
        let (c2, c3) = split32(c_lo);
        let (m_hi, m_lo) = split64(i64_to_bits(self.modified));
        let (m0, m1) = split32(m_hi);
        let (m2, m3) = split32(m_lo);
        let w: Vec<u16> = vec![
            self.major_version,
            self.minor_version,
            rev,
            self.font_revision.1,
            ch,
            cl,
            mh,
            ml,
            self.flags,
            self.units_per_em,
            c0,
            c1,
            c2,
            c3,
            m0,
            m1,
            m2,
            m3,
            i16_to_bits(self.x_min),
            i16_to_bits(self.y_min),
            i16_to_bits(self.x_max),
            i16_to_bits(self.y_max),
            self.mac_style,
            self.lowest_rec_ppem,
            i16_to_bits(self.font_direction_hint),
            i16_to_bits(self.index_to_loc_format),
            i16_to_bits(self.glyph_data_format),
        ];
        assert(w@ =~= self.words());
        write_u16s(out, &w);
    }

    /// Reading back what `pack` wrote gives the same table.
    pub proof fn lemma_pack_unpack(self)
        ensures
            Self::spec_unpack(self.spec_pack()) == Some(self),
    {
        let w = self.words();
        lemma_get_u16s(Seq::empty(), w, Seq::empty());
        assert(Seq::<u8>::empty() + be16s(w) + Seq::<u8>::empty() =~= be16s(w));
        crate::big_endian::lemma_be16s(w);
        let c = i64_bits(self.created);
        let m = i64_bits(self.modified);
        lemma_join32(self.check_sum_adjustment);
        lemma_join32(self.magic_number);
        lemma_join32(hi32(c));
        lemma_join32(lo32(c));
        lemma_join64(c);
        lemma_join32(hi32(m));
        lemma_join32(lo32(m));
        lemma_join64(m);
        lemma_i64_bits(self.created);
        lemma_i64_bits(self.modified);
        lemma_i16_bits(self.font_revision.0);
        lemma_i16_bits(self.x_min);
        lemma_i16_bits(self.y_min);
        lemma_i16_bits(self.x_max);
        lemma_i16_bits(self.y_max);
        lemma_i16_bits(self.font_direction_hint);
        lemma_i16_bits(self.index_to_loc_format);
        lemma_i16_bits(self.glyph_data_format);
        assert(Self::from_words(w) == self);
    }
}

/// The bounding box coordinates `which` (0: x min, 1: y min, 2: x max, 3: y max) of the glyphs
/// with an outline, in order.
pub open spec fn bbox_values(gs: Seq<Option<GlyphView>>, which: int) -> Seq<i16>
    decreases gs.len(),
{
    if gs.len() == 0 {
        Seq::empty()
    } else {
        let rest = bbox_values(gs.drop_last(), which);
        match gs.last() {
            Some(g) => rest.push(
                if which == 0 {
                    g.x_min
                } else if which == 1 {
                    g.y_min
                } else if which == 2 {
                    g.x_max
                } else {
                    g.y_max
                },
            ),
            None => rest,
        }
    }
}

impl HeadTable {
    /// The table of a font whose glyphs are those of `glyf` and whose offsets are `loca`: the
    /// bounding box of all glyphs with an outline (0 where there is none), and the offset
    /// format of `loca`.
    pub fn subset(&self, glyf: &GlyfTable, loca: &LocaTable) -> (r: HeadTable)
        ensures
            r == (HeadTable {
                x_min: min_i16(bbox_values(glyf@, 0)),
                y_min: min_i16(bbox_values(glyf@, 1)),
                x_max: max_i16(bbox_values(glyf@, 2)),
                y_max: max_i16(bbox_values(glyf@, 3)),
                index_to_loc_format: if loca.format == Format::Short { 0 } else { 1 },
                ..*self
            }),
    {
        let mut x_min: Vec<i16> = Vec::new();
        let mut y_min: Vec<i16> = Vec::new();
        let mut x_max: Vec<i16> = Vec::new();
        let mut y_max: Vec<i16> = Vec::new();
        let mut k: usize = 0;
        while k < glyf.glyphs.len()
            invariant
                k <= glyf.glyphs@.len(),
                glyf@.len() == glyf.glyphs@.len(),
                x_min@ == bbox_values(glyf@.take(k as int), 0),
                y_min@ == bbox_values(glyf@.take(k as int), 1),
                x_max@ == bbox_values(glyf@.take(k as int), 2),
                y_max@ == bbox_values(glyf@.take(k as int), 3),
            decreases glyf.glyphs@.len() - k,
        {
            assert(glyf@.take(k + 1).drop_last() =~= glyf@.take(k as int));
            assert(glyf@.take(k + 1).last() == opt_glyph(glyf.glyphs@[k as int]));
            match &glyf.glyphs[k] {
                Some(g) => {
                    x_min.push(g.x_min);
                    y_min.push(g.y_min);
                    x_max.push(g.x_max);
                    y_max.push(g.y_max);
                },
                None => {},
            }
            k = k + 1;
        }
        assert(glyf@.take(k as int) =~= glyf@);
        HeadTable {
            x_min: extreme_i16(&x_min, false),
            y_min: extreme_i16(&y_min, false),
            x_max: extreme_i16(&x_max, true),
            y_max: extreme_i16(&y_max, true),
            index_to_loc_format: match loca.format {
                Format::Short => 0,
                Format::Long => 1,
            },
            ..*self
        }
    }
}

/// The head table packs to 54 bytes.
pub proof fn lemma_head_pack_len(t: HeadTable)
    ensures
        t.spec_pack().len() == 54,
{
    crate::big_endian::lemma_be16s(t.words());
}

} // verus!

verus! {

/// The fields of a 'head' table at their places in the OpenType layout of the bytes `s`: the
/// version at 0 and 2, the font revision at 4 (integer part) and 6 (fraction), the check sum
/// adjustment at 8 and the magic number at 12 (32 bits), the flags at 16, the units per em at
/// 18, the created and modified dates at 20 and 28 (64 bits), the bounding box at 36, 38, 40
/// and 42, the Mac style at 44, the smallest readable size at 46, the direction hint at 48,
/// the loca format at 50 and the glyph data format at 52; all big-endian.
pub open spec fn head_at_layout(t: HeadTable, s: Seq<u8>) -> bool {
    &&& s.len() >= 54
    &&& t.major_version == be_u16_value(s, 0)
    &&& t.minor_version == be_u16_value(s, 2)
    &&& t.font_revision.0 == be_i16_value(s, 4)
    &&& t.font_revision.1 == be_u16_value(s, 6)
    &&& t.check_sum_adjustment == be_u32_value(s, 8)
    &&& t.magic_number == be_u32_value(s, 12)
    &&& t.flags == be_u16_value(s, 16)
    &&& t.units_per_em == be_u16_value(s, 18)
    &&& t.created == be_i64_value(s, 20)
    &&& t.modified == be_i64_value(s, 28)
    &&& t.x_min == be_i16_value(s, 36)
    &&& t.y_min == be_i16_value(s, 38)
    &&& t.x_max == be_i16_value(s, 40)
    &&& t.y_max == be_i16_value(s, 42)
    &&& t.mac_style == be_u16_value(s, 44)
    &&& t.lowest_rec_ppem == be_u16_value(s, 46)
    &&& t.font_direction_hint == be_i16_value(s, 48)
    &&& t.index_to_loc_format == be_i16_value(s, 50)
    &&& t.glyph_data_format == be_i16_value(s, 52)
}

/// Reading a 'head' table takes each field from its place in the OpenType layout (see
/// `head_at_layout`); it fails where the bytes end before 54.
pub proof fn law_head_layout_read(s: Seq<u8>)
    ensures
        HeadTable::spec_unpack(s) is Some <==> s.len() >= 54,
        HeadTable::spec_unpack(s) matches Some(t) ==> head_at_layout(t, s),
{
    if s.len() >= 54 {
        lemma_get_u16s_values(s, 0, 27);
        let w = get_u16s(s, 0, 27);
        let t = HeadTable::spec_unpack(s)->Some_0;
        assert(w[0] as int == be_u16_value(s, 0));
        assert(w[1] as int == be_u16_value(s, 2));
        assert(i16_of_bits(w[2]) as int == be_i16_value(s, 4));
        assert(w[3] as int == be_u16_value(s, 6));
        assert(w[4] as int == be_u16_value(s, 8));
        assert(w[5] as int == be_u16_value(s, 10));
        assert(w[6] as int == be_u16_value(s, 12));
        assert(w[7] as int == be_u16_value(s, 14));
        assert(w[8] as int == be_u16_value(s, 16));
        assert(w[9] as int == be_u16_value(s, 18));
        assert(w[10] as int == be_u16_value(s, 20));
        assert(w[11] as int == be_u16_value(s, 22));
        assert(w[12] as int == be_u16_value(s, 24));
        assert(w[13] as int == be_u16_value(s, 26));
        assert(w[14] as int == be_u16_value(s, 28));
        assert(w[15] as int == be_u16_value(s, 30));
        assert(w[16] as int == be_u16_value(s, 32));
        assert(w[17] as int == be_u16_value(s, 34));
        assert(i16_of_bits(w[18]) as int == be_i16_value(s, 36));
        assert(i16_of_bits(w[19]) as int == be_i16_value(s, 38));
        assert(i16_of_bits(w[20]) as int == be_i16_value(s, 40));
        assert(i16_of_bits(w[21]) as int == be_i16_value(s, 42));
        assert(w[22] as int == be_u16_value(s, 44));
        assert(w[23] as int == be_u16_value(s, 46));
        assert(i16_of_bits(w[24]) as int == be_i16_value(s, 48));
        assert(i16_of_bits(w[25]) as int == be_i16_value(s, 50));
        assert(i16_of_bits(w[26]) as int == be_i16_value(s, 52));
        assert(s[20] >= 128 <==> w[10] >= 0x8000);
        assert(s[28] >= 128 <==> w[14] >= 0x8000);
        assert(head_at_layout(t, s));
    }
}

/// Writing a 'head' table puts each field at its place in the OpenType layout (see
/// `head_at_layout`); the table is 54 bytes long.
pub proof fn law_head_layout_write(t: HeadTable)
    ensures
        t.spec_pack().len() == 54,
        head_at_layout(t, t.spec_pack()),
{
    let w = t.words();
    let b = t.spec_pack();
    lemma_be16s_values(w);
    lemma_i16_bits(t.font_revision.0);
    lemma_i16_bits(t.x_min);
    lemma_i16_bits(t.y_min);
    lemma_i16_bits(t.x_max);
    lemma_i16_bits(t.y_max);
    lemma_i16_bits(t.font_direction_hint);
    lemma_i16_bits(t.index_to_loc_format);
    lemma_i16_bits(t.glyph_data_format);
    lemma_halves(t.check_sum_adjustment);
    lemma_halves(t.magic_number);
    let c = i64_bits(t.created);
    let m = i64_bits(t.modified);
    lemma_halves64(c);
    lemma_halves64(m);
    lemma_halves(hi32(c));
    lemma_halves(lo32(c));
    lemma_halves(hi32(m));
    lemma_halves(lo32(m));
    assert(be_u16_value(b, 0) == w[0]);
    assert(be_u16_value(b, 2) == w[1]);
    assert(be_i16_value(b, 4) == i16_of_bits(w[2]));
    assert(be_u16_value(b, 6) == w[3]);
    assert(be_u16_value(b, 8) == w[4]);
    assert(be_u16_value(b, 10) == w[5]);
    assert(be_u16_value(b, 12) == w[6]);
    assert(be_u16_value(b, 14) == w[7]);
    assert(be_u16_value(b, 16) == w[8]);
    assert(be_u16_value(b, 18) == w[9]);
    assert(be_u16_value(b, 20) == w[10]);
    assert(be_u16_value(b, 22) == w[11]);
    assert(be_u16_value(b, 24) == w[12]);
    assert(be_u16_value(b, 26) == w[13]);
    assert(be_u16_value(b, 28) == w[14]);
    assert(be_u16_value(b, 30) == w[15]);
    assert(be_u16_value(b, 32) == w[16]);
    assert(be_u16_value(b, 34) == w[17]);
    assert(be_i16_value(b, 36) == i16_of_bits(w[18]));
    assert(be_i16_value(b, 38) == i16_of_bits(w[19]));
    assert(be_i16_value(b, 40) == i16_of_bits(w[20]));
    assert(be_i16_value(b, 42) == i16_of_bits(w[21]));
    assert(be_u16_value(b, 44) == w[22]);
    assert(be_u16_value(b, 46) == w[23]);
    assert(be_i16_value(b, 48) == i16_of_bits(w[24]));
    assert(be_i16_value(b, 50) == i16_of_bits(w[25]));
    assert(be_i16_value(b, 52) == i16_of_bits(w[26]));
    assert(b[20] >= 128 <==> w[10] >= 0x8000);
    assert(b[28] >= 128 <==> w[14] >= 0x8000);
    assert(be_u32_value(b, 20) == hi32(c));
    assert(be_u32_value(b, 24) == lo32(c));
    assert(be_u32_value(b, 28) == hi32(m));
    assert(be_u32_value(b, 32) == lo32(m));
}

} // verus!
