//! An OpenType font with TrueType outlines: reading it from its bytes, querying it, and
//! subsetting it.
use vstd::prelude::*;
use crate::big_endian::copy_range;
use crate::otf::error::FontError;
use crate::otf::tables::cmap::{CmapTable, CmapView};
use crate::otf::tables::glyf::GlyphView;
use crate::otf::tables::glyf::table::{glyf_unpack, GlyfTable};
use crate::otf::tables::head::HeadTable;
use crate::otf::tables::hhea::HheaTable;
use crate::otf::tables::hmtx::{HmtxTable, LongHorMetric};
use crate::otf::tables::loca::{format_of, offsets_at, Format, LocaTable};
use crate::otf::tables::maxp::MaxpTable;
use crate::otf::tables::name::{
    name_in_bounds, spec_name, table_words, unpack_outcome, NameTable, FONT_FAMILY_NAME_ID,
    POST_SCRIPT_NAME_ID,
};
use crate::otf::tables::offset::{find_tag, font_words, lemma_find_tag, OffsetTable, SfntVersion};
use crate::otf::tables::os2::{word_count, Os2Table};
use crate::otf::tables::post::PostTable;
use crate::big_endian::{get_u16, get_u16s};
use crate::otf::tables::Glyph;

use crate::otf::tables::glyf::table::{indices_of, is_expansion, law_expansion, subset_glyph};
use crate::otf::tables::head::bbox_values;
use crate::otf::tables::hhea::{side_terms_fit, side_term};
use crate::otf::tables::hmtx::{glyph_indices, subset_metrics, subset_bearings};
use crate::otf::tables::loca::{glyph_offsets, lemma_glyph_offsets_len, total_size};
use crate::otf::tables::maxp::subset_glyph_count;

verus! {

/// The tables that a font is read from and written with.
#[derive(Debug, PartialEq, Eq, Clone, Copy, Structural)]
pub enum TableTag {
    Head,
    Hhea,
    Maxp,
    Loca,
    Os2,
    Cmap,
    Glyf,
    Hmtx,
    Name,
    Post,
}

impl TableTag {
    /// The four bytes of the tag.
    pub open spec fn spec_bytes(self) -> Seq<u8> {
        match self {
            TableTag::Head => seq![0x68u8, 0x65, 0x61, 0x64],
            TableTag::Hhea => seq![0x68u8, 0x68, 0x65, 0x61],
            TableTag::Maxp => seq![0x6Du8, 0x61, 0x78, 0x70],
            TableTag::Loca => seq![0x6Cu8, 0x6F, 0x63, 0x61],
            TableTag::Os2 => seq![0x4Fu8, 0x53, 0x2F, 0x32],
            TableTag::Cmap => seq![0x63u8, 0x6D, 0x61, 0x70],
            TableTag::Glyf => seq![0x67u8, 0x6C, 0x79, 0x66],
            TableTag::Hmtx => seq![0x68u8, 0x6D, 0x74, 0x78],
            TableTag::Name => seq![0x6Eu8, 0x61, 0x6D, 0x65],
            TableTag::Post => seq![0x70u8, 0x6F, 0x73, 0x74],
        }
    }

    /// The four bytes of the tag.
    pub fn bytes(&self) -> (r: [u8; 4])
        ensures
            r@ == self.spec_bytes(),
    {
        let r = match self {
            TableTag::Head => [0x68u8, 0x65, 0x61, 0x64],
            TableTag::Hhea => [0x68u8, 0x68, 0x65, 0x61],
            TableTag::Maxp => [0x6Du8, 0x61, 0x78, 0x70],
            TableTag::Loca => [0x6Cu8, 0x6F, 0x63, 0x61],
            TableTag::Os2 => [0x4Fu8, 0x53, 0x2F, 0x32],
            TableTag::Cmap => [0x63u8, 0x6D, 0x61, 0x70],
            TableTag::Glyf => [0x67u8, 0x6C, 0x79, 0x66],
            TableTag::Hmtx => [0x68u8, 0x6D, 0x74, 0x78],
            TableTag::Name => [0x6Eu8, 0x61, 0x6D, 0x65],
            TableTag::Post => [0x70u8, 0x6F, 0x73, 0x74],
        };
        assert(r@ =~= self.spec_bytes());
        r
    }
}

/// A font with the tables this library reads and writes; other tables are dropped.
#[derive(Debug, PartialEq, Clone)]
pub struct OpenTypeFont {
    pub sfnt_version: SfntVersion,
    pub os2_table: Os2Table,
    pub cmap_table: CmapTable,
    pub glyf_table: GlyfTable,
    pub head_table: HeadTable,
    pub hhea_table: HheaTable,
    pub hmtx_table: HmtxTable,
    pub loca_table: LocaTable,
    pub maxp_table: MaxpTable,
    pub name_table: NameTable,
    pub post_table: PostTable,
}

/// Looking up the table `tag` of the font `data` in the directory `ot`: `None` where its record
/// starts beyond the data, which makes the reader panic; `Some(None)` where no record has the
/// tag; else the table's bytes, as far as the data holds them (reading past them is then an
/// unexpected end).
pub open spec fn table_of(data: Seq<u8>, ot: OffsetTable, tag: TableTag) -> Option<Option<Seq<u8>>> {
    match find_tag(ot.tables@, tag.spec_bytes(), 0) {
        None => Some(None),
        Some(k) => {
            let r = ot.tables@[k];
            if r.offset <= data.len() {
                let end = if r.offset + r.length <= data.len() { r.offset + r.length } else { data.len() as int };
                Some(Some(data.subrange(r.offset as int, end)))
            } else {
                None
            }
        },
    }
}

/// The error for a missing table.
pub open spec fn missing(tag: TableTag) -> FontError {
    FontError::TableMissing(choose|a: [u8; 4]| a@ == tag.spec_bytes())
}

/// The number of bytes of `n` entries of the 'loca' table in the given format.
pub open spec fn loca_len(n: int, format: Format) -> int {
    if format == Format::Short { 2 * n } else { 4 * n }
}

/// What reading the tables of the font `data` with the directory `ot` gives: for a font with CFF
/// outlines the error that they are not read; else success, the error of the first table that
/// fails, in the order head, hhea, maxp, loca, OS/2, cmap, glyf, hmtx, name, post; or `None`
/// where the reader panics.
pub open spec fn tables_outcome(data: Seq<u8>, ot: OffsetTable) -> Option<Result<(), FontError>> {
    if ot.sfnt_version == SfntVersion::CFF {
        Some(Err(FontError::CffNotSupported))
    } else {
        read_outcome(data, ot)
    }
}

/// What reading the tables of a TrueType font gives (see `tables_outcome`).
pub open spec fn read_outcome(data: Seq<u8>, ot: OffsetTable) -> Option<Result<(), FontError>> {
    match table_of(data, ot, TableTag::Head) {
        None => None,
        Some(None) => Some(Err(missing(TableTag::Head))),
        Some(Some(hb)) => match HeadTable::spec_unpack(hb) {
            None => Some(Err(FontError::UnexpectedEof)),
            Some(head) => match table_of(data, ot, TableTag::Hhea) {
                None => None,
                Some(None) => Some(Err(missing(TableTag::Hhea))),
                Some(Some(ab)) => match HheaTable::spec_unpack(ab) {
                    None => Some(Err(FontError::UnexpectedEof)),
                    Some(hhea) => match table_of(data, ot, TableTag::Maxp) {
                        None => None,
                        Some(None) => Some(Err(missing(TableTag::Maxp))),
                        Some(Some(mb)) => match MaxpTable::spec_unpack(mb) {
                            Err(e) => Some(Err(e)),
                            Ok(maxp) => tables_outcome_rest(data, ot, head, hhea, maxp),
                        },
                    },
                },
            },
        },
    }
}

/// The rest of `tables_outcome`, after head, hhea and maxp.
pub open spec fn tables_outcome_rest(
    data: Seq<u8>,
    ot: OffsetTable,
    head: HeadTable,
    hhea: HheaTable,
    maxp: MaxpTable,
) -> Option<Result<(), FontError>> {
    let n = maxp.spec_num_glyphs() + 1;
    let format = format_of(head.index_to_loc_format);
    match table_of(data, ot, TableTag::Loca) {
        None => None,
        Some(None) => Some(Err(missing(TableTag::Loca))),
        Some(Some(lb)) => if lb.len() < loca_len(n, format) {
            Some(Err(FontError::UnexpectedEof))
        } else {
            let offsets = offsets_at(lb, n as nat, format);
            match table_of(data, ot, TableTag::Os2) {
                None => None,
                Some(None) => Some(Err(missing(TableTag::Os2))),
                Some(Some(ob)) => if !Os2Table::holds_table(ob) {
                    Some(Err(FontError::UnexpectedEof))
                } else {
                    match table_of(data, ot, TableTag::Cmap) {
                        None => None,
                        Some(None) => Some(Err(missing(TableTag::Cmap))),
                        Some(Some(cb)) => match CmapTable::spec_unpack(cb) {
                            None => None,
                            Some(Err(e)) => Some(Err(e)),
                            Some(Ok(_)) => match table_of(data, ot, TableTag::Glyf) {
                                None => None,
                                Some(None) => Some(Err(missing(TableTag::Glyf))),
                                Some(Some(gb)) => match glyf_unpack(gb, offsets) {
                                    None => None,
                                    Some(Err(e)) => Some(Err(e)),
                                    Some(Ok(_)) => tables_outcome_last(data, ot, hhea, maxp),
                                },
                            },
                        },
                    }
                },
            }
        },
    }
}

/// The rest of `tables_outcome`, after glyf.
pub open spec fn tables_outcome_last(data: Seq<u8>, ot: OffsetTable, hhea: HheaTable, maxp: MaxpTable) -> Option<
    Result<(), FontError>,
> {
    match table_of(data, ot, TableTag::Hmtx) {
        None => None,
        Some(None) => Some(Err(missing(TableTag::Hmtx))),
        Some(Some(xb)) => match HmtxTable::spec_unpack(xb, hhea.number_of_h_metrics, maxp.spec_num_glyphs()) {
            Err(e) => Some(Err(e)),
            Ok(_) => match table_of(data, ot, TableTag::Name) {
                None => None,
                Some(None) => Some(Err(missing(TableTag::Name))),
                Some(Some(nb)) => match unpack_outcome(table_words(nb)) {
                    Err(e) => Some(Err(e)),
                    Ok(_) => match table_of(data, ot, TableTag::Post) {
                        None => None,
                        Some(None) => Some(Err(missing(TableTag::Post))),
                        Some(Some(pb)) => if pb.len() < 32 {
                            Some(Err(FontError::UnexpectedEof))
                        } else {
                            Some(Ok(()))
                        },
                    },
                },
            },
        },
    }
}

/// The bytes of the table `tag`, where the directory has it within the data.
pub open spec fn bytes_of(data: Seq<u8>, ot: OffsetTable, tag: TableTag) -> Seq<u8> {
    table_of(data, ot, tag)->0->0
}

/// Reading the font `data` does not panic: where its directory reads, its tables read
/// without panicking.
pub open spec fn slice_defined(data: Seq<u8>) -> bool {
    match OffsetTable::unpack_outcome(data) {
        Err(_) => true,
        Ok(n) => forall|ot: OffsetTable| #[trigger] ot.matches_words(font_words(data, n)) ==> tables_outcome(data, ot) is Some,
    }
}

/// What reading the font `data` gives: success, or the error.
pub open spec fn slice_outcome(data: Seq<u8>, ot: OffsetTable) -> Result<(), FontError> {
    match OffsetTable::unpack_outcome(data) {
        Err(e) => Err(e),
        Ok(n) => tables_outcome(data, ot)->0,
    }
}

/// Looks up the bytes of a table as `table_bytes` does, or gives `None` where its record
/// starts past the data.
fn try_table_bytes(data: &[u8], ot: &OffsetTable, tag: TableTag) -> (r: Option<Result<Vec<u8>, FontError>>)
    ensures
        match table_of(data@, *ot, tag) {
            None => r is None,
            Some(Some(b)) => r matches Some(Ok(v)) && v@ == b,
            Some(None) => r == Some(Err::<Vec<u8>, FontError>(missing(tag))),
        },
{
    let t = tag.bytes();
    match ot.get_table_record(t.as_slice()) {
        Some(record) => {
            proof {
                lemma_find_tag(ot.tables@, tag.spec_bytes(), 0);
            }
            if record.offset as u64 > data.len() as u64 {
                return None;
            }
        },
        None => {},
    }
    Some(table_bytes(data, ot, tag))
}

/// Looks up the bytes of a table; fails where the directory lacks it.
fn table_bytes(data: &[u8], ot: &OffsetTable, tag: TableTag) -> (r: Result<Vec<u8>, FontError>)
    requires
        table_of(data@, *ot, tag) is Some,
    ensures
        match table_of(data@, *ot, tag) {
            Some(Some(b)) => r is Ok && r->Ok_0@ == b,
            Some(None) => r == Err::<Vec<u8>, FontError>(missing(tag)),
            None => false,
        },
{
    let t = tag.bytes();
    match ot.get_table_record(t.as_slice()) {
        Some(record) => {
            proof {
                lemma_find_tag(ot.tables@, tag.spec_bytes(), 0);
            }
            let n = data.len();
            let start = record.offset as usize;
            let end = if record.offset as u64 + record.length as u64 <= n as u64 {
                start + record.length as usize
            } else {
                n
            };
            Ok(copy_range(data, start, end))
        },
        None => {
            proof {
                assert(t@ == tag.spec_bytes());
                let a = choose|a: [u8; 4]| a@ == tag.spec_bytes();
                assert(a@ == tag.spec_bytes());
                assert(a == t) by {
                    assert(a@ =~= t@);
                }
            }
            Err(FontError::TableMissing(t))
        },
    }
}

impl OpenTypeFont {
    /// The font's tables are those that the tables of `data` hold.
    pub open spec fn matches_tables(self, data: Seq<u8>, ot: OffsetTable) -> bool {
        self.matches_tables_loca(data, ot, self.loca_table.offsets@)
    }

    /// The font's tables are those that the tables of `data` hold, where the offsets of its loca
    /// table are `loca`.
    pub open spec fn matches_tables_loca(self, data: Seq<u8>, ot: OffsetTable, loca: Seq<u32>) -> bool {
        let head = HeadTable::spec_unpack(bytes_of(data, ot, TableTag::Head))->0;
        let hhea = HheaTable::spec_unpack(bytes_of(data, ot, TableTag::Hhea))->0;
        let maxp = MaxpTable::spec_unpack(bytes_of(data, ot, TableTag::Maxp))->Ok_0;
        let n = maxp.spec_num_glyphs() + 1;
        let format = format_of(head.index_to_loc_format);
        let offsets = offsets_at(bytes_of(data, ot, TableTag::Loca), n as nat, format);
        let ob = bytes_of(data, ot, TableTag::Os2);
        &&& self.sfnt_version == ot.sfnt_version
        &&& self.head_table == head
        &&& self.hhea_table == hhea
        &&& self.maxp_table == maxp
        &&& loca == offsets && self.loca_table.format == format
        &&& self.os2_table.matches_words(get_u16s(ob, 0, word_count(get_u16(ob, 0))))
        &&& CmapTable::spec_unpack(bytes_of(data, ot, TableTag::Cmap)) == Some(
            Ok::<CmapView, FontError>(self.cmap_table@),
        )
        &&& self.cmap_table.wf()
        &&& glyf_unpack(bytes_of(data, ot, TableTag::Glyf), offsets) == Some(
            Ok::<Seq<Option<GlyphView>>, FontError>(self.glyf_table@),
        )
        &&& HmtxTable::spec_unpack(bytes_of(data, ot, TableTag::Hmtx), hhea.number_of_h_metrics, maxp.spec_num_glyphs())
            == Ok::<(Seq<LongHorMetric>, Seq<i16>), FontError>(
            (self.hmtx_table.h_metrics@, self.hmtx_table.left_side_bearings@),
        )
        &&& self.name_table.matches_words(table_words(bytes_of(data, ot, TableTag::Name)))
        &&& self.post_table.matches_bytes(bytes_of(data, ot, TableTag::Post))
    }

    /// Reads the font's tables from `data` with the directory `ot`.
    pub fn from_tables(data: &[u8], ot: &OffsetTable) -> (r: Result<OpenTypeFont, FontError>)
        requires
            tables_outcome(data@, *ot) is Some,
        ensures
            match r {
                Ok(f) => tables_outcome(data@, *ot) == Some(Ok::<(), FontError>(())) && f.matches_tables(data@, *ot),
                Err(e) => tables_outcome(data@, *ot) == Some(Err::<(), FontError>(e)),
            },
    {
        match Self::try_from_tables(data, ot) {
            Some(r) => r,
            None => {
                proof {
                    assert(false);
                }
                Err(FontError::UnexpectedEof)
            },
        }
    }

    /// Reads the font's tables as `from_tables` does, or gives `None` where `from_tables` may
    /// not be called: where a table lies past the data, or its reading is undefined.
    pub fn try_from_tables(data: &[u8], ot: &OffsetTable) -> (r: Option<Result<OpenTypeFont, FontError>>)
        ensures
            match tables_outcome(data@, *ot) {
                None => r is None,
                Some(Ok(())) => r matches Some(Ok(f)) && f.matches_tables(data@, *ot),
                Some(Err(e)) => r == Some(Err::<OpenTypeFont, FontError>(e)),
            },
    {
        if ot.sfnt_version == SfntVersion::CFF {
            return Some(Err(FontError::CffNotSupported));
        }
        let hb = match try_table_bytes(data, ot, TableTag::Head) {
            None => {
                return None;
            },
            Some(Err(e)) => {
                return Some(Err(e));
            },
            Some(Ok(b)) => b,
        };
        let head_table = match HeadTable::unpack(hb.as_slice()) {
            Err(e) => {
                return Some(Err(e));
            },
            Ok(t) => t,
        };
        let ab = match try_table_bytes(data, ot, TableTag::Hhea) {
            None => {
                return None;
            },
            Some(Err(e)) => {
                return Some(Err(e));
            },
            Some(Ok(b)) => b,
        };
        let hhea_table = match HheaTable::unpack(ab.as_slice()) {
            Err(e) => {
                return Some(Err(e));
            },
            Ok(t) => t,
        };
        let mb = match try_table_bytes(data, ot, TableTag::Maxp) {
            None => {
                return None;
            },
            Some(Err(e)) => {
                return Some(Err(e));
            },
            Some(Ok(b)) => b,
        };
        let maxp_table = match MaxpTable::unpack(mb.as_slice()) {
            Err(e) => {
                return Some(Err(e));
            },
            Ok(t) => t,
        };
        let lb = match try_table_bytes(data, ot, TableTag::Loca) {
            None => {
                return None;
            },
            Some(Err(e)) => {
                return Some(Err(e));
            },
            Some(Ok(b)) => b,
        };
        let loca_table = match LocaTable::unpack(lb.as_slice(), &head_table, &maxp_table) {
            Err(e) => {
                return Some(Err(e));
            },
            Ok(t) => t,
        };
        let ob = match try_table_bytes(data, ot, TableTag::Os2) {
            None => {
                return None;
            },
            Some(Err(e)) => {
                return Some(Err(e));
            },
            Some(Ok(b)) => b,
        };
        let os2_table = match Os2Table::unpack(ob.as_slice()) {
            Err(e) => {
                return Some(Err(e));
            },
            Ok(t) => t,
        };
        let cb = match try_table_bytes(data, ot, TableTag::Cmap) {
            None => {
                return None;
            },
            Some(Err(e)) => {
                return Some(Err(e));
            },
            Some(Ok(b)) => b,
        };
        let cmap_table = match CmapTable::try_unpack(cb.as_slice()) {
            None => {
                return None;
            },
            Some(Err(e)) => {
                return Some(Err(e));
            },
            Some(Ok(t)) => t,
        };
        let gb = match try_table_bytes(data, ot, TableTag::Glyf) {
            None => {
                return None;
            },
            Some(Err(e)) => {
                return Some(Err(e));
            },
            Some(Ok(b)) => b,
        };
        let glyf_table = match GlyfTable::try_unpack(gb.as_slice(), &loca_table.offsets) {
            None => {
                return None;
            },
            Some(Err(e)) => {
                return Some(Err(e));
            },
            Some(Ok(t)) => t,
        };
        let xb = match try_table_bytes(data, ot, TableTag::Hmtx) {
            None => {
                return None;
            },
            Some(Err(e)) => {
                return Some(Err(e));
            },
            Some(Ok(b)) => b,
        };
        let hmtx_table = match HmtxTable::unpack(xb.as_slice(), &hhea_table, &maxp_table) {
            Err(e) => {
                return Some(Err(e));
            },
            Ok(t) => t,
        };
        let nb = match try_table_bytes(data, ot, TableTag::Name) {
            None => {
                return None;
            },
            Some(Err(e)) => {
                return Some(Err(e));
            },
            Some(Ok(b)) => b,
        };
        let name_table = match NameTable::unpack(nb.as_slice()) {
            Err(e) => {
                return Some(Err(e));
            },
            Ok(t) => t,
        };
        let pb = match try_table_bytes(data, ot, TableTag::Post) {
            None => {
                return None;
            },
            Some(Err(e)) => {
                return Some(Err(e));
            },
            Some(Ok(b)) => b,
        };
        let post_table = match PostTable::unpack(pb.as_slice()) {
            Err(e) => {
                return Some(Err(e));
            },
            Ok(t) => t,
        };
        Some(Ok(
            OpenTypeFont {
                sfnt_version: ot.sfnt_version,
                os2_table,
                cmap_table,
                glyf_table,
                head_table,
                hhea_table,
                hmtx_table,
                loca_table,
                maxp_table,
                name_table,
                post_table,
            },
        ))
    }

    /// Reads a font from its bytes: the directory, then, for a TrueType font, the tables head,
    /// hhea, maxp, loca, OS/2, cmap, glyf, hmtx, name and post; the first error ends the reading.
    /// A font with CFF outlines is not read.
    pub fn from_slice(data: &[u8]) -> (r: Result<OpenTypeFont, FontError>)
        requires
            slice_defined(data@),
        ensures
            match OffsetTable::unpack_outcome(data@) {
                Err(e) => r == Err::<OpenTypeFont, FontError>(e),
                Ok(n) => exists|ot: OffsetTable| #[trigger] ot.matches_words(font_words(data@, n)) && match r {
                    Ok(f) => tables_outcome(data@, ot) == Some(Ok::<(), FontError>(())) && f.matches_tables(data@, ot),
                    Err(e) => tables_outcome(data@, ot) == Some(Err::<(), FontError>(e)),
                },
            },
    {
        let ot = OffsetTable::unpack(data)?;
        proof {
            let n = OffsetTable::unpack_outcome(data@)->Ok_0;
            assert(ot.matches_words(font_words(data@, n)));
        }
        Self::from_tables(data, &ot)
    }

    /// Reads a font as `from_slice` does, or gives `None` where `from_slice` may not be called:
    /// where a table lies past the data, or its reading is undefined (see `slice_defined`).
    pub fn try_from_slice(data: &[u8]) -> (r: Option<Result<OpenTypeFont, FontError>>)
        ensures
            r is None ==> !slice_defined(data@),
            r is Some ==> match OffsetTable::unpack_outcome(data@) {
                Err(e) => r == Some(Err::<OpenTypeFont, FontError>(e)),
                Ok(n) => exists|ot: OffsetTable| #[trigger] ot.matches_words(font_words(data@, n)) && match r->Some_0 {
                    Ok(f) => tables_outcome(data@, ot) == Some(Ok::<(), FontError>(())) && f.matches_tables(data@, ot),
                    Err(e) => tables_outcome(data@, ot) == Some(Err::<(), FontError>(e)),
                },
            },
    {
        let ot = match OffsetTable::unpack(data) {
            Ok(ot) => ot,
            Err(e) => {
                return Some(Err(e));
            },
        };
        proof {
            let n = OffsetTable::unpack_outcome(data@)->Ok_0;
            assert(ot.matches_words(font_words(data@, n)));
        }
        Self::try_from_tables(data, &ot)
    }
}

/// The glyph ids and code points of the characters that the font maps, in order.
pub open spec fn char_glyphs(cmap: CmapTable, chars: Seq<char>) -> Seq<(u16, u32)>
    decreases chars.len(),
{
    if chars.len() == 0 {
        Seq::empty()
    } else {
        let rest = char_glyphs(cmap, chars.drop_last());
        match cmap.lookup(chars.last() as u32) {
            Some(g) => rest.push((g, chars.last() as u32)),
            None => rest,
        }
    }
}

/// The position of the group of glyph `g` in `groups`.
pub open spec fn group_pos(groups: Seq<(u16, Seq<u32>)>, g: u16) -> Option<int>
    decreases groups.len(),
{
    if groups.len() == 0 {
        None
    } else if groups.last().0 == g {
        Some(groups.len() - 1)
    } else {
        group_pos(groups.drop_last(), g)
    }
}

/// The pairs grouped by glyph id: one group per glyph, in the order of the glyphs' first
/// appearance, each with its code points in order.
pub open spec fn group_glyphs(pairs: Seq<(u16, u32)>) -> Seq<(u16, Seq<u32>)>
    decreases pairs.len(),
{
    if pairs.len() == 0 {
        Seq::empty()
    } else {
        let groups = group_glyphs(pairs.drop_last());
        let (g, c) = pairs.last();
        match group_pos(groups, g) {
            Some(k) => groups.update(k, (g, groups[k].1.push(c))),
            None => groups.push((g, seq![c])),
        }
    }
}

/// A subset of glyphs is what the font can subset: its 'cmap' subtables of format 4 have a
/// segment, and the glyphs with those that composite glyphs use count less than `u32::MAX`.
pub open spec fn subset_allowed(cmap: CmapTable) -> bool {
    forall|k: int|
        0 <= k < cmap.subtables@.len() ==> (#[trigger] cmap.subtables@[k] is Format4 ==> cmap.subtables@[k]->Format4_0.seg_count_x2 >= 2)
}

/// The metrics of a subset are metrics of the font.
proof fn lemma_subset_metrics_fit(m: Seq<LongHorMetric>, idx: Seq<u16>)
    requires
        side_terms_fit(m),
    ensures
        side_terms_fit(subset_metrics(m, idx)),
    decreases idx.len(),
{
    if idx.len() > 0 {
        lemma_subset_metrics_fit(m, idx.drop_last());
        let r = subset_metrics(m, idx.drop_last());
        if (idx.last() as int) < m.len() {
            assert forall|k: int| 0 <= k < r.len() + 1 implies -32768 <= #[trigger] side_term(r.push(m[idx.last() as int])[k]) <= 32767 by {
                if k < r.len() {
                    assert(r.push(m[idx.last() as int])[k] == r[k]);
                }
            }
        }
    }
}

impl OpenTypeFont {
    /// The font family name, decoded from the Windows Unicode record of the 'name' table.
    pub fn font_family_name(&self) -> (r: Option<String>)
        requires
            name_in_bounds(self.name_table.records(), self.name_table.strings(), FONT_FAMILY_NAME_ID),
        ensures
            match r {
                Some(s) => spec_name(self.name_table.records(), self.name_table.strings(), FONT_FAMILY_NAME_ID) == Some(s@),
                None => spec_name(self.name_table.records(), self.name_table.strings(), FONT_FAMILY_NAME_ID) is None,
            },
    {
        self.name_table.font_family_name()
    }

    /// The PostScript name, decoded from the Windows Unicode record of the 'name' table.
    pub fn post_script_name(&self) -> (r: Option<String>)
        requires
            name_in_bounds(self.name_table.records(), self.name_table.strings(), POST_SCRIPT_NAME_ID),
        ensures
            match r {
                Some(s) => spec_name(self.name_table.records(), self.name_table.strings(), POST_SCRIPT_NAME_ID) == Some(s@),
                None => spec_name(self.name_table.records(), self.name_table.strings(), POST_SCRIPT_NAME_ID) is None,
            },
    {
        self.name_table.post_script_name()
    }

    /// The font is monospaced.
    pub fn is_fixed_pitch(&self) -> (r: bool)
        ensures
            r == (self.post_table.is_fixed_path > 0),
    {
        self.post_table.is_fixed_path > 0
    }

    /// The font's family class is one of the serif classes 1 to 7.
    pub fn is_serif(&self) -> (r: bool)
        ensures
            r == (1 <= self.os2_table.s_family_class <= 7),
    {
        1 <= self.os2_table.s_family_class && self.os2_table.s_family_class <= 7
    }

    /// The font's family class is the script class 10.
    pub fn is_script(&self) -> (r: bool)
        ensures
            r == (self.os2_table.s_family_class == 10),
    {
        self.os2_table.s_family_class == 10
    }

    /// The font leans: its italic angle is not 0.
    pub fn is_italic(&self) -> (r: bool)
        ensures
            r == (self.post_table.italic_angle != 0),
    {
        self.post_table.italic_angle != 0
    }

    /// The italic angle of the 'post' table.
    pub fn italic_angle(&self) -> (r: i32)
        ensures
            r == self.post_table.italic_angle,
    {
        self.post_table.italic_angle
    }

    /// The number of font units per em.
    pub fn units_per_em(&self) -> (r: u16)
        ensures
            r == self.head_table.units_per_em,
    {
        self.head_table.units_per_em
    }

    /// The glyph id of `codepoint`: from the encoding records in the order of their priority (see
    /// `CmapTable::lookup`).
    pub fn glyph_id(&self, codepoint: u32) -> (r: Option<u16>)
        requires
            self.cmap_table.wf(),
            self.cmap_table.lookup_defined(codepoint),
        ensures
            r == self.cmap_table.lookup(codepoint),
    {
        self.cmap_table.glyph_id(codepoint)
    }

    /// The advance width, in font units, of the glyph of `ch`, or of glyph 0 where the font
    /// does not map `ch`; `None` where that glyph has no metric.
    pub fn char_advance_width(&self, ch: char) -> (r: Option<u16>)
        requires
            self.cmap_table.wf(),
            self.cmap_table.lookup_defined(ch as u32),
        ensures
            ({
                let ix = match self.cmap_table.lookup(ch as u32) {
                    Some(g) => g as int,
                    None => 0,
                };
                r == if ix < self.hmtx_table.h_metrics@.len() {
                    Some(self.hmtx_table.h_metrics@[ix].advance_width)
                } else {
                    None::<u16>
                }
            }),
    {
        let ix = match self.glyph_id(ch as u32) {
            Some(g) => g as usize,
            None => 0,
        };
        if ix < self.hmtx_table.h_metrics.len() {
            Some(self.hmtx_table.h_metrics[ix].advance_width)
        } else {
            None
        }
    }

    /// `r` is this font subset to `glyphs`: to the expansion `e` of `glyphs` by the glyphs that
    /// composite glyphs use, glyph 0 first. The glyph at position `k` of `e` gets the new id `k`:
    /// glyf, loca, head, hhea, hmtx and maxp are subsetted to `e`; cmap maps the code points of
    /// the glyphs after glyph 0 (whose new id 0 needs no mapping) to their new ids; OS/2, name
    /// and post are unchanged.
    pub open spec fn subset_of(self, glyphs: Seq<Glyph>, r: OpenTypeFont) -> bool {
            exists|e: Seq<Glyph>| #[trigger] is_expansion(self.glyf_table@, glyphs, e) && {
                &&& 1 <= e.len() <= 0x10000
                &&& r.sfnt_version == self.sfnt_version
                &&& r.os2_table == self.os2_table
                &&& self.cmap_table.subset_result(e.drop_first(), r.cmap_table)
                &&& r.glyf_table@.len() == e.len()
                &&& forall|k: int| 0 <= k < e.len() ==> #[trigger] r.glyf_table@[k] == subset_glyph(
                    self.glyf_table@,
                    indices_of(e),
                    k,
                )
                &&& r.loca_table.offsets@ == glyph_offsets(r.glyf_table@, false)
                &&& r.loca_table.format == self.loca_table.format
                &&& r.head_table == (HeadTable {
                    x_min: crate::otf::tables::hhea::min_i16(bbox_values(r.glyf_table@, 0)),
                    y_min: crate::otf::tables::hhea::min_i16(bbox_values(r.glyf_table@, 1)),
                    x_max: crate::otf::tables::hhea::max_i16(bbox_values(r.glyf_table@, 2)),
                    y_max: crate::otf::tables::hhea::max_i16(bbox_values(r.glyf_table@, 3)),
                    index_to_loc_format: if self.loca_table.format == Format::Short { 0 } else { 1 },
                    ..self.head_table
                })
                &&& r.hmtx_table.h_metrics@ == subset_metrics(self.hmtx_table.h_metrics@, glyph_indices(e))
                &&& r.hmtx_table.left_side_bearings@ == subset_bearings(
                    self.hmtx_table.h_metrics@.len(),
                    self.hmtx_table.left_side_bearings@,
                    glyph_indices(e),
                )
                &&& r.hhea_table == self.hhea_table.spec_subset(
                    r.head_table,
                    r.hmtx_table.h_metrics@,
                    r.hmtx_table.left_side_bearings@,
                )
                &&& r.maxp_table == self.maxp_table.spec_subset(e.len() - 1)
                &&& r.name_table.words() == self.name_table.words()
                &&& r.post_table.words() == self.post_table.words()
                &&& r.post_table.addition@ == self.post_table.addition@
            }
    }

    /// `glyphs` are the glyphs of `chars` (see `glyphs_of_chars`).
    pub open spec fn glyphs_of(self, chars: Seq<char>, glyphs: Seq<Glyph>) -> bool {
        &&& glyphs.len() == group_glyphs(char_glyphs(self.cmap_table, chars)).len()
        &&& forall|k: int|
            0 <= k < glyphs.len() ==> (#[trigger] glyphs[k]).index == group_glyphs(char_glyphs(self.cmap_table, chars))[k].0
                && glyphs[k].code_points@ == group_glyphs(char_glyphs(self.cmap_table, chars))[k].1
    }

    /// The font reduced to `glyphs` and the glyphs that their composite glyphs use, glyph 0 first:
    /// every table is subsetted to the expanded glyphs, except OS/2, name and post, which stay
    /// as they are; the glyph at position `k` gets the new id `k`.
    pub fn subset_from_glyphs(&self, glyphs: &[Glyph]) -> (r: OpenTypeFont)
        requires
            subset_allowed(self.cmap_table),
            side_terms_fit(self.hmtx_table.h_metrics@),
        ensures
            self.subset_of(glyphs@, r),
    {
        let mut expanded = self.glyf_table.expand_composite_glyphs(glyphs);
        let ghost e = expanded@;
        proof {
            law_expansion(self.glyf_table@, glyphs@, e);
        }
        // glyph 0 needs no code points mapped and counts apart in maxp
        let first = expanded.remove(0);
        assert(expanded@ =~= e.drop_first());
        proof {
            assert forall|k: int| 0 <= k < self.cmap_table.subtables@.len() implies #[trigger] self.cmap_table.subtables@[k].subset_defined(expanded@) by {
                assert(self.cmap_table.subtables@[k] is Format4 ==> self.cmap_table.subtables@[k]->Format4_0.seg_count_x2 >= 2);
            }
        }
        let cmap_table = self.cmap_table.subset(expanded.as_slice());
        let maxp_table = self.maxp_table.subset(expanded.as_slice());
        expanded.insert(0, first);
        assert(expanded@ =~= e);
        let glyf_table = self.glyf_table.subset(expanded.as_slice());
        let loca_table = self.loca_table.subset(&glyf_table);
        let head_table = self.head_table.subset(&glyf_table, &loca_table);
        let hmtx_table = self.hmtx_table.subset(expanded.as_slice());
        proof {
            lemma_subset_metrics_fit(self.hmtx_table.h_metrics@, glyph_indices(e));
        }
        let hhea_table = self.hhea_table.subset(&head_table, &hmtx_table);
        let r = OpenTypeFont {
            sfnt_version: self.sfnt_version,
            os2_table: self.os2_table,
            cmap_table,
            glyf_table,
            head_table,
            hhea_table,
            hmtx_table,
            loca_table,
            maxp_table,
            name_table: self.name_table.duplicate(),
            post_table: self.post_table.duplicate(),
        };
        assert(r.glyf_table.glyphs@.len() == r.glyf_table@.len());
        r
    }

    /// The glyph ids and code points of `chars` that the font maps, grouped by glyph: one glyph
    /// per id, in the order of first appearance, with its code points in order.
    pub fn glyphs_of_chars(&self, chars: &[char]) -> (r: Vec<Glyph>)
        requires
            self.cmap_table.wf(),
            forall|k: int| 0 <= k < chars@.len() ==> self.cmap_table.lookup_defined(#[trigger] chars@[k] as u32),
        ensures
            r@.len() == group_glyphs(char_glyphs(self.cmap_table, chars@)).len(),
            forall|k: int|
                0 <= k < r@.len() ==> (#[trigger] r@[k]).index == group_glyphs(char_glyphs(self.cmap_table, chars@))[k].0
                    && r@[k].code_points@ == group_glyphs(char_glyphs(self.cmap_table, chars@))[k].1,
    {
        let mut r: Vec<Glyph> = Vec::new();
        let mut i: usize = 0;
        while i < chars.len()
            invariant
                i <= chars@.len(),
                self.cmap_table.wf(),
                forall|k: int| 0 <= k < chars@.len() ==> self.cmap_table.lookup_defined(#[trigger] chars@[k] as u32),
                r@.len() == group_glyphs(char_glyphs(self.cmap_table, chars@.take(i as int))).len(),
                forall|k: int|
                    0 <= k < r@.len() ==> (#[trigger] r@[k]).index == group_glyphs(char_glyphs(self.cmap_table, chars@.take(i as int)))[k].0
                        && r@[k].code_points@ == group_glyphs(char_glyphs(self.cmap_table, chars@.take(i as int)))[k].1,
            decreases chars@.len() - i,
        {
            let c = chars[i];
            assert(chars@.take(i + 1).drop_last() =~= chars@.take(i as int));
            let ghost before = group_glyphs(char_glyphs(self.cmap_table, chars@.take(i as int)));
            let ghost rb = r@;
            assert(self.cmap_table.lookup_defined(chars@[i as int] as u32));
            match self.glyph_id(c as u32) {
                Some(g) => {
                    let ghost pairs = char_glyphs(self.cmap_table, chars@.take(i + 1));
                    assert(pairs.drop_last() =~= char_glyphs(self.cmap_table, chars@.take(i as int)));
                    assert(pairs.last() == (g, c as u32));
                    proof {
                        lemma_groups_distinct(char_glyphs(self.cmap_table, chars@.take(i as int)));
                        lemma_group_pos(before, g);
                    }
                    let mut k: usize = 0;
                    while k < r.len()
                        invariant
                            k <= r@.len(),
                            r@ == rb,
                            r@.len() == before.len(),
                            forall|j: int| 0 <= j < r@.len() ==> (#[trigger] r@[j]).index == before[j].0,
                            forall|j: int| 0 <= j < k ==> (#[trigger] r@[j]).index != g,
                        ensures
                            k <= r@.len(),
                            r@ == rb,
                            k < r@.len() ==> r@[k as int].index == g,
                            forall|j: int| 0 <= j < k ==> (#[trigger] r@[j]).index != g,
                        decreases r@.len() - k,
                    {
                        if r[k].index == g {
                            break;
                        }
                        k = k + 1;
                    }
                    if k < r.len() {
                        assert(r@[k as int].index == g);
                        assert(group_pos(before, g) == Some(k as int)) by {
                            match group_pos(before, g) {
                                Some(p) => {
                                    if p != k {
                                        assert(before[p].0 == g);
                                    }
                                },
                                None => {
                                    assert(before[k as int].0 == g);
                                },
                            }
                        }
                        let mut cps = crate::big_endian::copy_vec(&r[k].code_points);
                        cps.push(c as u32);
                        r.set(k, Glyph { index: g, code_points: cps });
                        assert(group_glyphs(pairs) == before.update(k as int, (g, before[k as int].1.push(c as u32))));
                    } else {
                        assert(group_pos(before, g) is None) by {
                            match group_pos(before, g) {
                                Some(p) => {
                                    assert(before[p].0 == g);
                                    assert(r@[p].index != g);
                                },
                                None => {},
                            }
                        }
                        let mut cps: Vec<u32> = Vec::new();
                        cps.push(c as u32);
                        r.push(Glyph { index: g, code_points: cps });
                        assert(cps@ =~= seq![c as u32]);
                        assert(group_glyphs(pairs) == before.push((g, seq![c as u32])));
                    }
                },
                None => {
                    assert(char_glyphs(self.cmap_table, chars@.take(i + 1)) =~= char_glyphs(self.cmap_table, chars@.take(i as int)));
                },
            }
            i = i + 1;
        }
        assert(chars@.take(i as int) =~= chars@);
        r
    }

    /// The font reduced to the glyphs of `chars` (see `glyphs_of_chars`) and the glyphs that
    /// their composite glyphs use.
    pub fn subset(&self, chars: &[char]) -> (r: OpenTypeFont)
        requires
            self.cmap_table.wf(),
            forall|k: int| 0 <= k < chars@.len() ==> self.cmap_table.lookup_defined(#[trigger] chars@[k] as u32),
            subset_allowed(self.cmap_table),
            side_terms_fit(self.hmtx_table.h_metrics@),
        ensures
            exists|glyphs: Seq<Glyph>| #[trigger] self.glyphs_of(chars@, glyphs) && self.subset_of(glyphs, r),
    {
        let glyphs = self.glyphs_of_chars(chars);
        proof {
            lemma_char_glyphs_len(self.cmap_table, chars@);
            lemma_group_glyphs_len(char_glyphs(self.cmap_table, chars@));
        }
        let r = self.subset_from_glyphs(glyphs.as_slice());
        assert(self.glyphs_of(chars@, glyphs@));
        r
    }
}

/// There are no more glyph/code point pairs than characters.
proof fn lemma_char_glyphs_len(cmap: CmapTable, chars: Seq<char>)
    ensures
        char_glyphs(cmap, chars).len() <= chars.len(),
    decreases chars.len(),
{
    if chars.len() > 0 {
        lemma_char_glyphs_len(cmap, chars.drop_last());
    }
}

/// There are no more groups than pairs.
proof fn lemma_group_glyphs_len(pairs: Seq<(u16, u32)>)
    ensures
        group_glyphs(pairs).len() <= pairs.len(),
    decreases pairs.len(),
{
    if pairs.len() > 0 {
        lemma_group_glyphs_len(pairs.drop_last());
        let groups = group_glyphs(pairs.drop_last());
        let (g, c) = pairs.last();
        lemma_group_pos(groups, g);
        match group_pos(groups, g) {
            Some(k) => assert(group_glyphs(pairs).len() == groups.len()),
            None => assert(group_glyphs(pairs).len() == groups.len() + 1),
        }
    }
}

/// The groups have distinct glyph ids.
proof fn lemma_groups_distinct(pairs: Seq<(u16, u32)>)
    ensures
        forall|a: int, b: int|
            0 <= a < b < group_glyphs(pairs).len() ==> group_glyphs(pairs)[a].0 != group_glyphs(pairs)[b].0,
    decreases pairs.len(),
{
    if pairs.len() > 0 {
        lemma_groups_distinct(pairs.drop_last());
        lemma_group_pos(group_glyphs(pairs.drop_last()), pairs.last().0);
    }
}

/// The position that `group_pos` gives holds the glyph, and no later group does.
pub proof fn lemma_group_pos(groups: Seq<(u16, Seq<u32>)>, g: u16)
    ensures
        match group_pos(groups, g) {
            Some(k) => 0 <= k < groups.len() && groups[k].0 == g && forall|j: int| k < j < groups.len() ==> groups[j].0 != g,
            None => forall|j: int| 0 <= j < groups.len() ==> groups[j].0 != g,
        },
    decreases groups.len(),
{
    if groups.len() > 0 {
        lemma_group_pos(groups.drop_last(), g);
        assert(forall|j: int| 0 <= j < groups.len() - 1 ==> groups.drop_last()[j] == groups[j]);
    }
}

} // verus!

verus! {

impl OpenTypeFont {
    /// A font subset counts in its maxp table as many glyphs as its glyf table holds, and its
    /// loca table holds one offset more, where it has at most 0xFFFF glyphs and their sizes fit
    /// 32 bits: what a font needs to be read again.
    pub proof fn law_subset_counts(self, glyphs: Seq<Glyph>, r: OpenTypeFont)
        requires
            self.subset_of(glyphs, r),
            r.glyf_table@.len() <= 0xFFFF,
            total_size(r.glyf_table@, false) <= u32::MAX,
        ensures
            r.maxp_table.spec_num_glyphs() == r.glyf_table@.len(),
            r.loca_table.offsets@.len() == r.glyf_table@.len() + 1,
    {
        lemma_glyph_offsets_len(r.glyf_table@, false);
    }
}

} // verus!
