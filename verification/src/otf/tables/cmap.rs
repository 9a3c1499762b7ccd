//! The CMAP table, which maps character codes to glyph ids.
//!
//! Supported character encodings are (in the order of how they are used if they are defined):
//! | platform ID | encoding ID |                                          |
//! |-------------|-------------|------------------------------------------|
//! | 0           | 4           | Unicode >= 2.0, non-BMP allowed          |
//! | 3           | 10          | Windows, full Unicode                    |
//! | 0           | 3           | Unicode >= 2.0, BMP only                 |
//! | 3           | 1           | Windows, compatbility with older devices |
//!
//! Supported subtable formats are 4 and 12. Not supported character encodings are ignored; an
//! error is returned if there is not a single supported character encoding.
mod code_points;
pub mod format12;
pub mod format4;

use vstd::prelude::*;
use crate::big_endian::{be16, be32, be_u16_value, be_u32_value, get_u16, get_u32, lemma_get_u16, lemma_get_u16_value, lemma_get_u32, lemma_get_u32_value, read_u16_at, read_u32_at, write_bytes, write_u16, write_u32};
use crate::otf::error::FontError;
use crate::otf::tables::Glyph;
use format12::{Format12, SequentialMapGroup};
use format4::{Format4, Format4View};

verus! {

/// A font's CMAP table. Encoding records that share one subtable refer to it by its position in
/// `subtables`.
#[derive(Debug, PartialEq, Clone)]
pub struct CmapTable {
    pub version: u16,
    pub encoding_records: Vec<EncodingRecord>,
    pub subtables: Vec<Subtable>,
}

/// An encoding record as stored in the font.
#[derive(Debug, PartialEq, Clone, Copy)]
pub struct RawEncodingRecord {
    pub platform_id: u16,
    pub encoding_id: u16,
    /// Byte offset from beginning of table to the subtable for this encoding.
    pub offset: u32,
}

/// An encoding record; `subtable` is the position of its subtable in the table's `subtables`.
#[derive(Debug, PartialEq, Clone, Copy)]
pub struct EncodingRecord {
    pub platform_id: u16,
    pub encoding_id: u16,
    pub subtable: usize,
}

/// A CMAP subtable of a supported format.
#[derive(Debug, PartialEq, Clone)]
pub enum Subtable {
    Format4(Format4),
    Format12(Format12),
}

/// The content of a subtable as plain values.
pub ghost enum SubtableView {
    Format4(Format4View),
    Format12((u32, u32, Seq<SequentialMapGroup>)),
}

impl View for Subtable {
    type V = SubtableView;

    open spec fn view(&self) -> SubtableView {
        match self {
            Subtable::Format4(t) => SubtableView::Format4(t@),
            Subtable::Format12(t) => SubtableView::Format12(t@),
        }
    }
}

/// Whether the platform and encoding of a record are supported.
pub open spec fn is_supported_encoding(platform_id: u16, encoding_id: u16) -> bool {
    (platform_id == 0 && encoding_id == 4) || (platform_id == 0 && encoding_id == 3) || (
    platform_id == 3 && encoding_id == 10) || (platform_id == 3 && encoding_id == 1)
}

/// The priority of an encoding in lookups: (0, 4), (3, 10), (0, 3), (3, 1); 4 for others.
pub open spec fn encoding_rank(platform_id: u16, encoding_id: u16) -> int {
    if platform_id == 0 && encoding_id == 4 {
        0
    } else if platform_id == 3 && encoding_id == 10 {
        1
    } else if platform_id == 0 && encoding_id == 3 {
        2
    } else if platform_id == 3 && encoding_id == 1 {
        3
    } else {
        4
    }
}

/// Computes `encoding_rank`.
fn rank_of(platform_id: u16, encoding_id: u16) -> (r: usize)
    ensures
        r == encoding_rank(platform_id, encoding_id),
{
    if platform_id == 0 && encoding_id == 4 {
        0
    } else if platform_id == 3 && encoding_id == 10 {
        1
    } else if platform_id == 0 && encoding_id == 3 {
        2
    } else if platform_id == 3 && encoding_id == 1 {
        3
    } else {
        4
    }
}

/// The `(length + extra)` field of a subtable header, truncated to 16 bits.
pub open spec fn u16_trunc(n: int) -> u16 {
    (n % 0x10000) as u16
}

impl Subtable {
    /// Whether the lookup of `codepoint` is defined.
    pub open spec fn lookup_defined(self, codepoint: u32) -> bool {
        match self {
            Subtable::Format4(t) => !t.lookup_out_of_bounds(codepoint),
            Subtable::Format12(_) => true,
        }
    }

    pub open spec fn spec_glyph_id(self, codepoint: u32) -> Option<u16> {
        match self {
            Subtable::Format4(t) => t.spec_glyph_id(codepoint),
            Subtable::Format12(t) => t.spec_glyph_id(codepoint),
        }
    }

    /// Maps a code point to its glyph id.
    pub fn glyph_id(&self, codepoint: u32) -> (r: Option<u16>)
        requires
            self.lookup_defined(codepoint),
        ensures
            r == self.spec_glyph_id(codepoint),
    {
        match self {
            Subtable::Format4(subtable) => subtable.glyph_id(codepoint),
            Subtable::Format12(subtable) => subtable.glyph_id(codepoint),
        }
    }

    /// The subtable that starts at the first byte of `t` (which reaches to the end of the CMAP
    /// table): `None` where the subtable's length header is smaller than its header or reaches
    /// past the table (unpacking is then undefined).
    pub open spec fn spec_unpack(t: Seq<u8>) -> Option<Result<SubtableView, FontError>> {
        if t.len() < 2 {
            Some(Err(FontError::UnexpectedEof))
        } else {
            let format = get_u16(t, 0);
            if format == 4 {
                if t.len() < 4 {
                    Some(Err(FontError::UnexpectedEof))
                } else {
                    let length = get_u16(t, 2) as int;
                    if length < 4 || length > t.len() {
                        None
                    } else {
                        match Format4::spec_unpack(t.subrange(4, length)) {
                            Some(v) => Some(Ok(SubtableView::Format4(v))),
                            None => Some(Err(FontError::UnexpectedEof)),
                        }
                    }
                }
            } else if format == 12 {
                if t.len() < 8 {
                    Some(Err(FontError::UnexpectedEof))
                } else {
                    let length = get_u32(t, 4) as int;
                    if length < 12 || length > t.len() {
                        None
                    } else {
                        match Format12::spec_unpack(t.subrange(8, length)) {
                            Some(v) => Some(Ok(SubtableView::Format12(v))),
                            None => Some(Err(FontError::UnexpectedEof)),
                        }
                    }
                }
            } else {
                Some(Err(FontError::UnsupportedCmapFormat(format)))
            }
        }
    }

    /// The bytes of the subtable without its header.
    pub open spec fn spec_body(self) -> Seq<u8> {
        match self {
            Subtable::Format4(t) => t.spec_pack(),
            Subtable::Format12(t) => t.spec_pack(),
        }
    }

    /// The bytes that `pack` writes, or `None` where the body is larger than `u16::MAX` bytes.
    pub open spec fn spec_pack(self) -> Option<Seq<u8>> {
        let body = self.spec_body();
        if body.len() > 0xFFFF {
            None
        } else {
            match self {
                Subtable::Format4(_) => Some(be16(4) + be16(u16_trunc(body.len() + 4int)) + body),
                Subtable::Format12(_) => Some(
                    be16(12) + be16(0) + be32((body.len() + 8) as u32) + body,
                ),
            }
        }
    }

    /// Reads the subtable at the start of `t`.
    pub fn unpack(t: &[u8]) -> (r: Result<Subtable, FontError>)
        requires
            Self::spec_unpack(t@) is Some,
        ensures
            match r {
                Ok(st) => Self::spec_unpack(t@) == Some(Ok::<SubtableView, FontError>(st@)),
                Err(e) => Self::spec_unpack(t@) == Some(Err::<SubtableView, FontError>(e)),
            },
    {
        match Self::try_unpack(t) {
            Some(r) => r,
            None => {
                proof {
                    assert(false);
                }
                Err(FontError::UnexpectedEof)
            },
        }
    }

    /// Reads the subtable as `unpack` does, or gives `None` where `unpack` may not be called:
    /// where its length header is smaller than its header or reaches past `t`.
    pub fn try_unpack(t: &[u8]) -> (r: Option<Result<Subtable, FontError>>)
        ensures
            match Self::spec_unpack(t@) {
                None => r is None,
                Some(Ok(v)) => r matches Some(Ok(st)) && st@ == v,
                Some(Err(e)) => r == Some(Err::<Subtable, FontError>(e)),
            },
    {
        let len = t.len();
        if len < 2 {
            return Some(Err(FontError::UnexpectedEof));
        }
        let format = read_u16_at(t, 0);
        if format == 4 {
            if len < 4 {
                return Some(Err(FontError::UnexpectedEof));
            }
            let length = read_u16_at(t, 2) as usize;
            if length < 4 || length > len {
                return None;
            }
            let body = vstd::slice::slice_subrange(t, 4, length);
            match Format4::unpack(body) {
                Ok(st) => Some(Ok(Subtable::Format4(st))),
                Err(e) => Some(Err(e)),
            }
        } else if format == 12 {
            if len < 8 {
                return Some(Err(FontError::UnexpectedEof));
            }
            let length = read_u32_at(t, 4) as u64;
            if length < 12 || length > len as u64 {
                return None;
            }
            let length = length as usize;
            let body = vstd::slice::slice_subrange(t, 8, length);
            match Format12::unpack(body) {
                Ok(st) => Some(Ok(Subtable::Format12(st))),
                Err(e) => Some(Err(e)),
            }
        } else {
            Some(Err(FontError::UnsupportedCmapFormat(format)))
        }
    }

    /// Appends the subtable with its header to `out`.
    pub fn pack(&self, out: &mut Vec<u8>) -> (r: Result<(), FontError>)
        ensures
            match self.spec_pack() {
                Some(b) => r is Ok && final(out)@ == old(out)@ + b,
                None => r == Err::<(), FontError>(FontError::CmapSubtableTooLarge) && final(out)@
                    == old(out)@,
            },
    {
        let mut buf: Vec<u8> = Vec::new();
        match self {
            Subtable::Format4(subtable) => subtable.pack(&mut buf),
            Subtable::Format12(subtable) => subtable.pack(&mut buf),
        }
        assert(buf@ =~= self.spec_body());
        if buf.len() > 0xFFFF {
            return Err(FontError::CmapSubtableTooLarge);
        }
        let ghost start = out@;
        match self {
            Subtable::Format4(_) => {
                write_u16(out, 4);
                write_u16(out, ((buf.len() + 4) % 0x10000) as u16);
            },
            Subtable::Format12(_) => {
                write_u16(out, 12);
                write_u16(out, 0);
                write_u32(out, (buf.len() + 8) as u32);
            },
        }
        write_bytes(out, buf.as_slice());
        assert(final(out)@ =~= start + self.spec_pack().unwrap());
        Ok(())
    }

    /// Whether the subtable's counters agree with its content and its body fits a 16-bit length.
    pub open spec fn wf(self) -> bool {
        match self {
            Subtable::Format4(t) => t.wf() && t.spec_pack().len() + 4 <= 0xFFFF,
            Subtable::Format12(t) => t.num_groups == t.sequential_map_groups@.len()
                && t.spec_pack().len() <= 0xFFFF,
        }
    }

    /// Reading back what `pack` wrote gives the same subtable.
    pub proof fn lemma_pack_unpack(self)
        requires
            self.wf(),
        ensures
            self.spec_pack() is Some,
            Self::spec_unpack(self.spec_pack().unwrap()) == Some(
                Ok::<SubtableView, FontError>(self@),
            ),
    {
        let b = self.spec_pack().unwrap();
        let body = self.spec_body();
        match self {
            Subtable::Format4(t) => {
                assert(b.subrange(0, 2) =~= be16(4));
                lemma_get_u16(b, 0, 4);
                assert(b.subrange(2, 4) =~= be16(u16_trunc(body.len() + 4int)));
                lemma_get_u16(b, 2, u16_trunc(body.len() + 4int));
                assert(b.subrange(4, b.len() as int) =~= body);
                t.lemma_pack_unpack();
            },
            Subtable::Format12(t) => {
                assert(b.subrange(0, 2) =~= be16(12));
                lemma_get_u16(b, 0, 12);
                assert(b.subrange(4, 8) =~= be32((body.len() + 8) as u32));
                lemma_get_u32(b, 4, (body.len() + 8) as u32);
                assert(b.subrange(8, b.len() as int) =~= body);
                t.lemma_pack_unpack();
            },
        }
    }

    /// Whether `subset` may be called with `glyphs`.
    pub open spec fn subset_defined(self, glyphs: Seq<Glyph>) -> bool {
        match self {
            Subtable::Format4(t) => t.seg_count_x2 >= 2,
            Subtable::Format12(_) => glyphs.len() < 0xFFFF_FFFF,
        }
    }

    /// What `subset` returns for `glyphs`.
    pub open spec fn subset_result(self, glyphs: Seq<Glyph>, r: Subtable) -> bool {
        match (self, r) {
            (Subtable::Format4(t), Subtable::Format4(s)) => t.subset_result(glyphs, s),
            (Subtable::Format12(t), Subtable::Format12(s)) => t.subset_result(glyphs, s),
            _ => false,
        }
    }

    /// The subset of the subtable for `glyphs` (see the formats' `subset`).
    pub fn subset(&self, glyphs: &[Glyph]) -> (r: Subtable)
        requires
            self.subset_defined(glyphs@),
        ensures
            self.subset_result(glyphs@, r),
    {
        match self {
            Subtable::Format4(subtable) => Subtable::Format4(subtable.subset(glyphs)),
            Subtable::Format12(subtable) => Subtable::Format12(subtable.subset(glyphs)),
        }
    }
}

/// The raw encoding record stored at position `4 + 8 * i`.
pub open spec fn raw_record_at(s: Seq<u8>, i: int) -> RawEncodingRecord {
    RawEncodingRecord {
        platform_id: get_u16(s, 4 + 8 * i),
        encoding_id: get_u16(s, 6 + 8 * i),
        offset: get_u32(s, 8 + 8 * i),
    }
}

/// The first `n` raw encoding records whose encoding is supported, in order.
pub open spec fn supported_records(s: Seq<u8>, n: nat) -> Seq<RawEncodingRecord>
    decreases n,
{
    if n == 0 {
        Seq::empty()
    } else {
        let rest = supported_records(s, (n - 1) as nat);
        let r = raw_record_at(s, n - 1);
        if is_supported_encoding(r.platform_id, r.encoding_id) && readable_format(s, r.offset) {
            rest.push(r)
        } else {
            rest
        }
    }
}

/// Whether the subtable at `offset` of the table `s` has a format that the reader reads (4 or
/// 12), or ends before its format, which is then an error; subtables of other formats are
/// ignored.
pub open spec fn readable_format(s: Seq<u8>, offset: u32) -> bool {
    let t = tail_from(s, offset as int);
    t.len() < 2 || get_u16(t, 0) == 4 || get_u16(t, 0) == 12
}

/// The first position before `k` whose record has `offset`, or `k` if there is none.
pub open spec fn first_with_offset(raws: Seq<RawEncodingRecord>, offset: u32, k: int) -> int
    decreases k,
{
    if k <= 0 {
        k
    } else if first_with_offset(raws, offset, k - 1) < k - 1 {
        first_with_offset(raws, offset, k - 1)
    } else if raws[k - 1].offset == offset {
        k - 1
    } else {
        k
    }
}

/// The bytes of the table from `offset` on (empty where `offset` lies past the end).
pub open spec fn tail_from(s: Seq<u8>, offset: int) -> Seq<u8> {
    if offset <= s.len() {
        s.subrange(offset, s.len() as int)
    } else {
        Seq::empty()
    }
}

/// The encoding records and subtables that the raw records `raws` of the table `s` give.
/// Records with the offset of an earlier record share its subtable.
pub open spec fn spec_unpack_records(s: Seq<u8>, raws: Seq<RawEncodingRecord>) -> Option<
    Result<(Seq<EncodingRecord>, Seq<SubtableView>), FontError>,
>
    decreases raws.len(),
{
    if raws.len() == 0 {
        Some(Ok((Seq::empty(), Seq::empty())))
    } else {
        match spec_unpack_records(s, raws.drop_last()) {
            None => None,
            Some(Err(e)) => Some(Err(e)),
            Some(Ok((recs, subs))) => {
                let r = raws.last();
                let j = first_with_offset(raws, r.offset, raws.len() - 1);
                if j < raws.len() - 1 {
                    Some(
                        Ok(
                            (
                                recs.push(
                                    EncodingRecord {
                                        platform_id: r.platform_id,
                                        encoding_id: r.encoding_id,
                                        subtable: recs[j].subtable,
                                    },
                                ),
                                subs,
                            ),
                        ),
                    )
                } else {
                    match Subtable::spec_unpack(tail_from(s, r.offset as int)) {
                        None => None,
                        Some(Err(e)) => Some(Err(e)),
                        Some(Ok(v)) => Some(
                            Ok(
                                (
                                    recs.push(
                                        EncodingRecord {
                                            platform_id: r.platform_id,
                                            encoding_id: r.encoding_id,
                                            subtable: subs.len() as usize,
                                        },
                                    ),
                                    subs.push(v),
                                ),
                            ),
                        ),
                    }
                }
            },
        }
    }
}

/// The content of a CMAP table as plain values.
pub ghost struct CmapView {
    pub version: u16,
    pub encoding_records: Seq<EncodingRecord>,
    pub subtables: Seq<SubtableView>,
}

impl View for CmapTable {
    type V = CmapView;

    open spec fn view(&self) -> CmapView {
        CmapView {
            version: self.version,
            encoding_records: self.encoding_records@,
            subtables: self.subtables@.map_values(|t: Subtable| t@),
        }
    }
}

/// The bytes of the raw encoding records.
pub open spec fn raw_records_bytes(raws: Seq<RawEncodingRecord>) -> Seq<u8>
    decreases raws.len(),
{
    if raws.len() == 0 {
        Seq::empty()
    } else {
        raw_records_bytes(raws.drop_last()) + be16(raws.last().platform_id) + be16(
            raws.last().encoding_id,
        ) + be32(raws.last().offset)
    }
}

/// The offset of the first written subtable `i`, if it was written already.
pub open spec fn written_offset(written: Seq<(usize, u32)>, i: usize) -> Option<u32>
    decreases written.len(),
{
    if written.len() == 0 {
        None
    } else {
        match written_offset(written.drop_last(), i) {
            Some(o) => Some(o),
            None => if written.last().0 == i {
                Some(written.last().1)
            } else {
                None
            },
        }
    }
}

impl CmapTable {
    /// Whether every encoding record refers to an existing subtable.
    pub open spec fn wf(self) -> bool {
        forall|k: int|
            0 <= k < self.encoding_records@.len() ==> #[trigger] self.encoding_records@[k].subtable
                < self.subtables@.len()
    }

    /// The table that the bytes `s` hold; `None` where unpacking is undefined.
    pub open spec fn spec_unpack(s: Seq<u8>) -> Option<Result<CmapView, FontError>> {
        if s.len() < 4 || s.len() < 4 + 8 * get_u16(s, 2) {
            Some(Err(FontError::UnexpectedEof))
        } else {
            let raws = supported_records(s, get_u16(s, 2) as nat);
            if raws.len() == 0 {
                Some(Err(FontError::NoSupportedCmap))
            } else {
                match spec_unpack_records(s, raws) {
                    None => None,
                    Some(Err(e)) => Some(Err(e)),
                    Some(Ok((recs, subs))) => Some(
                        Ok(CmapView { version: get_u16(s, 0), encoding_records: recs, subtables: subs }),
                    ),
                }
            }
        }
    }

    /// The raw records, subtable bytes and written subtables after packing the first `k`
    /// encoding records.
    pub open spec fn pack_records(self, k: nat) -> Result<
        (Seq<RawEncodingRecord>, Seq<u8>, Seq<(usize, u32)>),
        FontError,
    >
        decreases k,
    {
        if k == 0 {
            Ok((Seq::empty(), Seq::empty(), Seq::empty()))
        } else {
            match self.pack_records((k - 1) as nat) {
                Err(e) => Err(e),
                Ok((raws, data, written)) => {
                    let rec = self.encoding_records@[k - 1];
                    match written_offset(written, rec.subtable) {
                        Some(o) => Ok(
                            (
                                raws.push(
                                    RawEncodingRecord {
                                        platform_id: rec.platform_id,
                                        encoding_id: rec.encoding_id,
                                        offset: o,
                                    },
                                ),
                                data,
                                written,
                            ),
                        ),
                        None => match self.subtables@[rec.subtable as int].spec_pack() {
                            None => Err(FontError::CmapSubtableTooLarge),
                            Some(b) => {
                                let offset = 4 + 8 * self.encoding_records@.len() + data.len();
                                let o = if offset <= 0xFFFF_FFFF {
                                    offset as u32
                                } else {
                                    0xFFFF_FFFFu32
                                };
                                Ok(
                                    (
                                        raws.push(
                                            RawEncodingRecord {
                                                platform_id: rec.platform_id,
                                                encoding_id: rec.encoding_id,
                                                offset: o,
                                            },
                                        ),
                                        data + b,
                                        written.push((rec.subtable, o)),
                                    ),
                                )
                            },
                        },
                    }
                },
            }
        }
    }

    /// The bytes that `pack` writes, or the error it returns. Each subtable is written once, at
    /// its first use; the record count is truncated to 16 bits.
    pub open spec fn spec_pack(self) -> Result<Seq<u8>, FontError> {
        match self.pack_records(self.encoding_records@.len()) {
            Err(e) => Err(e),
            Ok((raws, data, _)) => Ok(
                be16(self.version) + be16(u16_trunc(self.encoding_records@.len() as int))
                    + raw_records_bytes(raws) + data,
            ),
        }
    }

    /// Reads a CMAP table from its bytes: the records of supported encodings whose subtables
    /// have format 4 or 12, in order; other records are ignored (see
    /// `law_cmap_ignores_unsupported_formats`); fails with `NoSupportedCmap` where none is
    /// left.
    pub fn unpack(s: &[u8]) -> (r: Result<CmapTable, FontError>)
        requires
            Self::spec_unpack(s@) is Some,
        ensures
            match r {
                Ok(t) => Self::spec_unpack(s@) == Some(Ok::<CmapView, FontError>(t@)) && t.wf(),
                Err(e) => Self::spec_unpack(s@) == Some(Err::<CmapView, FontError>(e)),
            },
    {
        match Self::try_unpack(s) {
            Some(r) => r,
            None => {
                proof {
                    assert(false);
                }
                Err(FontError::UnexpectedEof)
            },
        }
    }

    /// Reads the table as `unpack` does, or gives `None` where `unpack` may not be called: where
    /// the length header of a subtable that it reads is smaller than its header or reaches past
    /// the table.
    pub fn try_unpack(s: &[u8]) -> (r: Option<Result<CmapTable, FontError>>)
        ensures
            match Self::spec_unpack(s@) {
                None => r is None,
                Some(Ok(v)) => r matches Some(Ok(t)) && t@ == v && t.wf(),
                Some(Err(e)) => r == Some(Err::<CmapTable, FontError>(e)),
            },
    {
        let len = s.len();
        if len < 4 {
            return Some(Err(FontError::UnexpectedEof));
        }
        let version = read_u16_at(s, 0);
        let num_tables = read_u16_at(s, 2) as usize;
        if len < 4 + 8 * num_tables {
            return Some(Err(FontError::UnexpectedEof));
        }
        let mut raws: Vec<RawEncodingRecord> = Vec::new();
        let mut i: usize = 0;
        while i < num_tables
            invariant
                i <= num_tables,
                num_tables == get_u16(s@, 2),
                len == s@.len(),
                4 + 8 * num_tables <= len,
                raws@ == supported_records(s@, i as nat),
            decreases num_tables - i,
        {
            let r = RawEncodingRecord {
                platform_id: read_u16_at(s, 4 + 8 * i),
                encoding_id: read_u16_at(s, 6 + 8 * i),
                offset: read_u32_at(s, 8 + 8 * i),
            };
            if (r.platform_id == 0 && r.encoding_id == 4) || (r.platform_id == 0 && r.encoding_id
                == 3) || (r.platform_id == 3 && r.encoding_id == 10) || (r.platform_id == 3
                && r.encoding_id == 1) {
                let o = r.offset as usize;
                let readable = if o <= len && len - o >= 2 {
                    proof {
                        assert(s@.subrange(o as int, len as int)[0] == s@[o as int]);
                        assert(s@.subrange(o as int, len as int)[1] == s@[o + 1]);
                    }
                    let f = read_u16_at(s, o);
                    f == 4 || f == 12
                } else {
                    true
                };
                if readable {
                    raws.push(r);
                }
            }
            i = i + 1;
        }
        if raws.len() == 0 {
            return Some(Err(FontError::NoSupportedCmap));
        }
        let mut records: Vec<EncodingRecord> = Vec::new();
        let mut subtables: Vec<Subtable> = Vec::new();
        let mut k: usize = 0;
        assert(raws@.subrange(0, 0) =~= Seq::<RawEncodingRecord>::empty());
        assert(subtables@.map_values(|t: Subtable| t@) =~= Seq::<SubtableView>::empty());
        while k < raws.len()
            invariant
                k <= raws@.len(),
                len == s@.len(),
                4 + 8 * get_u16(s@, 2) <= len,
                raws@ == supported_records(s@, get_u16(s@, 2) as nat),
                raws@.len() > 0,
                version == get_u16(s@, 0),
                spec_unpack_records(s@, raws@.subrange(0, k as int)) == Some(
                    Ok::<(Seq<EncodingRecord>, Seq<SubtableView>), FontError>(
                        (records@, subtables@.map_values(|t: Subtable| t@)),
                    ),
                ),
                records@.len() == k,
                forall|j: int|
                    0 <= j < records@.len() ==> #[trigger] records@[j].subtable
                        < subtables@.len(),
            decreases raws@.len() - k,
        {
            let ghost pre = raws@.subrange(0, k + 1);
            assert(pre.drop_last() =~= raws@.subrange(0, k as int));
            let r = raws[k];
            let j = find_offset(&raws, r.offset, k);
            proof {
                lemma_first_with_offset_prefix(raws@, pre, r.offset, k as int);
                assert(pre.last() == r);
            }
            let ghost subs_before = subtables@.map_values(|t: Subtable| t@);
            if j < k {
                let sub = records[j].subtable;
                records.push(
                    EncodingRecord { platform_id: r.platform_id, encoding_id: r.encoding_id, subtable: sub },
                );
            } else {
                let t = if (r.offset as usize) <= len {
                    vstd::slice::slice_subrange(s, r.offset as usize, len)
                } else {
                    vstd::slice::slice_subrange(s, len, len)
                };
                assert(t@ =~= tail_from(s@, r.offset as int));
                match Subtable::try_unpack(t) {
                    None => {
                        proof {
                            assert(spec_unpack_records(s@, pre) is None);
                            if spec_unpack_records(s@, raws@) is Some {
                                lemma_unpack_records_prefix(s@, raws@, (k + 1) as nat);
                            }
                        }
                        return None;
                    },
                    Some(Ok(st)) => {
                        records.push(
                            EncodingRecord {
                                platform_id: r.platform_id,
                                encoding_id: r.encoding_id,
                                subtable: subtables.len(),
                            },
                        );
                        subtables.push(st);
                        assert(subtables@.map_values(|t: Subtable| t@) =~= subs_before.push(st@));
                    },
                    Some(Err(e)) => {
                        proof {
                            lemma_unpack_records_err(s@, raws@, (k + 1) as nat, e);
                        }
                        return Some(Err(e));
                    },
                }
            }
            k = k + 1;
        }
        assert(raws@.subrange(0, k as int) =~= raws@);
        Some(Ok(CmapTable { version, encoding_records: records, subtables }))
    }
}

/// Searches the first `k` records for one with `offset`.
fn find_offset(raws: &Vec<RawEncodingRecord>, offset: u32, k: usize) -> (j: usize)
    requires
        k <= raws@.len(),
    ensures
        j == first_with_offset(raws@, offset, k as int),
{
    let mut j: usize = 0;
    while j < k
        invariant
            j <= k,
            k <= raws@.len(),
            first_with_offset(raws@, offset, j as int) == j,
        decreases k - j,
    {
        if raws[j].offset == offset {
            assert(first_with_offset(raws@, offset, (j + 1) as int) == j);
            proof {
                lemma_first_with_offset_stable(raws@, offset, (j + 1) as int, k as int);
            }
            return j;
        }
        j = j + 1;
    }
    j
}

/// Once a record with `offset` is found before `m`, the search before any later `m2` finds it too.
proof fn lemma_first_with_offset_stable(raws: Seq<RawEncodingRecord>, offset: u32, m: int, m2: int)
    requires
        0 <= m <= m2,
        first_with_offset(raws, offset, m) < m,
    ensures
        first_with_offset(raws, offset, m2) == first_with_offset(raws, offset, m),
    decreases m2 - m,
{
    if m2 > m {
        lemma_first_with_offset_stable(raws, offset, m, m2 - 1);
    }
}

/// The search before `k` looks only at the first `k` records.
proof fn lemma_first_with_offset_prefix(
    raws: Seq<RawEncodingRecord>,
    pre: Seq<RawEncodingRecord>,
    offset: u32,
    k: int,
)
    requires
        0 <= k <= pre.len(),
        k <= raws.len(),
        forall|i: int| 0 <= i < k ==> raws[i] == pre[i],
    ensures
        first_with_offset(raws, offset, k) == first_with_offset(pre, offset, k),
    decreases k,
{
    if k > 0 {
        lemma_first_with_offset_prefix(raws, pre, offset, k - 1);
    }
}

/// An error while unpacking a prefix of the records is the error of all records.
proof fn lemma_unpack_records_err(s: Seq<u8>, raws: Seq<RawEncodingRecord>, k: nat, e: FontError)
    requires
        k <= raws.len(),
        spec_unpack_records(s, raws.subrange(0, k as int)) == Some(
            Err::<(Seq<EncodingRecord>, Seq<SubtableView>), FontError>(e),
        ),
    ensures
        spec_unpack_records(s, raws) == Some(
            Err::<(Seq<EncodingRecord>, Seq<SubtableView>), FontError>(e),
        ),
    decreases raws.len(),
{
    if k < raws.len() {
        assert(raws.drop_last().subrange(0, k as int) =~= raws.subrange(0, k as int));
        lemma_unpack_records_err(s, raws.drop_last(), k, e);
    } else {
        assert(raws.subrange(0, k as int) =~= raws);
    }
}

/// Unpacking a prefix of the raw records is defined where unpacking all of them is.
proof fn lemma_unpack_records_prefix(s: Seq<u8>, raws: Seq<RawEncodingRecord>, k: nat)
    requires
        k <= raws.len(),
        spec_unpack_records(s, raws) is Some,
    ensures
        spec_unpack_records(s, raws.subrange(0, k as int)) is Some,
    decreases raws.len(),
{
    if k < raws.len() {
        assert(raws.drop_last() == raws.subrange(0, raws.len() - 1));
        lemma_unpack_records_prefix(s, raws.drop_last(), k);
        assert(raws.drop_last().subrange(0, k as int) =~= raws.subrange(0, k as int));
    } else {
        assert(raws.subrange(0, k as int) =~= raws);
    }
}

impl CmapTable {
    /// Appends the table to `out`.
    pub fn pack(&self, out: &mut Vec<u8>) -> (r: Result<(), FontError>)
        requires
            self.wf(),
        ensures
            match self.spec_pack() {
                Ok(b) => r is Ok && final(out)@ == old(out)@ + b,
                Err(e) => r == Err::<(), FontError>(e) && final(out)@ == old(out)@,
            },
    {
        let n = self.encoding_records.len();
        let mut raws: Vec<RawEncodingRecord> = Vec::new();
        let mut data: Vec<u8> = Vec::new();
        let mut written: Vec<(usize, u32)> = Vec::new();
        let mut k: usize = 0;
        while k < n
            invariant
                k <= n,
                n == self.encoding_records@.len(),
                self.wf(),
                self.pack_records(k as nat) == Ok::<
                    (Seq<RawEncodingRecord>, Seq<u8>, Seq<(usize, u32)>),
                    FontError,
                >((raws@, data@, written@)),
                out@ == old(out)@,
            decreases n - k,
        {
            let rec = self.encoding_records[k];
            match written_lookup(&written, rec.subtable) {
                Some(o) => {
                    raws.push(
                        RawEncodingRecord {
                            platform_id: rec.platform_id,
                            encoding_id: rec.encoding_id,
                            offset: o,
                        },
                    );
                },
                None => {
                    let before = data.len();
                    let ghost data_before = data@;
                    match self.subtables[rec.subtable].pack(&mut data) {
                        Ok(()) => {},
                        Err(e) => {
                            proof {
                                self.lemma_pack_records_err((k + 1) as nat, e);
                            }
                            return Err(e);
                        },
                    }
                    let total: u128 = 4 + 8 * (n as u128) + (before as u128);
                    let o: u32 = if total <= 0xFFFF_FFFF {
                        total as u32
                    } else {
                        0xFFFF_FFFF
                    };
                    raws.push(
                        RawEncodingRecord {
                            platform_id: rec.platform_id,
                            encoding_id: rec.encoding_id,
                            offset: o,
                        },
                    );
                    written.push((rec.subtable, o));
                },
            }
            k = k + 1;
        }
        let ghost start = out@;
        write_u16(out, self.version);
        write_u16(out, (n % 0x10000) as u16);
        let ghost mid = out@;
        let mut k: usize = 0;
        while k < raws.len()
            invariant
                k <= raws@.len(),
                out@ == mid + raw_records_bytes(raws@.subrange(0, k as int)),
            decreases raws@.len() - k,
        {
            let r = raws[k];
            write_u16(out, r.platform_id);
            write_u16(out, r.encoding_id);
            write_u32(out, r.offset);
            k = k + 1;
            assert(raws@.subrange(0, k as int).drop_last() =~= raws@.subrange(0, k - 1));
            assert(out@ =~= mid + raw_records_bytes(raws@.subrange(0, k as int)));
        }
        assert(raws@.subrange(0, k as int) =~= raws@);
        write_bytes(out, data.as_slice());
        assert(final(out)@ =~= old(out)@ + self.spec_pack().unwrap());
        Ok(())
    }

    /// An error while packing the first `k` records is the error of packing all of them.
    proof fn lemma_pack_records_err(self, k: nat, e: FontError)
        requires
            k <= self.encoding_records@.len(),
            self.pack_records(k) == Err::<(Seq<RawEncodingRecord>, Seq<u8>, Seq<(usize, u32)>), FontError>(e),
        ensures
            self.pack_records(self.encoding_records@.len()) == Err::<
                (Seq<RawEncodingRecord>, Seq<u8>, Seq<(usize, u32)>),
                FontError,
            >(e),
        decreases self.encoding_records@.len() - k,
    {
        if k < self.encoding_records@.len() {
            self.lemma_pack_records_err(k + 1, e);
        }
    }

    /// Whether `subset` may be called with `glyphs`.
    pub open spec fn subset_defined(self, glyphs: Seq<Glyph>) -> bool {
        forall|k: int| 0 <= k < self.subtables@.len() ==> #[trigger] self.subtables@[k].subset_defined(glyphs)
    }

    /// What `subset` returns for `glyphs`: every subtable subsetted, the records unchanged.
    pub open spec fn subset_result(self, glyphs: Seq<Glyph>, r: CmapTable) -> bool {
        &&& r.version == self.version
        &&& r.encoding_records@ == self.encoding_records@
        &&& r.subtables@.len() == self.subtables@.len()
        &&& forall|k: int|
            0 <= k < self.subtables@.len() ==> #[trigger] self.subtables@[k].subset_result(
                glyphs,
                r.subtables@[k],
            )
    }

    /// The subset of the table for `glyphs`; each subtable is subsetted once.
    pub fn subset(&self, glyphs: &[Glyph]) -> (r: CmapTable)
        requires
            self.subset_defined(glyphs@),
        ensures
            self.subset_result(glyphs@, r),
            self.wf() ==> r.wf(),
    {
        let mut subtables: Vec<Subtable> = Vec::new();
        let mut k: usize = 0;
        while k < self.subtables.len()
            invariant
                k <= self.subtables@.len(),
                self.subset_defined(glyphs@),
                subtables@.len() == k,
                forall|j: int|
                    0 <= j < k ==> #[trigger] self.subtables@[j].subset_result(
                        glyphs@,
                        subtables@[j],
                    ),
            decreases self.subtables@.len() - k,
        {
            assert(self.subtables@[k as int].subset_defined(glyphs@));
            subtables.push(self.subtables[k].subset(glyphs));
            k = k + 1;
        }
        let mut records: Vec<EncodingRecord> = Vec::new();
        let mut k: usize = 0;
        while k < self.encoding_records.len()
            invariant
                k <= self.encoding_records@.len(),
                records@ == self.encoding_records@.subrange(0, k as int),
            decreases self.encoding_records@.len() - k,
        {
            records.push(self.encoding_records[k]);
            k = k + 1;
            assert(records@ =~= self.encoding_records@.subrange(0, k as int));
        }
        assert(records@ =~= self.encoding_records@);
        CmapTable { version: self.version, encoding_records: records, subtables }
    }

    /// The glyph id that the first `k` records of priority `rank` give for `codepoint`: the
    /// first one found.
    pub open spec fn find_in_rank(self, codepoint: u32, rank: int, k: nat) -> Option<u16>
        decreases k,
    {
        if k == 0 {
            None
        } else {
            match self.find_in_rank(codepoint, rank, (k - 1) as nat) {
                Some(g) => Some(g),
                None => {
                    let rec = self.encoding_records@[k - 1];
                    if encoding_rank(rec.platform_id, rec.encoding_id) == rank {
                        self.subtables@[rec.subtable as int].spec_glyph_id(codepoint)
                    } else {
                        None
                    }
                },
            }
        }
    }

    /// The glyph id of `codepoint` in the records of priority `rank` or lower priority.
    pub open spec fn find_from_rank(self, codepoint: u32, rank: int) -> Option<u16>
        decreases 4 - rank,
    {
        if rank < 0 || rank >= 4 {
            None
        } else {
            match self.find_in_rank(codepoint, rank, self.encoding_records@.len()) {
                Some(g) => Some(g),
                None => self.find_from_rank(codepoint, rank + 1),
            }
        }
    }

    /// The glyph id of `codepoint`: the records are tried by their encoding, (0, 4), (3, 10),
    /// (0, 3), then (3, 1), those of one encoding in order; the first that maps it gives it.
    pub open spec fn lookup(self, codepoint: u32) -> Option<u16> {
        self.find_from_rank(codepoint, 0)
    }

    /// No record of a priority before `rank` maps `codepoint`.
    pub open spec fn none_before(self, codepoint: u32, rank: int) -> bool
        decreases rank,
    {
        if rank <= 0 {
            true
        } else {
            self.none_before(codepoint, rank - 1) && self.find_in_rank(
                codepoint,
                rank - 1,
                self.encoding_records@.len(),
            ) is None
        }
    }

    /// Whether the lookup of `codepoint` is defined in every record that it reaches.
    pub open spec fn lookup_defined(self, codepoint: u32) -> bool {
        forall|rank: int, k: int|
            0 <= rank < 4 && 0 <= k < self.encoding_records@.len() && self.none_before(codepoint, rank)
                && #[trigger] self.find_in_rank(codepoint, rank, k as nat) is None && encoding_rank(
                self.encoding_records@[k].platform_id,
                self.encoding_records@[k].encoding_id,
            ) == rank ==> self.subtables@[self.encoding_records@[k].subtable as int].lookup_defined(codepoint)
    }

    /// The glyph id of `codepoint`, by the records in the order of their encoding's priority.
    pub fn glyph_id(&self, codepoint: u32) -> (r: Option<u16>)
        requires
            self.wf(),
            self.lookup_defined(codepoint),
        ensures
            r == self.lookup(codepoint),
    {
        let mut rank: usize = 0;
        while rank < 4
            invariant
                rank <= 4,
                self.wf(),
                self.lookup_defined(codepoint),
                self.none_before(codepoint, rank as int),
            decreases 4 - rank,
        {
            let mut k: usize = 0;
            while k < self.encoding_records.len()
                invariant
                    k <= self.encoding_records@.len(),
                    rank < 4,
                    self.wf(),
                    self.lookup_defined(codepoint),
                    self.none_before(codepoint, rank as int),
                    self.find_in_rank(codepoint, rank as int, k as nat) is None,
                decreases self.encoding_records@.len() - k,
            {
                let rec = self.encoding_records[k];
                let ghost ki: int = k as int;
                if rank_of(rec.platform_id, rec.encoding_id) == rank {
                    assert(self.find_in_rank(codepoint, rank as int, ki as nat) is None);
                    assert(self.subtables@[self.encoding_records@[ki].subtable as int].lookup_defined(codepoint));
                    match self.subtables[rec.subtable].glyph_id(codepoint) {
                        Some(g) => {
                            proof {
                                self.lemma_find_in_rank_stable(codepoint, rank as int, (k + 1) as nat, self.encoding_records@.len());
                                self.lemma_from_rank(codepoint, rank as int);
                            }
                            return Some(g);
                        },
                        None => {},
                    }
                }
                k = k + 1;
            }
            rank = rank + 1;
        }
        proof {
            self.lemma_from_rank(codepoint, 4);
        }
        None
    }

    proof fn lemma_find_in_rank_stable(self, codepoint: u32, rank: int, k: nat, m: nat)
        requires
            k <= m,
            self.find_in_rank(codepoint, rank, k) is Some,
        ensures
            self.find_in_rank(codepoint, rank, m) == self.find_in_rank(codepoint, rank, k),
        decreases m - k,
    {
        if m > k {
            self.lemma_find_in_rank_stable(codepoint, rank, k, (m - 1) as nat);
        }
    }

    proof fn lemma_from_rank(self, codepoint: u32, rank: int)
        requires
            0 <= rank <= 4,
            self.none_before(codepoint, rank),
        ensures
            self.lookup(codepoint) == self.find_from_rank(codepoint, rank),
        decreases rank,
    {
        if rank > 0 {
            self.lemma_from_rank(codepoint, rank - 1);
        }
    }
}

/// The offset of subtable `i`, if it was written already.
fn written_lookup(written: &Vec<(usize, u32)>, i: usize) -> (r: Option<u32>)
    ensures
        r == written_offset(written@, i),
{
    let mut k: usize = 0;
    while k < written.len()
        invariant
            k <= written@.len(),
            written_offset(written@.subrange(0, k as int), i) is None,
        decreases written@.len() - k,
    {
        assert(written@.subrange(0, k + 1).drop_last() =~= written@.subrange(0, k as int));
        if written[k].0 == i {
            proof {
                lemma_written_offset_prefix(written@, (k + 1) as nat);
            }
            return Some(written[k].1);
        }
        k = k + 1;
    }
    assert(written@.subrange(0, k as int) =~= written@);
    None
}

proof fn lemma_written_offset_prefix(written: Seq<(usize, u32)>, k: nat)
    requires
        k <= written.len(),
        written_offset(written.subrange(0, k as int), written[k - 1].0) is Some,
    ensures
        written_offset(written, written[k - 1].0) == written_offset(written.subrange(0, k as int), written[k - 1].0),
    decreases written.len() - k,
{
    if k < written.len() {
        assert(written.drop_last().subrange(0, k as int) =~= written.subrange(0, k as int));
        lemma_written_offset_prefix(written.drop_last(), k);
    } else {
        assert(written.subrange(0, k as int) =~= written);
    }
}


/// The positions of the subtables in the order in which the records first use them.
pub open spec fn first_uses(recs: Seq<EncodingRecord>) -> Seq<usize>
    decreases recs.len(),
{
    if recs.len() == 0 {
        Seq::empty()
    } else {
        let f = first_uses(recs.drop_last());
        if f.contains(recs.last().subtable) {
            f
        } else {
            f.push(recs.last().subtable)
        }
    }
}

/// The bytes of the first `m` subtables, each as `pack` writes it, one after another.
pub open spec fn subtables_bytes(subs: Seq<Subtable>, m: nat) -> Seq<u8>
    decreases m,
{
    if m == 0 || m > subs.len() {
        Seq::empty()
    } else {
        subtables_bytes(subs, (m - 1) as nat) + subs[m - 1].spec_pack().unwrap()
    }
}

proof fn lemma_first_uses_contains(recs: Seq<EncodingRecord>, x: usize)
    ensures
        first_uses(recs).contains(x) <==> exists|i: int| 0 <= i < recs.len() && recs[i].subtable == x,
    decreases recs.len(),
{
    if recs.len() > 0 {
        let d = recs.drop_last();
        lemma_first_uses_contains(d, x);
        let f = first_uses(d);
        if exists|i: int| 0 <= i < recs.len() && recs[i].subtable == x {
            let i = choose|i: int| 0 <= i < recs.len() && recs[i].subtable == x;
            if i < d.len() {
                assert(d[i] == recs[i]);
                assert(f.contains(x));
                if !f.contains(recs.last().subtable) {
                    let t = choose|t: int| 0 <= t < f.len() && f[t] == x;
                    assert(f.push(recs.last().subtable)[t] == x);
                }
            } else {
                if !f.contains(recs.last().subtable) {
                    assert(f.push(recs.last().subtable)[f.len() as int] == x);
                }
            }
        } else {
            assert forall|i: int| 0 <= i < d.len() implies d[i].subtable != x by {
                assert(d[i] == recs[i]);
            }
            assert(!f.contains(x));
            if !f.contains(recs.last().subtable) {
                assert(recs.last().subtable != x);
                assert(!f.push(recs.last().subtable).contains(x)) by {
                    if f.push(recs.last().subtable).contains(x) {
                        let t = choose|t: int| 0 <= t < f.len() + 1 && f.push(recs.last().subtable)[t] == x;
                        if t < f.len() {
                            assert(f[t] == x);
                        }
                    }
                }
            }
        }
    } else {
        assert(first_uses(recs) =~= Seq::<usize>::empty());
    }
}

/// The first uses of a prefix of the records begin the first uses of all of them.
proof fn lemma_first_uses_prefix(recs: Seq<EncodingRecord>, k: int)
    requires
        0 <= k <= recs.len(),
    ensures
        first_uses(recs.take(k)).len() <= first_uses(recs).len(),
        first_uses(recs).take(first_uses(recs.take(k)).len() as int) == first_uses(recs.take(k)),
    decreases recs.len() - k,
{
    if k == recs.len() {
        assert(recs.take(k) =~= recs);
        assert(first_uses(recs).take(first_uses(recs).len() as int) =~= first_uses(recs));
    } else {
        lemma_first_uses_prefix(recs, k + 1);
        assert(recs.take(k + 1).drop_last() =~= recs.take(k));
        let a = first_uses(recs.take(k));
        let b = first_uses(recs.take(k + 1));
        assert(b.take(a.len() as int) =~= a);
        assert(first_uses(recs).take(a.len() as int) =~= b.take(a.len() as int));
    }
}

proof fn lemma_subtables_bytes_prefix(subs: Seq<Subtable>, a: nat, b: nat)
    requires
        a <= b <= subs.len(),
        forall|i: int| 0 <= i < subs.len() ==> (#[trigger] subs[i]).spec_pack() is Some,
    ensures
        subtables_bytes(subs, a).len() + (b - a) * 4 <= subtables_bytes(subs, b).len(),
        subtables_bytes(subs, b).subrange(0, subtables_bytes(subs, a).len() as int) == subtables_bytes(subs, a),
    decreases b - a,
{
    if a < b {
        lemma_subtables_bytes_prefix(subs, a, (b - 1) as nat);
        let x = subtables_bytes(subs, (b - 1) as nat);
        let y = subs[b - 1].spec_pack().unwrap();
        assert(y.len() >= 4);
        assert(subtables_bytes(subs, b) == x + y);
        assert((x + y).subrange(0, subtables_bytes(subs, a).len() as int) =~= x.subrange(
            0,
            subtables_bytes(subs, a).len() as int,
        ));
    } else {
        assert(subtables_bytes(subs, b).subrange(0, subtables_bytes(subs, a).len() as int) =~= subtables_bytes(subs, a));
    }
}


impl CmapTable {
    /// Where `pack` writes the subtable `s` of a table in canonical form: after the header, the
    /// records and the subtables before it.
    pub open spec fn subtable_offset(self, s: nat) -> int {
        (4 + 8 * self.encoding_records@.len() + subtables_bytes(self.subtables@, s).len()) as int
    }

    /// The table is one that reading gives back as it is: its records refer to existing
    /// subtables, each well formed, and use them in their order, every one of them; there are
    /// between 1 and `u16::MAX` records, all of supported encodings; the table fits into
    /// `u32::MAX` bytes.
    pub open spec fn is_canonical(self) -> bool {
        let n = self.encoding_records@.len();
        let subs = self.subtables@;
        &&& self.wf()
        &&& forall|i: int| 0 <= i < subs.len() ==> (#[trigger] subs[i]).wf()
        &&& 1 <= n <= 0xFFFF
        &&& forall|k: int|
            0 <= k < n ==> is_supported_encoding(
                (#[trigger] self.encoding_records@[k]).platform_id,
                self.encoding_records@[k].encoding_id,
            )
        &&& first_uses(self.encoding_records@) == Seq::new(subs.len(), |i: int| i as usize)
        &&& 4 + 8 * n + subtables_bytes(subs, subs.len()).len() <= u32::MAX
    }

    /// The raw record that `pack` writes for the record `r` of a table in canonical form.
    pub open spec fn raw_of(self, r: EncodingRecord) -> RawEncodingRecord {
        RawEncodingRecord {
            platform_id: r.platform_id,
            encoding_id: r.encoding_id,
            offset: self.subtable_offset(r.subtable as nat) as u32,
        }
    }

    /// Packing the first `k` records of a table in canonical form: their raw records, the
    /// subtables used so far, in order, and where each was written.
    proof fn lemma_pack_records_canonical(self, k: nat)
        requires
            self.is_canonical(),
            k <= self.encoding_records@.len(),
        ensures
            self.pack_records(k) is Ok,
            ({
                let (raws, data, written) = self.pack_records(k)->Ok_0;
                let m = first_uses(self.encoding_records@.take(k as int)).len();
                &&& m <= self.subtables@.len()
                &&& first_uses(self.encoding_records@.take(k as int)) == Seq::new(m, |i: int| i as usize)
                &&& raws.len() == k
                &&& forall|i: int| 0 <= i < k ==> #[trigger] raws[i] == self.raw_of(self.encoding_records@[i])
                &&& data == subtables_bytes(self.subtables@, m)
                &&& forall|x: usize| #[trigger] written_offset(written, x) == if x < m {
                    Some(self.subtable_offset(x as nat) as u32)
                } else {
                    None
                }
            }),
        decreases k,
    {
        let recs = self.encoding_records@;
        let subs = self.subtables@;
        let n = recs.len();
        lemma_first_uses_prefix(recs, k as int);
        let fk = first_uses(recs.take(k as int));
        let m = fk.len();
        assert(fk == Seq::new(m, |i: int| i as usize)) by {
            assert forall|i: int| 0 <= i < m implies fk[i] == i as usize by {
                assert(first_uses(recs).take(m as int)[i] == first_uses(recs)[i]);
            }
            assert(fk =~= Seq::new(m, |i: int| i as usize));
        }
        if k == 0 {
            assert(recs.take(0) =~= Seq::<EncodingRecord>::empty());
            assert(subtables_bytes(subs, 0) =~= Seq::<u8>::empty());
        } else {
            let j = (k - 1) as nat;
            self.lemma_pack_records_canonical(j);
            let (raws, data, written) = self.pack_records(j)->Ok_0;
            let fj = first_uses(recs.take(j as int));
            let mj = fj.len();
            let rec = recs[j as int];
            let st = rec.subtable;
            assert(recs.take(k as int).drop_last() =~= recs.take(j as int));
            assert(recs.take(k as int).last() == rec);
            assert(st < subs.len());
            assert(fj.contains(st) <==> st < mj) by {
                if st < mj {
                    assert(fj[st as int] == st);
                }
            }
            lemma_subtables_bytes_prefix(subs, mj, subs.len());
            if st < mj {
                assert(fk == fj);
                assert(written_offset(written, st) == Some(self.subtable_offset(st as nat) as u32));
            } else {
                assert(fk == fj.push(st));
                assert(fk[mj as int] == mj as usize);
                assert(st == mj);
                assert(written_offset(written, st) is None);
                assert(subs[st as int].wf());
                lemma_subtable_pack_len(subs[st as int]);
                let b = subs[st as int].spec_pack().unwrap();
                assert(subtables_bytes(subs, (mj + 1) as nat) == data + b);
                let (raws2, data2, written2) = self.pack_records(k)->Ok_0;
                let offset = 4 + 8 * n + data.len();
                assert(offset == self.subtable_offset(st as nat));
                assert(offset <= u32::MAX);
                let o = self.subtable_offset(st as nat) as u32;
                assert(written2 == written.push((st, o)));
                assert(m == mj + 1);
                assert forall|x: usize| #[trigger] written_offset(written2, x) == if x < m {
                    Some(self.subtable_offset(x as nat) as u32)
                } else {
                    None
                } by {
                    assert(written2.drop_last() =~= written);
                    assert(written2.last() == (st, o));
                    if x < mj {
                        assert(written_offset(written, x) == Some(self.subtable_offset(x as nat) as u32));
                    } else if x == mj {
                        assert(written_offset(written, x) is None);
                    } else {
                        assert(written_offset(written, x) is None);
                    }
                }
            }
            let (raws2, data2, written2) = self.pack_records(k)->Ok_0;
            assert forall|i: int| 0 <= i < k implies #[trigger] raws2[i] == self.raw_of(recs[i]) by {
                if i < j {
                    assert(raws2[i] == raws[i]);
                }
            }
        }
    }
}

/// A subtable that packs has at least its 4-byte header.
proof fn lemma_subtable_pack_len(t: Subtable)
    requires
        t.spec_pack() is Some,
    ensures
        t.spec_pack().unwrap().len() >= 4,
{
}


/// The bytes of the raw record `i` stand at `8 * i`.
proof fn lemma_raw_records_bytes(raws: Seq<RawEncodingRecord>, i: int)
    requires
        0 <= i < raws.len(),
    ensures
        raw_records_bytes(raws).len() == 8 * raws.len(),
        raw_records_bytes(raws).subrange(8 * i, 8 * i + 8) == be16(raws[i].platform_id) + be16(
            raws[i].encoding_id,
        ) + be32(raws[i].offset),
    decreases raws.len(),
{
    let d = raws.drop_last();
    lemma_raw_records_bytes_len(d);
    let b = raw_records_bytes(raws);
    if i < d.len() {
        lemma_raw_records_bytes(d, i);
        assert(d[i] == raws[i]);
        assert(b.subrange(8 * i, 8 * i + 8) =~= raw_records_bytes(d).subrange(8 * i, 8 * i + 8));
    } else {
        assert(b.subrange(8 * i, 8 * i + 8) =~= be16(raws[i].platform_id) + be16(raws[i].encoding_id) + be32(
            raws[i].offset,
        ));
    }
}

proof fn lemma_raw_records_bytes_len(raws: Seq<RawEncodingRecord>)
    ensures
        raw_records_bytes(raws).len() == 8 * raws.len(),
    decreases raws.len(),
{
    if raws.len() > 0 {
        lemma_raw_records_bytes_len(raws.drop_last());
    }
}

/// Reading the raw record `i` of a table whose header and records are `raws` gives it back.
proof fn lemma_raw_record_at(head: Seq<u8>, raws: Seq<RawEncodingRecord>, data: Seq<u8>, i: int)
    requires
        head.len() == 4,
        0 <= i < raws.len(),
    ensures
        raw_record_at(head + raw_records_bytes(raws) + data, i) == raws[i],
{
    let s = head + raw_records_bytes(raws) + data;
    lemma_raw_records_bytes(raws, i);
    let r = raws[i];
    let rb = raw_records_bytes(raws);
    let x = be16(r.platform_id) + be16(r.encoding_id) + be32(r.offset);
    let blk = s.subrange(4 + 8 * i, 12 + 8 * i);
    assert(blk =~= rb.subrange(8 * i, 8 * i + 8));
    assert(blk == x);
    assert(s.subrange(4 + 8 * i, 6 + 8 * i) =~= blk.subrange(0, 2));
    assert(s.subrange(6 + 8 * i, 8 + 8 * i) =~= blk.subrange(2, 4));
    assert(s.subrange(8 + 8 * i, 12 + 8 * i) =~= blk.subrange(4, 8));
    assert(x.subrange(0, 2) =~= be16(r.platform_id));
    assert(x.subrange(2, 4) =~= be16(r.encoding_id));
    assert(x.subrange(4, 8) =~= be32(r.offset));
    lemma_get_u16(s, 4 + 8 * i, r.platform_id);
    lemma_get_u16(s, 6 + 8 * i, r.encoding_id);
    lemma_get_u32(s, 8 + 8 * i, r.offset);
}

/// Where every raw record is of a supported encoding, reading the first `k` gives them all.
proof fn lemma_supported_all(head: Seq<u8>, raws: Seq<RawEncodingRecord>, data: Seq<u8>, k: nat)
    requires
        head.len() == 4,
        k <= raws.len(),
        forall|i: int| 0 <= i < raws.len() ==> is_supported_encoding(
            (#[trigger] raws[i]).platform_id,
            raws[i].encoding_id,
        ),
        forall|i: int| 0 <= i < raws.len() ==> readable_format(head + raw_records_bytes(raws) + data, (#[trigger] raws[i]).offset),
    ensures
        supported_records(head + raw_records_bytes(raws) + data, k) == raws.take(k as int),
    decreases k,
{
    if k == 0 {
        assert(raws.take(0) =~= Seq::<RawEncodingRecord>::empty());
    } else {
        lemma_supported_all(head, raws, data, (k - 1) as nat);
        lemma_raw_record_at(head, raws, data, k - 1);
        assert(raws.take(k as int) =~= raws.take(k - 1).push(raws[k - 1]));
    }
}

/// What `first_with_offset` finds: a record before `k` with the offset, or `k` where none has it.
proof fn lemma_first_with_offset_spec(raws: Seq<RawEncodingRecord>, offset: u32, k: int)
    requires
        0 <= k <= raws.len(),
    ensures
        0 <= first_with_offset(raws, offset, k) <= k,
        first_with_offset(raws, offset, k) < k ==> raws[first_with_offset(raws, offset, k)].offset == offset,
        first_with_offset(raws, offset, k) == k ==> forall|i: int| 0 <= i < k ==> raws[i].offset != offset,
    decreases k,
{
    if k > 0 {
        lemma_first_with_offset_spec(raws, offset, k - 1);
    }
}

/// A subtable that `pack` wrote reads back whatever bytes follow it.
proof fn lemma_subtable_unpack_tail(t: Subtable, rest: Seq<u8>)
    requires
        t.wf(),
    ensures
        Subtable::spec_unpack(t.spec_pack().unwrap() + rest) == Some(Ok::<SubtableView, FontError>(t@)),
{
    t.lemma_pack_unpack();
    let b = t.spec_pack().unwrap();
    let c = b + rest;
    assert(b.len() >= 4);
    assert(c.subrange(0, b.len() as int) =~= b);
    assert(get_u16(c, 0) == get_u16(b, 0));
    assert(get_u16(c, 2) == get_u16(b, 2));
    if get_u16(b, 0) == 4 {
        let length = get_u16(b, 2) as int;
        assert(c.subrange(4, length) =~= b.subrange(4, length));
    } else {
        assert(b.len() >= 8);
        assert(c[4] == b[4] && c[5] == b[5] && c[6] == b[6] && c[7] == b[7]);
        assert(get_u32(c, 4) == get_u32(b, 4));
        let length = get_u32(b, 4) as int;
        assert(c.subrange(8, length) =~= b.subrange(8, length));
    }
}


impl CmapTable {
    /// The bytes that `pack` writes for a table in canonical form.
    pub open spec fn canonical_bytes(self) -> Seq<u8> {
        let (raws, data, _) = self.pack_records(self.encoding_records@.len())->Ok_0;
        be16(self.version) + be16(u16_trunc(self.encoding_records@.len() as int)) + raw_records_bytes(raws) + data
    }

    /// The table's bytes from where the subtable `x` stands: that subtable, then others.
    proof fn lemma_tail_subtable(self, x: nat)
        requires
            self.is_canonical(),
            x < self.subtables@.len(),
        ensures
            self.subtable_offset(x) <= self.canonical_bytes().len(),
            exists|rest: Seq<u8>| tail_from(self.canonical_bytes(), self.subtable_offset(x)) == self.subtables@[x as int].spec_pack().unwrap() + rest,
    {
        let n = self.encoding_records@.len();
        let subs = self.subtables@;
        self.lemma_pack_records_canonical(n);
        assert(self.encoding_records@.take(n as int) =~= self.encoding_records@);
        let (raws, data, _) = self.pack_records(n)->Ok_0;
        assert(data == subtables_bytes(subs, subs.len()));
        lemma_raw_records_bytes_len(raws);
        let s = self.canonical_bytes();
        lemma_subtables_bytes_prefix(subs, x, subs.len());
        lemma_subtables_bytes_prefix(subs, x + 1, subs.len());
        let a = subtables_bytes(subs, x);
        let b = subs[x as int].spec_pack().unwrap();
        assert(subtables_bytes(subs, x + 1) == a + b);
        let off = self.subtable_offset(x);
        assert(off == 4 + 8 * n + a.len());
        let rest = data.subrange((a.len() + b.len()) as int, data.len() as int);
        assert(data.subrange(0, (a.len() + b.len()) as int) == a + b);
        assert(tail_from(s, off) =~= b + rest) by {
            assert forall|i: int| 0 <= i < s.len() - off implies #[trigger] tail_from(s, off)[i] == (b + rest)[i] by {
                assert(tail_from(s, off)[i] == data[a.len() + i]);
                if i < b.len() {
                    assert((a + b)[a.len() + i] == b[i]);
                }
            }
        }
    }

    /// In canonical form, the subtables stand at increasing offsets.
    proof fn lemma_offsets_increase(self, x: nat, y: nat)
        requires
            self.is_canonical(),
            x < y <= self.subtables@.len(),
        ensures
            self.subtable_offset(x) < self.subtable_offset(y),
    {
        lemma_subtables_bytes_prefix(self.subtables@, x, y);
    }

    /// Reading the first `k` raw records of a table in canonical form gives its first `k`
    /// records and the subtables they use.
    #[verifier::spinoff_prover]
    #[verifier::rlimit(100)]
    proof fn lemma_unpack_records_canonical(self, k: nat)
        requires
            self.is_canonical(),
            k <= self.encoding_records@.len(),
        ensures
            ({
                let n = self.encoding_records@.len();
                let raws = self.pack_records(n)->Ok_0.0;
                let m = first_uses(self.encoding_records@.take(k as int)).len();
                spec_unpack_records(self.canonical_bytes(), raws.take(k as int)) == Some(
                    Ok::<(Seq<EncodingRecord>, Seq<SubtableView>), FontError>(
                        (self.encoding_records@.take(k as int), self@.subtables.take(m as int)),
                    ),
                )
            }),
        decreases k,
    {
        let n = self.encoding_records@.len();
        let recs = self.encoding_records@;
        let subs = self.subtables@;
        let views = self@.subtables;
        self.lemma_pack_records_canonical(n);
        assert(recs.take(n as int) =~= recs);
        let raws = self.pack_records(n)->Ok_0.0;
        let s = self.canonical_bytes();
        self.lemma_pack_records_canonical(k);
        let m = first_uses(recs.take(k as int)).len();
        if k == 0 {
            assert(raws.take(0) =~= Seq::<RawEncodingRecord>::empty());
            assert(recs.take(0) =~= Seq::<EncodingRecord>::empty());
            assert(views.take(0) =~= Seq::<SubtableView>::empty());
        } else {
            let j = (k - 1) as nat;
            self.lemma_unpack_records_canonical(j);
            self.lemma_pack_records_canonical(j);
            let mj = first_uses(recs.take(j as int)).len();
            let rr = raws.take(k as int);
            assert(rr.drop_last() =~= raws.take(j as int));
            let r = rr.last();
            assert(r == raws[j as int]);
            let rec = recs[j as int];
            let st = rec.subtable;
            assert(r == self.raw_of(rec));
            assert(recs.take(k as int) =~= recs.take(j as int).push(rec));
            assert(recs.take(k as int).drop_last() =~= recs.take(j as int));
            lemma_first_with_offset_spec(rr, r.offset, j as int);
            let f = first_with_offset(rr, r.offset, j as int);
            lemma_first_uses_contains(recs.take(j as int), st);
            lemma_subtables_bytes_prefix(subs, st as nat, subs.len());
            assert(self.subtable_offset(st as nat) <= u32::MAX);
            if f < j {
                let rj = recs[f];
                assert(rr[f] == raws[f]);
                assert(raws[f] == self.raw_of(rj));
                assert(rj.subtable < subs.len());
                lemma_subtables_bytes_prefix(subs, rj.subtable as nat, subs.len());
                assert(rj.subtable == st) by {
                    if rj.subtable < st {
                        self.lemma_offsets_increase(rj.subtable as nat, st as nat);
                    } else if rj.subtable > st {
                        self.lemma_offsets_increase(st as nat, rj.subtable as nat);
                    }
                }
                assert(recs.take(j as int)[f] == rj);
                assert(first_uses(recs.take(j as int)).contains(st));
                assert(m == mj);
            } else {
                assert forall|i: int| 0 <= i < j implies recs.take(j as int)[i].subtable != st by {
                    assert(rr[i] == raws[i]);
                    assert(raws[i] == self.raw_of(recs[i]));
                    let ri = recs[i];
                    assert(ri.subtable < subs.len());
                    lemma_subtables_bytes_prefix(subs, ri.subtable as nat, subs.len());
                    if ri.subtable < st {
                        self.lemma_offsets_increase(ri.subtable as nat, st as nat);
                    } else if ri.subtable > st {
                        self.lemma_offsets_increase(st as nat, ri.subtable as nat);
                    }
                }
                assert(!first_uses(recs.take(j as int)).contains(st));
                assert(first_uses(recs.take(k as int)) == first_uses(recs.take(j as int)).push(st));
                assert(first_uses(recs.take(k as int))[mj as int] == mj as usize);
                assert(st == mj);
                assert(m == mj + 1);
                self.lemma_tail_subtable(st as nat);
                let rest = choose|rest: Seq<u8>| tail_from(s, self.subtable_offset(st as nat)) == subs[st as int].spec_pack().unwrap() + rest;
                assert(subs[st as int].wf());
                lemma_subtable_unpack_tail(subs[st as int], rest);
                assert(views.take(mj as int).len() == mj);
                assert(views.take(m as int) =~= views.take(mj as int).push(subs[st as int]@));
            }
        }
    }

    /// The subtable `x` of the packed table has a format that the reader reads.
    proof fn lemma_readable(self, x: nat)
        requires
            self.is_canonical(),
            x < self.subtables@.len(),
        ensures
            readable_format(self.canonical_bytes(), self.subtable_offset(x) as u32),
    {
        self.lemma_tail_subtable(x);
        let s = self.canonical_bytes();
        let off = self.subtable_offset(x);
        let rest = choose|rest: Seq<u8>| tail_from(s, off) == self.subtables@[x as int].spec_pack().unwrap() + rest;
        let t = tail_from(s, off);
        assert(self.subtables@[x as int].wf());
        match self.subtables@[x as int] {
            Subtable::Format4(_) => {
                assert(t.subrange(0, 2) =~= be16(4));
                lemma_get_u16(t, 0, 4);
            },
            Subtable::Format12(_) => {
                assert(t.subrange(0, 2) =~= be16(12));
                lemma_get_u16(t, 0, 12);
            },
        }
        lemma_subtables_bytes_prefix(self.subtables@, x, self.subtables@.len());
        assert(off <= u32::MAX);
        assert(off as u32 as int == off);
    }

    /// Reading back what `pack` wrote gives the same table, where the table is in canonical
    /// form: its records refer to existing subtables, each well formed, and use them in their
    /// order, every one of them; there are between 1 and `u16::MAX` records, all of supported
    /// encodings; the table fits into `u32::MAX` bytes.
    #[verifier::spinoff_prover]
    #[verifier::rlimit(100)]
    pub proof fn law_cmap_round_trip(self)
        requires
            self.is_canonical(),
        ensures
            self.spec_pack() == Ok::<Seq<u8>, FontError>(self.canonical_bytes()),
            Self::spec_unpack(self.canonical_bytes()) == Some(Ok::<CmapView, FontError>(self@)),
    {
        let n = self.encoding_records@.len();
        let recs = self.encoding_records@;
        let subs = self.subtables@;
        self.lemma_pack_records_canonical(n);
        assert(recs.take(n as int) =~= recs);
        let (raws, data, _) = self.pack_records(n)->Ok_0;
        let head = be16(self.version) + be16(u16_trunc(n as int));
        let s = self.canonical_bytes();
        assert(s == head + raw_records_bytes(raws) + data);
        lemma_raw_records_bytes_len(raws);
        assert(s.subrange(0, 2) =~= be16(self.version));
        assert(s.subrange(2, 4) =~= be16(u16_trunc(n as int)));
        lemma_get_u16(s, 0, self.version);
        lemma_get_u16(s, 2, u16_trunc(n as int));
        assert(u16_trunc(n as int) == n);
        assert forall|i: int| 0 <= i < raws.len() implies is_supported_encoding(
            (#[trigger] raws[i]).platform_id,
            raws[i].encoding_id,
        ) by {
            assert(raws[i] == self.raw_of(recs[i]));
            assert(is_supported_encoding(recs[i].platform_id, recs[i].encoding_id));
        }
        assert forall|i: int| 0 <= i < raws.len() implies readable_format(s, (#[trigger] raws[i]).offset) by {
            assert(raws[i] == self.raw_of(recs[i]));
            self.lemma_readable(recs[i].subtable as nat);
        }
        lemma_supported_all(head, raws, data, n);
        assert(raws.take(n as int) =~= raws);
        self.lemma_unpack_records_canonical(n);
        assert(first_uses(recs).len() == subs.len());
        assert(self@.subtables.take(subs.len() as int) =~= self@.subtables);
    }
}

/// The records that the reader keeps have supported encodings and subtables of readable
/// formats.
proof fn lemma_supported_readable(s: Seq<u8>, n: nat)
    ensures
        forall|i: int|
            0 <= i < supported_records(s, n).len() ==> readable_format(s, (#[trigger] supported_records(s, n)[i]).offset)
                && is_supported_encoding(supported_records(s, n)[i].platform_id, supported_records(s, n)[i].encoding_id),
    decreases n,
{
    if n > 0 {
        lemma_supported_readable(s, (n - 1) as nat);
        let rest = supported_records(s, (n - 1) as nat);
        let r = raw_record_at(s, n - 1);
        let all = supported_records(s, n);
        if is_supported_encoding(r.platform_id, r.encoding_id) && readable_format(s, r.offset) {
            assert(all == rest.push(r));
            assert forall|i: int| 0 <= i < all.len() implies readable_format(s, (#[trigger] all[i]).offset)
                && is_supported_encoding(all[i].platform_id, all[i].encoding_id) by {
                if i < rest.len() {
                    assert(all[i] == rest[i]);
                }
            }
        } else {
            assert(all == rest);
        }
    }
}

/// Reading records whose subtables have readable formats never fails on a subtable's format.
proof fn lemma_records_format_error(s: Seq<u8>, raws: Seq<RawEncodingRecord>, f: u16)
    requires
        forall|i: int| 0 <= i < raws.len() ==> readable_format(s, (#[trigger] raws[i]).offset),
    ensures
        spec_unpack_records(s, raws) != Some(
            Err::<(Seq<EncodingRecord>, Seq<SubtableView>), FontError>(FontError::UnsupportedCmapFormat(f)),
        ),
    decreases raws.len(),
{
    if raws.len() > 0 {
        let d = raws.drop_last();
        assert forall|i: int| 0 <= i < d.len() implies readable_format(s, (#[trigger] d[i]).offset) by {
            assert(d[i] == raws[i]);
        }
        lemma_records_format_error(s, d, f);
        assert(readable_format(s, raws[raws.len() - 1].offset));
    }
}

/// Subtables of formats other than 4 and 12 are ignored: reading a CMAP table never fails on
/// a subtable's format; it reads the records of supported encodings whose subtables have those
/// formats, and fails with `NoSupportedCmap` only where there is none.
pub proof fn law_cmap_ignores_unsupported_formats(s: Seq<u8>, f: u16)
    ensures
        CmapTable::spec_unpack(s) != Some(Err::<CmapView, FontError>(FontError::UnsupportedCmapFormat(f))),
{
    if !(s.len() < 4 || s.len() < 4 + 8 * get_u16(s, 2)) {
        let raws = supported_records(s, get_u16(s, 2) as nat);
        lemma_supported_readable(s, get_u16(s, 2) as nat);
        lemma_records_format_error(s, raws, f);
    }
}

} // verus!

verus! {

/// The number of supported records is at most the number of raw records.
proof fn lemma_supported_len(s: Seq<u8>, n: nat)
    ensures
        supported_records(s, n).len() <= n,
    decreases n,
{
    if n > 0 {
        lemma_supported_len(s, (n - 1) as nat);
    }
}

/// The records that reading gives: one per raw record, with its encoding and an existing
/// subtable, and the subtables in the order in which the records first use them.
proof fn lemma_unpack_records_shape(
    s: Seq<u8>,
    raws: Seq<RawEncodingRecord>,
    recs: Seq<EncodingRecord>,
    subs: Seq<SubtableView>,
)
    requires
        spec_unpack_records(s, raws) == Some(
            Ok::<(Seq<EncodingRecord>, Seq<SubtableView>), FontError>((recs, subs)),
        ),
        raws.len() <= 0xFFFF,
    ensures
        recs.len() == raws.len(),
        subs.len() <= raws.len(),
        forall|k: int|
            0 <= k < recs.len() ==> (#[trigger] recs[k]).platform_id == raws[k].platform_id
                && recs[k].encoding_id == raws[k].encoding_id && recs[k].subtable < subs.len(),
        first_uses(recs) == Seq::new(subs.len(), |i: int| i as usize),
    decreases raws.len(),
{
    if raws.len() == 0 {
        assert(first_uses(recs) =~= Seq::new(subs.len(), |i: int| i as usize));
    } else {
        let d = raws.drop_last();
        match spec_unpack_records(s, d) {
            Some(Ok((recs0, subs0))) => {
                lemma_unpack_records_shape(s, d, recs0, subs0);
                let r = raws.last();
                let j = first_with_offset(raws, r.offset, raws.len() - 1);
                lemma_first_with_offset_spec(raws, r.offset, raws.len() - 1);
                let id0 = Seq::new(subs0.len(), |i: int| i as usize);
                assert(recs.drop_last() =~= recs0);
                if j < raws.len() - 1 {
                    let x = recs0[j].subtable;
                    assert(id0[x as int] == x);
                    assert(first_uses(recs0).contains(x));
                    assert(first_uses(recs) =~= Seq::new(subs.len(), |i: int| i as usize));
                } else {
                    let x = subs0.len() as usize;
                    assert(!id0.contains(x)) by {
                        if id0.contains(x) {
                            let t = choose|t: int| 0 <= t < id0.len() && id0[t] == x;
                            assert(id0[t] == t as usize);
                            assert(t < 0xFFFF);
                        }
                    }
                    assert(first_uses(recs) =~= Seq::new(subs.len(), |i: int| i as usize));
                }
                assert forall|k: int| 0 <= k < recs.len() implies (#[trigger] recs[k]).platform_id
                    == raws[k].platform_id && recs[k].encoding_id == raws[k].encoding_id && recs[k].subtable
                    < subs.len() by {
                    if k < recs0.len() {
                        assert(recs[k] == recs0[k]);
                        assert(raws[k] == d[k]);
                    }
                }
            },
            _ => {},
        }
    }
}

impl CmapTable {
    /// A table that reading gave is in canonical form where its subtables are well formed and
    /// its packed size fits 32 bits.
    pub proof fn lemma_read_canonical(self, s: Seq<u8>)
        requires
            CmapTable::spec_unpack(s) == Some(Ok::<CmapView, FontError>(self@)),
            forall|i: int| 0 <= i < self.subtables@.len() ==> (#[trigger] self.subtables@[i]).wf(),
            4 + 8 * self.encoding_records@.len() + subtables_bytes(self.subtables@, self.subtables@.len()).len()
                <= u32::MAX,
        ensures
            self.is_canonical(),
    {
        let n = get_u16(s, 2) as nat;
        let raws = supported_records(s, n);
        lemma_supported_readable(s, n);
        lemma_supported_len(s, n);
        match spec_unpack_records(s, raws) {
            Some(Ok((recs, subs))) => {
                lemma_unpack_records_shape(s, raws, recs, subs);
                assert(self@.encoding_records == recs);
                assert(self@.subtables.len() == subs.len());
                assert(self.subtables@.len() == subs.len());
                assert forall|k: int| 0 <= k < recs.len() implies is_supported_encoding(
                    (#[trigger] self.encoding_records@[k]).platform_id,
                    self.encoding_records@[k].encoding_id,
                ) by {
                    assert(self.encoding_records@[k] == recs[k]);
                    assert(recs[k].platform_id == raws[k].platform_id);
                }
            },
            _ => {},
        }
    }
}

} // verus!

verus! {

impl CmapTable {
    /// The priority of record `k`: that of its encoding.
    pub open spec fn record_rank(self, k: int) -> int {
        encoding_rank(self.encoding_records@[k].platform_id, self.encoding_records@[k].encoding_id)
    }

    /// What the subtable of record `k` maps `codepoint` to.
    pub open spec fn record_gives(self, k: int, codepoint: u32) -> Option<u16> {
        self.subtables@[self.encoding_records@[k].subtable as int].spec_glyph_id(codepoint)
    }

    /// Record `j` is tried before record `k`: its encoding comes first, or the same encoding
    /// and it stands before.
    pub open spec fn tried_before(self, j: int, k: int) -> bool {
        self.record_rank(j) < self.record_rank(k) || (self.record_rank(j) == self.record_rank(k) && j < k)
    }

    /// The search of the first `m` records of priority `rank`.
    proof fn lemma_find_in_rank(self, codepoint: u32, rank: int, m: nat)
        requires
            m <= self.encoding_records@.len(),
        ensures
            match self.find_in_rank(codepoint, rank, m) {
                Some(g) => exists|k: int|
                    0 <= k < m && self.record_rank(k) == rank && #[trigger] self.record_gives(k, codepoint) == Some(g)
                        && forall|j: int|
                        0 <= j < k && self.record_rank(j) == rank ==> #[trigger] self.record_gives(j, codepoint) is None,
                None => forall|j: int|
                    0 <= j < m && self.record_rank(j) == rank ==> #[trigger] self.record_gives(j, codepoint) is None,
            },
        decreases m,
    {
        if m > 0 {
            self.lemma_find_in_rank(codepoint, rank, (m - 1) as nat);
            if self.find_in_rank(codepoint, rank, (m - 1) as nat) is None {
                let k = m - 1;
                if self.record_rank(k) == rank && self.record_gives(k, codepoint) is Some {
                    assert(self.record_gives(k, codepoint) == self.find_in_rank(codepoint, rank, m));
                }
            }
        }
    }

    /// The search of the records of priority `rank` and lower priorities.
    proof fn lemma_find_from_rank(self, codepoint: u32, rank: int)
        requires
            0 <= rank <= 4,
        ensures
            match self.find_from_rank(codepoint, rank) {
                Some(g) => exists|k: int|
                    0 <= k < self.encoding_records@.len() && rank <= self.record_rank(k) < 4
                        && #[trigger] self.record_gives(k, codepoint) == Some(g) && forall|j: int|
                        0 <= j < self.encoding_records@.len() && rank <= self.record_rank(j) && self.tried_before(j, k)
                            ==> #[trigger] self.record_gives(j, codepoint) is None,
                None => forall|j: int|
                    0 <= j < self.encoding_records@.len() && rank <= self.record_rank(j) < 4
                        ==> #[trigger] self.record_gives(j, codepoint) is None,
            },
        decreases 4 - rank,
    {
        if rank < 4 {
            let n = self.encoding_records@.len();
            self.lemma_find_in_rank(codepoint, rank, n);
            self.lemma_find_from_rank(codepoint, rank + 1);
            match self.find_in_rank(codepoint, rank, n) {
                Some(g) => {
                    let k = choose|k: int|
                        0 <= k < n && self.record_rank(k) == rank && #[trigger] self.record_gives(k, codepoint)
                            == Some(g) && forall|j: int|
                            0 <= j < k && self.record_rank(j) == rank ==> #[trigger] self.record_gives(j, codepoint)
                                is None;
                    assert(self.record_gives(k, codepoint) == Some(g));
                },
                None => {
                    match self.find_from_rank(codepoint, rank + 1) {
                        Some(g) => {
                            let k = choose|k: int|
                                0 <= k < n && rank + 1 <= self.record_rank(k) < 4
                                    && #[trigger] self.record_gives(k, codepoint) == Some(g) && forall|j: int|
                                    0 <= j < n && rank + 1 <= self.record_rank(j) && self.tried_before(j, k)
                                        ==> #[trigger] self.record_gives(j, codepoint) is None;
                            assert(self.record_gives(k, codepoint) == Some(g));
                        },
                        None => {},
                    }
                },
            }
        }
    }

    /// A lookup tries the records in the order of priority of their encodings ((0, 4), (3, 10),
    /// (0, 3), (3, 1)), those of one encoding in the order in which they stand: it gives what
    /// the subtable of the first record that maps the code point gives, and `None` where no
    /// record of a supported encoding maps it.
    pub proof fn law_lookup_priority(self, codepoint: u32)
        ensures
            match self.lookup(codepoint) {
                Some(g) => exists|k: int|
                    0 <= k < self.encoding_records@.len() && self.record_rank(k) < 4
                        && #[trigger] self.record_gives(k, codepoint) == Some(g) && forall|j: int|
                        0 <= j < self.encoding_records@.len() && self.tried_before(j, k)
                            ==> #[trigger] self.record_gives(j, codepoint) is None,
                None => forall|j: int|
                    0 <= j < self.encoding_records@.len() && self.record_rank(j) < 4
                        ==> #[trigger] self.record_gives(j, codepoint) is None,
            },
    {
        self.lemma_find_from_rank(codepoint, 0);
        assert forall|j: int| 0 <= j < self.encoding_records@.len() implies 0 <= #[trigger] self.record_rank(j) by {}
    }
}

} // verus!

verus! {

/// The raw encoding record `i` of a CMAP table: the platform and encoding ids are the
/// big-endian 16-bit values at `4 + 8 i` and `6 + 8 i`, the subtable's offset the 32-bit value
/// at `8 + 8 i`; the number of records is the value at 2. A subtable's format is the value at
/// its start; a format 4 subtable's length follows at 2 (16 bits), a format 12 one's at 4 (32
/// bits).
pub proof fn law_cmap_layout_read(s: Seq<u8>, i: int)
    ensures
        0 <= i && 12 + 8 * i <= s.len() ==> raw_record_at(s, i).platform_id == be_u16_value(s, 4 + 8 * i)
            && raw_record_at(s, i).encoding_id == be_u16_value(s, 6 + 8 * i) && raw_record_at(s, i).offset
            == be_u32_value(s, 8 + 8 * i),
        s.len() >= 4 ==> get_u16(s, 2) == be_u16_value(s, 2) && get_u16(s, 0) == be_u16_value(s, 0),
        s.len() >= 8 ==> get_u32(s, 4) == be_u32_value(s, 4),
{
    if 0 <= i && 12 + 8 * i <= s.len() {
        lemma_get_u16_value(s, 4 + 8 * i);
        lemma_get_u16_value(s, 6 + 8 * i);
        lemma_get_u32_value(s, 8 + 8 * i);
    }
    if s.len() >= 4 {
        lemma_get_u16_value(s, 0);
        lemma_get_u16_value(s, 2);
    }
    if s.len() >= 8 {
        lemma_get_u32_value(s, 4);
    }
}

} // verus!
