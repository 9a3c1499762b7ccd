//! Writing a font: the tables one after another, each padded to 4 bytes, then the table
//! directory with their check sums, and the check sum adjustment of the head table.
use vstd::prelude::*;
use crate::big_endian::{be16s, be32, bei16s, get_u32, hi16, lo16, read_u32_at, split32};
use crate::otf::error::FontError;
use crate::otf::font::{OpenTypeFont, TableTag};
use crate::otf::search_range::{floor_log2, is_floor_log2, two_to};
use crate::otf::tables::loca::{glyph_offsets, offsets_bytes};
use crate::otf::tables::glyf::table::glyphs_bytes;
use crate::otf::tables::head::HeadTable;
use crate::otf::tables::offset::{records_words, OffsetTable, SfntVersion, TableRecord};

verus! {

/// `a + b` modulo 2^32.
pub open spec fn wrap_add(a: u32, b: u32) -> u32 {
    ((a + b) % 0x1_0000_0000) as u32
}

/// `n`, or `u32::MAX` where that does not fit.
pub open spec fn clamp32(n: int) -> u32 {
    if n > u32::MAX { u32::MAX } else { n as u32 }
}

/// The sum modulo 2^32 of the first `n` big-endian `u32` words of `data`.
pub open spec fn sum_words(data: Seq<u8>, n: nat) -> u32
    decreases n,
{
    if n == 0 {
        0
    } else {
        wrap_add(sum_words(data, (n - 1) as nat), get_u32(data, 4 * (n - 1)))
    }
}

/// The check sum of `data`: the sum modulo 2^32 of its big-endian `u32` words; a trailing
/// part of fewer than 4 bytes is left out.
pub open spec fn check_sum_of(data: Seq<u8>) -> u32 {
    sum_words(data, data.len() / 4)
}

/// Computes `wrap_add(a, b)`.
fn add32(a: u32, b: u32) -> (r: u32)
    ensures
        r == wrap_add(a, b),
{
    ((a as u64 + b as u64) % 0x1_0000_0000) as u32
}

/// `0xB1B0AFBA` minus `total`, modulo 2^32.
fn adjustment_for(total: u32) -> (r: u32)
    ensures
        r == ((0xB1B0AFBAu32 - total) % 0x1_0000_0000) as u32,
{
    if total <= 0xB1B0AFBA {
        0xB1B0AFBA - total
    } else {
        assert((0xB1B0AFBAu32 - total) % 0x1_0000_0000 == 0xB1B0AFBAu32 - total + 0x1_0000_0000);
        ((0xB1B0AFBAu64 + 0x1_0000_0000 - total as u64)) as u32
    }
}

/// Computes `check_sum_of(data)`.
pub fn check_sum(data: &[u8]) -> (r: u32)
    ensures
        r == check_sum_of(data@),
{
    let len = data.len();
    let n = len / 4;
    let mut sum: u32 = 0;
    let mut k: usize = 0;
    while k < n
        invariant
            k <= n,
            len == data@.len(),
            n == data@.len() / 4,
            sum == sum_words(data@, k as nat),
        decreases n - k,
    {
        let w = read_u32_at(data, 4 * k);
        sum = add32(sum, w);
        k = k + 1;
    }
    sum
}

/// The number of zeros that pad `n` bytes to a multiple of 4.
pub open spec fn pad_len(n: nat) -> nat {
    ((4 - n % 4) % 4) as nat
}

/// `n` zero bytes.
pub open spec fn zeros(n: nat) -> Seq<u8> {
    Seq::new(n, |i: int| 0u8)
}

/// Collects tables into one buffer, each padded to 4 bytes, and records where each lies.
pub struct FontWriter {
    tables: Vec<TableRecord>,
    buffer: Vec<u8>,
    capacity: usize,
}

impl FontWriter {
    /// The records of the tables written so far.
    pub closed spec fn records(self) -> Seq<TableRecord> {
        self.tables@
    }

    /// The tables written so far.
    pub closed spec fn data(self) -> Seq<u8> {
        self.buffer@
    }

    /// The number of tables the writer was made for.
    pub closed spec fn spec_capacity(self) -> nat {
        self.capacity as nat
    }

    /// A writer for `capacity` tables.
    pub fn new(capacity: usize) -> (w: FontWriter)
        ensures
            w.records().len() == 0,
            w.data().len() == 0,
            w.spec_capacity() == capacity,
    {
        FontWriter { tables: Vec::new(), buffer: Vec::new(), capacity }
    }

    /// The length of the table directory: 12 bytes, then 16 for each table.
    pub fn offset_table_len(&self) -> (r: usize)
        requires
            12 + 16 * self.spec_capacity() <= usize::MAX,
        ensures
            r == 12 + 16 * self.spec_capacity(),
    {
        12 + self.capacity * 16
    }

    /// The offset in the font at which the next table will stand.
    pub fn offset(&self) -> (r: usize)
        requires
            12 + 16 * self.spec_capacity() + self.data().len() <= usize::MAX,
        ensures
            r == 12 + 16 * self.spec_capacity() + self.data().len(),
    {
        self.offset_table_len() + self.buffer.len()
    }

    /// Appends the table `bytes` with the tag `tag`, padded to 4 bytes, and records its check
    /// sum, offset and length; fails where the writer holds as many tables as it was made for.
    pub fn pack(&mut self, tag: [u8; 4], bytes: &[u8]) -> (r: Result<(), FontError>)
        requires
            12 + 16 * old(self).spec_capacity() + old(self).data().len() + bytes@.len() + 4 <= usize::MAX,
        ensures
            final(self).spec_capacity() == old(self).spec_capacity(),
            old(self).records().len() == old(self).spec_capacity() ==> r == Err::<(), FontError>(
                FontError::TooManyTables(old(self).records().len() as usize),
            ) && final(self).records() == old(self).records() && final(self).data() == old(self).data(),
            old(self).records().len() != old(self).spec_capacity() ==> r == Ok::<(), FontError>(())
                && final(self).data() == old(self).data() + bytes@ + zeros(
                pad_len(old(self).data().len() + bytes@.len()),
            ) && final(self).records() == old(self).records().push(
                TableRecord {
                    tag,
                    check_sum: check_sum_of(bytes@ + zeros(pad_len(old(self).data().len() + bytes@.len()))),
                    offset: clamp32((12 + 16 * old(self).spec_capacity() + old(self).data().len()) as int),
                    length: clamp32(bytes@.len() as int),
                },
            ),
    {
        if self.tables.len() == self.capacity {
            return Err(FontError::TooManyTables(self.tables.len()));
        }
        let start = self.buffer.len();
        let mut k: usize = 0;
        while k < bytes.len()
            invariant
                k <= bytes@.len(),
                self.buffer@ == old(self).buffer@ + bytes@.take(k as int),
                self.tables == old(self).tables,
                self.capacity == old(self).capacity,
            decreases bytes@.len() - k,
        {
            self.buffer.push(bytes[k]);
            k = k + 1;
            assert(self.buffer@ =~= old(self).buffer@ + bytes@.take(k as int));
        }
        assert(bytes@.take(k as int) =~= bytes@);
        let ghost unpadded = self.buffer@;
        let pad = (4 - self.buffer.len() % 4) % 4;
        let mut i: usize = 0;
        while i < pad
            invariant
                i <= pad,
                self.buffer@ == unpadded + zeros(i as nat),
                self.tables == old(self).tables,
                self.capacity == old(self).capacity,
            decreases pad - i,
        {
            self.buffer.push(0);
            i = i + 1;
            assert(self.buffer@ =~= unpadded + zeros(i as nat));
        }
        let tail = crate::big_endian::copy_range(self.buffer.as_slice(), start, self.buffer.len());
        assert(tail@ =~= bytes@ + zeros(pad as nat));
        let sum = check_sum(tail.as_slice());
        let o = self.offset_table_len() + start;
        let record = TableRecord {
            tag,
            check_sum: sum,
            offset: if o > 0xFFFF_FFFF { 0xFFFF_FFFF } else { o as u32 },
            length: if bytes.len() > 0xFFFF_FFFF { 0xFFFF_FFFF } else { bytes.len() as u32 },
        };
        self.tables.push(record);
        Ok(())
    }
}

/// The words of the directory of a font with the version `sfnt` and the records `recs`, for the
/// entry selector `es` (the floor of the binary logarithm of the number of tables).
pub open spec fn directory_words(sfnt: SfntVersion, recs: Seq<TableRecord>, es: nat) -> Seq<u16> {
    seq![
        hi16(sfnt.spec_number()),
        lo16(sfnt.spec_number()),
        recs.len() as u16,
        (16 * two_to(es)) as u16,
        es as u16,
        (16 * recs.len() - 16 * two_to(es)) as u16,
    ] + records_words(recs)
}

/// The sum modulo 2^32 of `init` and the check sums of the records.
pub open spec fn sum_check_sums(init: u32, recs: Seq<TableRecord>) -> u32
    decreases recs.len(),
{
    if recs.len() == 0 {
        init
    } else {
        wrap_add(sum_check_sums(init, recs.drop_last()), recs.last().check_sum)
    }
}

/// The check sum adjustment of a font: `0xB1B0AFBA` minus the check sums of its directory and
/// its tables, modulo 2^32.
pub open spec fn adjustment(directory: Seq<u8>, recs: Seq<TableRecord>) -> u32 {
    let total = sum_check_sums(check_sum_of(directory), recs);
    ((0xB1B0AFBAu32 - total) % 0x1_0000_0000) as u32
}

/// `data` with the four bytes at `p` replaced by `v`, big-endian.
pub open spec fn replace_u32(data: Seq<u8>, p: int, v: u32) -> Seq<u8> {
    data.subrange(0, p) + be32(v) + data.subrange(p + 4, data.len() as int)
}

impl FontWriter {
    /// Finishes the font: the directory of the tables, and the tables with the check sum
    /// adjustment written at `check_sum_adjustment_offset` (an offset in the font); fails where
    /// fewer tables were written than the writer was made for, or the offset leaves no room for
    /// the adjustment.
    #[verifier::spinoff_prover]
    #[verifier::rlimit(50)]
    pub fn finish(self, sfnt_version: SfntVersion, check_sum_adjustment_offset: usize) -> (r: Result<(Vec<u8>, Vec<u8>), FontError>)
        requires
            12 + 16 * self.spec_capacity() <= usize::MAX,
            self.records().len() == self.spec_capacity() ==> 1 <= self.records().len() < 4096
                && 12 + 16 * self.spec_capacity() <= check_sum_adjustment_offset
                && check_sum_adjustment_offset - (12 + 16 * self.spec_capacity()) <= self.data().len(),
        ensures
            self.records().len() != self.spec_capacity() ==> r == Err::<(Vec<u8>, Vec<u8>), FontError>(
                FontError::MissingTables { expected: self.spec_capacity() as usize, written: self.records().len() as usize },
            ),
            self.records().len() == self.spec_capacity() ==> exists|es: nat| {
                let directory = be16s(directory_words(sfnt_version, self.records(), es));
                let p = check_sum_adjustment_offset - (12 + 16 * self.spec_capacity());
                &&& #[trigger] is_floor_log2(self.records().len(), es)
                &&& if p + 4 > self.data().len() {
                    r == Err::<(Vec<u8>, Vec<u8>), FontError>(FontError::WriteZero)
                } else {
                    r is Ok && r->Ok_0.0@ == directory && r->Ok_0.1@ == replace_u32(
                        self.data(),
                        p,
                        adjustment(directory, self.records()),
                    )
                }
            },
    {
        if self.tables.len() != self.capacity {
            return Err(FontError::MissingTables { expected: self.capacity, written: self.tables.len() });
        }
        let n = self.tables.len() as u16;
        let (x, e) = floor_log2(n as u32);
        proof {
            crate::otf::search_range::lemma_two_to_le(e as nat, n as nat);
        }
        let search_range = (x * 16) as u16;
        let entry_selector = e as u16;
        let range_shift = n * 16 - search_range;
        let p = check_sum_adjustment_offset - self.offset_table_len();
        let ghost recs = self.tables@;
        let ghost data = self.buffer@;
        let offset_table = OffsetTable {
            sfnt_version,
            num_tables: n,
            search_range,
            entry_selector,
            range_shift,
            tables: self.tables,
        };
        let mut directory: Vec<u8> = Vec::new();
        offset_table.pack(&mut directory);
        assert(offset_table.words() =~= directory_words(sfnt_version, recs, e as nat));
        let mut total = check_sum(directory.as_slice());
        let mut k: usize = 0;
        while k < offset_table.tables.len()
            invariant
                k <= offset_table.tables@.len(),
                offset_table.tables@ == recs,
                total == sum_check_sums(check_sum_of(directory@), recs.take(k as int)),
            decreases offset_table.tables@.len() - k,
        {
            assert(recs.take(k + 1).drop_last() =~= recs.take(k as int));
            let c = offset_table.tables[k].check_sum;
            total = add32(total, c);
            k = k + 1;
        }
        assert(recs.take(k as int) =~= recs);
        let adjustment = adjustment_for(total);
        let mut buffer = self.buffer;
        if buffer.len() - p < 4 {
            return Err(FontError::WriteZero);
        }
        let (hi, lo) = split32(adjustment);
        buffer.set(p, (hi / 256) as u8);
        buffer.set(p + 1, (hi % 256) as u8);
        buffer.set(p + 2, (lo / 256) as u8);
        buffer.set(p + 3, (lo % 256) as u8);
        assert(buffer@ =~= replace_u32(data, p as int, adjustment));
        Ok((directory, buffer))
    }
}

/// The tag bytes of a table as an array.
pub open spec fn tag_array(t: TableTag) -> [u8; 4] {
    choose|a: [u8; 4]| a@ == t.spec_bytes()
}

/// The tables that `to_vec` writes, in order: for a PDF subset only those that PDF needs.
pub open spec fn written_tags(pdf_subset: bool) -> Seq<TableTag> {
    if pdf_subset {
        seq![TableTag::Cmap, TableTag::Glyf, TableTag::Head, TableTag::Hhea, TableTag::Hmtx, TableTag::Loca, TableTag::Maxp]
    } else {
        seq![
            TableTag::Os2,
            TableTag::Cmap,
            TableTag::Glyf,
            TableTag::Head,
            TableTag::Hhea,
            TableTag::Hmtx,
            TableTag::Loca,
            TableTag::Maxp,
            TableTag::Name,
            TableTag::Post,
        ]
    }
}

/// The position of the head table among the written tables.
pub open spec fn head_index(pdf_subset: bool) -> nat {
    if pdf_subset { 2 } else { 3 }
}

/// The entry selector of the written directory: the floor of the binary logarithm of the
/// number of written tables.
pub open spec fn written_entry_selector(pdf_subset: bool) -> nat {
    if pdf_subset { 2 } else { 3 }
}

impl OpenTypeFont {
    /// The head table as written before its check sum adjustment is known: with the adjustment 0.
    pub open spec fn zeroed_head(self) -> HeadTable {
        HeadTable { check_sum_adjustment: 0, ..self.head_table }
    }

    /// The bytes that packing the table `tag` gives, or its error.
    #[verifier::opaque]
    pub open spec fn table_bytes_of(self, tag: TableTag) -> Result<Seq<u8>, FontError> {
        match tag {
            TableTag::Os2 => Ok(self.os2_table.spec_pack()),
            TableTag::Cmap => self.cmap_table.spec_pack(),
            TableTag::Glyf => Ok(glyphs_bytes(self.glyf_table@)),
            TableTag::Head => Ok(self.zeroed_head().spec_pack()),
            TableTag::Hhea => Ok(self.hhea_table.spec_pack()),
            TableTag::Hmtx => if self.hmtx_table.h_metrics@.len() > 0xFFFF {
                Err(FontError::TooManyHMetrics)
            } else if self.hmtx_table.left_side_bearings@.len() > 0xFFFF {
                Err(FontError::TooManyLeftSideBearings)
            } else {
                Ok(self.hmtx_table.metric_bytes() + bei16s(self.hmtx_table.left_side_bearings@))
            },
            TableTag::Loca => Ok(offsets_bytes(glyph_offsets(self.glyf_table@, true), self.loca_table.format)),
            TableTag::Maxp => Ok(self.maxp_table.spec_pack()),
            TableTag::Name => Ok(self.name_table.spec_pack()),
            TableTag::Post => Ok(self.post_table.spec_pack()),
        }
    }

    /// The records and the data after writing the first `k` of `tags` with a writer for `cap`
    /// tables, or the first error.
    pub open spec fn writer_after(self, tags: Seq<TableTag>, k: nat, cap: nat) -> Result<(Seq<TableRecord>, Seq<u8>), FontError>
        decreases k,
    {
        if k == 0 {
            Ok((Seq::empty(), Seq::empty()))
        } else {
            match self.writer_after(tags, (k - 1) as nat, cap) {
                Err(e) => Err(e),
                Ok((recs, data)) => match self.table_bytes_of(tags[k - 1]) {
                    Err(e) => Err(e),
                    Ok(b) => {
                        let padded = b + zeros(pad_len(data.len() + b.len()));
                        Ok(
                            (
                                recs.push(
                                    TableRecord {
                                        tag: tag_array(tags[k - 1]),
                                        check_sum: check_sum_of(padded),
                                        offset: clamp32((12 + 16 * cap + data.len()) as int),
                                        length: clamp32(b.len() as int),
                                    },
                                ),
                                data + padded,
                            ),
                        )
                    },
                },
            }
        }
    }

    /// Writing the tables fits into memory: before each table, the data written and the table
    /// leave room within `usize`.
    pub open spec fn write_fits(self, pdf_subset: bool) -> bool {
        let tags = written_tags(pdf_subset);
        forall|k: nat|
            k < tags.len() ==> match (#[trigger] self.writer_after(tags, k, tags.len()), self.table_bytes_of(tags[k as int])) {
                (Ok((recs, data)), Ok(b)) => 12 + 16 * tags.len() + data.len() + b.len() + 16 <= usize::MAX,
                _ => true,
            }
    }

    /// What `to_vec` returns: the table directory and the tables, with the check sum adjustment
    /// written into the head table; or the first error of packing a table.
    pub open spec fn spec_to_vec(self, pdf_subset: bool) -> Result<(Seq<u8>, Seq<u8>), FontError> {
        let tags = written_tags(pdf_subset);
        match self.writer_after(tags, tags.len(), tags.len()) {
            Err(e) => Err(e),
            Ok((recs, data)) => {
                let directory = be16s(directory_words(self.sfnt_version, recs, written_entry_selector(pdf_subset)));
                let p = self.writer_after(tags, head_index(pdf_subset), tags.len())->Ok_0.1.len() + 8;
                Ok((directory, replace_u32(data, p as int, adjustment(directory, recs))))
            },
        }
    }

    /// Packs the table `tag` into `out`.
    fn pack_table(&self, tag: TableTag, out: &mut Vec<u8>) -> (r: Result<(), FontError>)
        requires
            self.cmap_table.wf(),
            old(out)@.len() == 0,
        ensures
            match self.table_bytes_of(tag) {
                Ok(b) => r is Ok && final(out)@ == b,
                Err(e) => r == Err::<(), FontError>(e),
            },
    {
        reveal(OpenTypeFont::table_bytes_of);
        match tag {
            TableTag::Os2 => self.os2_table.pack(out),
            TableTag::Cmap => {
                self.cmap_table.pack(out)?;
            },
            TableTag::Glyf => self.glyf_table.pack(out),
            TableTag::Head => {
                let head = HeadTable { check_sum_adjustment: 0, ..self.head_table };
                head.pack(out)
            },
            TableTag::Hhea => self.hhea_table.pack(out),
            TableTag::Hmtx => {
                self.hmtx_table.pack(out)?;
            },
            TableTag::Loca => self.loca_table.pack(out, &self.glyf_table),
            TableTag::Maxp => self.maxp_table.pack(out),
            TableTag::Name => self.name_table.pack(out),
            TableTag::Post => self.post_table.pack(out),
        }
        assert(final(out)@ =~= self.table_bytes_of(tag)->Ok_0);
        Ok(())
    }

    /// Writes the font: the table directory, and the tables one after another, each padded to
    /// 4 bytes, with the check sum adjustment written into the head table. A PDF subset holds
    /// only cmap, glyf, head, hhea, hmtx, loca and maxp; else OS/2, name and post follow too.
    /// Fails where a table cannot be packed.
    #[verifier::spinoff_prover]
    #[verifier::rlimit(100)]
    pub fn to_vec(&self, pdf_subset: bool) -> (r: Result<(Vec<u8>, Vec<u8>), FontError>)
        requires
            self.cmap_table.wf(),
            self.write_fits(pdf_subset),
        ensures
            match self.spec_to_vec(pdf_subset) {
                Ok((a, b)) => r is Ok && r->Ok_0.0@ == a && r->Ok_0.1@ == b,
                Err(e) => r == Err::<(Vec<u8>, Vec<u8>), FontError>(e),
            },
    {
        let tags: Vec<TableTag> = if pdf_subset {
            vec![TableTag::Cmap, TableTag::Glyf, TableTag::Head, TableTag::Hhea, TableTag::Hmtx, TableTag::Loca, TableTag::Maxp]
        } else {
            vec![
                TableTag::Os2,
                TableTag::Cmap,
                TableTag::Glyf,
                TableTag::Head,
                TableTag::Hhea,
                TableTag::Hmtx,
                TableTag::Loca,
                TableTag::Maxp,
                TableTag::Name,
                TableTag::Post,
            ]
        };
        assert(tags@ =~= written_tags(pdf_subset));
        let ghost wt = written_tags(pdf_subset);
        let cap = tags.len();
        let mut writer = FontWriter::new(cap);
        assert(writer.records() =~= Seq::<TableRecord>::empty());
        assert(writer.data() =~= Seq::<u8>::empty());
        let mut check_sum_adjustment_offset: usize = 0;
        let mut k: usize = 0;
        while k < cap
            invariant
                k <= cap == wt.len(),
                tags@ == wt,
                wt == written_tags(pdf_subset),
                self.cmap_table.wf(),
                self.write_fits(pdf_subset),
                writer.spec_capacity() == cap,
                self.writer_after(wt, k as nat, cap as nat) == Ok::<(Seq<TableRecord>, Seq<u8>), FontError>(
                    (writer.records(), writer.data()),
                ),
                k > head_index(pdf_subset) ==> check_sum_adjustment_offset == 12 + 16 * cap + self.writer_after(
                    wt,
                    head_index(pdf_subset),
                    cap as nat,
                )->Ok_0.1.len() + 8,
                writer.records().len() == k,
            decreases cap - k,
        {
            let tag = tags[k];
            let ghost before = writer.data();
            let mut bytes: Vec<u8> = Vec::new();
            match self.pack_table(tag, &mut bytes) {
                Ok(()) => {},
                Err(e) => {
                    proof {
                        self.lemma_writer_err(wt, (k + 1) as nat, cap as nat, e);
                    }
                    return Err(e);
                },
            }
            proof {
                self.lemma_fits(pdf_subset, k as nat);
            }
            if k == if pdf_subset { 2 } else { 3 } {
                check_sum_adjustment_offset = writer.offset() + 8;
            }
            let t = tag.bytes();
            assert(t == tag_array(tag)) by {
                let a = tag_array(tag);
                assert(a@ == tag.spec_bytes());
                assert(a@ =~= t@);
            }
            let ghost recs = writer.records();
            match writer.pack(t, bytes.as_slice()) {
                Ok(()) => {},
                Err(e) => {
                    return Err(e);
                },
            }
            proof {
                self.lemma_step(wt, k as nat, cap as nat);
                assert(writer.data() =~= before + (bytes@ + zeros(pad_len(before.len() + bytes@.len()))));
            }
            k = k + 1;
        }
        proof {
            reveal(OpenTypeFont::table_bytes_of);
            let wa = self.writer_after(wt, head_index(pdf_subset), cap as nat);
            self.lemma_writer_prefix(wt, head_index(pdf_subset) + 1, cap as nat, cap as nat);
            crate::otf::tables::head::lemma_head_pack_len(self.zeroed_head());
            lemma_floor_log2_unique(cap as nat, written_entry_selector(pdf_subset));
        }
        writer.finish(self.sfnt_version, check_sum_adjustment_offset)
    }

    /// Before each table, writing it fits.
    proof fn lemma_fits(self, pdf_subset: bool, k: nat)
        requires
            self.write_fits(pdf_subset),
            k < written_tags(pdf_subset).len(),
        ensures
            match (self.writer_after(written_tags(pdf_subset), k, written_tags(pdf_subset).len()), self.table_bytes_of(written_tags(pdf_subset)[k as int])) {
                (Ok((recs, data)), Ok(b)) => 12 + 16 * written_tags(pdf_subset).len() + data.len() + b.len() + 16 <= usize::MAX,
                _ => true,
            },
    {
        let tags = written_tags(pdf_subset);
        assert(k < tags.len());
        let _ = self.writer_after(tags, k, tags.len());
    }

    /// Writing one more table appends it, padded, and its record.
    proof fn lemma_step(self, tags: Seq<TableTag>, k: nat, cap: nat)
        requires
            self.writer_after(tags, k, cap) is Ok,
            self.table_bytes_of(tags[k as int]) is Ok,
        ensures
            ({
                let (recs, data) = self.writer_after(tags, k, cap)->Ok_0;
                let b = self.table_bytes_of(tags[k as int])->Ok_0;
                let padded = b + zeros(pad_len(data.len() + b.len()));
                self.writer_after(tags, k + 1, cap) == Ok::<(Seq<TableRecord>, Seq<u8>), FontError>(
                    (
                        recs.push(
                            TableRecord {
                                tag: tag_array(tags[k as int]),
                                check_sum: check_sum_of(padded),
                                offset: clamp32((12 + 16 * cap + data.len()) as int),
                                length: clamp32(b.len() as int),
                            },
                        ),
                        data + padded,
                    ),
                )
            }),
    {
    }

    /// An error after `k` tables is the error after all of them.
    proof fn lemma_writer_err(self, tags: Seq<TableTag>, k: nat, n: nat, e: FontError)
        requires
            k <= n,
            self.writer_after(tags, k, n) == Err::<(Seq<TableRecord>, Seq<u8>), FontError>(e),
        ensures
            self.writer_after(tags, n, n) == Err::<(Seq<TableRecord>, Seq<u8>), FontError>(e),
    {
        self.lemma_writer_err_at(tags, k, n, n, e);
    }

    proof fn lemma_writer_err_at(self, tags: Seq<TableTag>, k: nat, j: nat, cap: nat, e: FontError)
        requires
            k <= j,
            self.writer_after(tags, k, cap) == Err::<(Seq<TableRecord>, Seq<u8>), FontError>(e),
        ensures
            self.writer_after(tags, j, cap) == Err::<(Seq<TableRecord>, Seq<u8>), FontError>(e),
        decreases j - k,
    {
        if k < j {
            self.lemma_writer_err_at(tags, k, (j - 1) as nat, cap, e);
        }
    }

    /// The data written after `k` tables begins the data written after `j >= k` tables.
    proof fn lemma_writer_prefix(self, tags: Seq<TableTag>, k: nat, j: nat, cap: nat)
        requires
            k <= j,
            self.writer_after(tags, j, cap) is Ok,
        ensures
            self.writer_after(tags, k, cap) is Ok,
            self.writer_after(tags, k, cap)->Ok_0.1.len() <= self.writer_after(tags, j, cap)->Ok_0.1.len(),
        decreases j - k,
    {
        if k < j {
            self.lemma_writer_prefix(tags, k, (j - 1) as nat, cap);
        }
    }
}

/// The floor of the binary logarithm is unique; for 7 tables it is 2, for 10 it is 3.
proof fn lemma_floor_log2_unique(n: nat, e: nat)
    requires
        n == 7 && e == 2 || n == 10 && e == 3,
    ensures
        is_floor_log2(n, e),
        forall|f: nat| #[trigger] is_floor_log2(n, f) ==> f == e,
{
    reveal_with_fuel(two_to, 5);
    assert forall|f: nat| #[trigger] is_floor_log2(n, f) implies f == e by {
        if f < e {
            crate::otf::search_range::lemma_two_to_mono(f + 1, e);
        } else if f > e {
            crate::otf::search_range::lemma_two_to_mono(e + 1, f);
        }
    }
}

} // verus!
