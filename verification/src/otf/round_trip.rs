//! Writing a font and reading it back: the tables that `to_vec` writes are those that
//! `from_slice` reads, but for the head table's check sum adjustment.
use vstd::prelude::*;
use crate::big_endian::{be16, be16s, get_u16, get_u16s, get_u32, hi16, lemma_be16s, lemma_get_u16, lemma_get_u16s, lemma_join32, lo16};
use crate::otf::tables::head::HeadTable;
use crate::otf::tables::glyf::table::glyphs_bytes;
use crate::otf::tables::loca::{glyph_offsets, offsets_bytes};
use crate::big_endian::bei16s;
use crate::otf::error::FontError;
use crate::otf::font::{
    bytes_of, loca_len, read_outcome, slice_defined, table_of, tables_outcome, tables_outcome_last, tables_outcome_rest, OpenTypeFont, TableTag,
};
use crate::otf::tables::cmap::{subtables_bytes, CmapTable, CmapView};
use crate::otf::tables::glyf::GlyphView;
use crate::otf::tables::glyf::pack::is_packable;
use crate::otf::tables::glyf::table::{glyf_unpack, law_glyf_round_trip, lemma_glyf_unpack_len};
use crate::otf::tables::hhea::HheaTable;
use crate::otf::tables::hmtx::{HmtxTable, LongHorMetric};
use crate::otf::tables::loca::{format_of, law_loca_round_trip, offsets_at, total_size, Format};
use crate::otf::tables::maxp::MaxpTable;
use crate::otf::tables::name::{table_words, NameTable};
use crate::otf::tables::os2::{word_count, Os2Table};
use crate::otf::search_range::two_to;
use crate::otf::tables::offset::{
    find_tag, font_words, lemma_record_in_words, record_matches, records_words, OffsetTable, SfntVersion,
    TableRecord,
};
use crate::otf::writer::{adjustment, clamp32, directory_words, pad_len, replace_u32, tag_array, written_tags, zeros};

verus! {

/// The record that writing the table `tag` makes, with the data written before it.
pub open spec fn record_for(tag: TableTag, b: Seq<u8>, data: Seq<u8>, cap: nat) -> TableRecord {
    TableRecord {
        tag: tag_array(tag),
        check_sum: crate::otf::writer::check_sum_of(b + zeros(pad_len(data.len() + b.len()))),
        offset: clamp32((12 + 16 * cap + data.len()) as int),
        length: clamp32(b.len() as int),
    }
}

impl OpenTypeFont {
    /// Every table that is written packs without an error.
    pub open spec fn tables_pack(self, pdf_subset: bool) -> bool {
        forall|k: int|
            0 <= k < written_tags(pdf_subset).len() ==> (#[trigger] self.table_bytes_of(written_tags(pdf_subset)[k])) is Ok
    }

    /// The bytes of the `k`-th written table.
    pub open spec fn written_bytes(self, pdf_subset: bool, k: int) -> Seq<u8> {
        self.table_bytes_of(written_tags(pdf_subset)[k])->Ok_0
    }

    /// Writing the first `k` tables: their records and data; the data written before the table
    /// `j < k` begins the data, and the table follows it.
    proof fn lemma_writer_layout(self, pdf_subset: bool, k: nat)
        requires
            self.tables_pack(pdf_subset),
            k <= written_tags(pdf_subset).len(),
        ensures
            self.writer_after(written_tags(pdf_subset), k, written_tags(pdf_subset).len()) is Ok,
            ({
                let tags = written_tags(pdf_subset);
                let cap = tags.len();
                let (recs, data) = self.writer_after(tags, k, cap)->Ok_0;
                &&& recs.len() == k
                &&& forall|j: nat| #![trigger self.writer_after(tags, j, cap)] j < k ==> {
                    let before = self.writer_after(tags, j, cap)->Ok_0.1;
                    let b = self.written_bytes(pdf_subset, j as int);
                    &&& recs[j as int] == record_for(tags[j as int], b, before, cap)
                    &&& before.len() + b.len() <= data.len()
                    &&& data.subrange(before.len() as int, (before.len() + b.len()) as int) == b
                }
            }),
        decreases k,
    {
        let tags = written_tags(pdf_subset);
        let cap = tags.len();
        if k > 0 {
            let i = (k - 1) as nat;
            self.lemma_writer_layout(pdf_subset, i);
            assert(self.table_bytes_of(tags[i as int]) is Ok);
            let (recs0, data0) = self.writer_after(tags, i, cap)->Ok_0;
            let b = self.written_bytes(pdf_subset, i as int);
            let padded = b + zeros(pad_len(data0.len() + b.len()));
            let (recs, data) = self.writer_after(tags, k, cap)->Ok_0;
            assert(recs == recs0.push(record_for(tags[i as int], b, data0, cap)));
            assert(data == data0 + padded);
            assert forall|j: nat| #![trigger self.writer_after(tags, j, cap)] j < k implies {
                let before = self.writer_after(tags, j, cap)->Ok_0.1;
                let bj = self.written_bytes(pdf_subset, j as int);
                &&& recs[j as int] == record_for(tags[j as int], bj, before, cap)
                &&& before.len() + bj.len() <= data.len()
                &&& data.subrange(before.len() as int, (before.len() + bj.len()) as int) == bj
            } by {
                let before = self.writer_after(tags, j, cap)->Ok_0.1;
                let bj = self.written_bytes(pdf_subset, j as int);
                if j < i {
                    assert(recs[j as int] == recs0[j as int]);
                    assert(data0.subrange(before.len() as int, (before.len() + bj.len()) as int) == bj);
                    assert(data.subrange(before.len() as int, (before.len() + bj.len()) as int) =~= data0.subrange(
                        before.len() as int,
                        (before.len() + bj.len()) as int,
                    ));
                } else {
                    assert(j == i);
                    assert(data.subrange(data0.len() as int, (data0.len() + b.len()) as int) =~= b);
                }
            }
        }
    }
}


/// Reading the directory that `finish` writes, before any bytes: the directory holds the
/// version and exactly the records that were written.
proof fn lemma_read_directory(sfnt: SfntVersion, recs: Seq<TableRecord>, es: nat, body: Seq<u8>)
    requires
        recs.len() <= 0xFFFF,
        16 * two_to(es) <= 0xFFFF,
        16 * recs.len() >= 16 * two_to(es),
        es <= 0xFFFF,
    ensures
        ({
            let data = be16s(directory_words(sfnt, recs, es)) + body;
            let n = OffsetTable::word_count(recs.len() as u16);
            &&& OffsetTable::unpack_outcome(data) == Ok::<nat, FontError>(n)
            &&& forall|ot: OffsetTable| #[trigger] ot.matches_words(font_words(data, n)) ==> ot.sfnt_version == sfnt
                && ot.tables@ == recs
        }),
{
    let w = directory_words(sfnt, recs, es);
    let dir = be16s(w);
    let data = dir + body;
    let n = OffsetTable::word_count(recs.len() as u16);
    lemma_be16s(w);
    assert(records_words(recs).len() == 8 * recs.len());
    assert(w.len() == n);
    lemma_get_u16s(Seq::empty(), w, body);
    assert(Seq::<u8>::empty() + be16s(w) + body =~= data);
    let fw = get_u16s(data, 0, w.len());
    assert(fw == w);
    assert(font_words(data, n) == w);
    assert(get_u16(data, 0) == w[0]) by { assert(fw[0] == w[0]); }
    assert(get_u16(data, 2) == w[1]) by { assert(fw[1] == w[1]); }
    assert(get_u16(data, 4) == w[2]) by { assert(fw[2] == w[2]); }
    lemma_join32(sfnt.spec_number());
    assert(get_u32(data, 0) == sfnt.spec_number());
    let head = seq![
        hi16(sfnt.spec_number()),
        lo16(sfnt.spec_number()),
        recs.len() as u16,
        (16 * two_to(es)) as u16,
        es as u16,
        (16 * recs.len() - 16 * two_to(es)) as u16,
    ];
    assert(w == head + records_words(recs));
    assert forall|ot: OffsetTable| #[trigger] ot.matches_words(font_words(data, n)) implies ot.sfnt_version == sfnt
        && ot.tables@ == recs by {
        assert(ot.matches_words(w));
        assert forall|k: int| 0 <= k < recs.len() implies ot.tables@[k] == recs[k] by {
            lemma_record_in_words(head, recs, k);
            assert(record_matches(ot.tables@[k], w, 6 + 8 * k));
            assert(ot.tables@[k].tag@ =~= recs[k].tag@);
            assert(ot.tables@[k].tag == recs[k].tag) by {
                assert(ot.tables@[k].tag@ =~= recs[k].tag@);
            }
        }
        assert(ot.tables@ =~= recs);
    }
}


/// The tag array of a table has the table's tag bytes.
proof fn lemma_tag_array(t: TableTag)
    ensures
        tag_array(t)@ == t.spec_bytes(),
{
    let a: [u8; 4] = match t {
        TableTag::Head => [0x68u8, 0x65, 0x61, 0x64],
        TableTag::Hhea => [0x68u8, 0x68, 0x65, 0x61],
        TableTag::Maxp => [0x6Du8, 0x61, 0x78, 0x70],
        TableTag::Loca => [0x6Cu8, 0x6F, 0x63, 0x61],
        TableTag::Os2 => [0x4Fu8, 0x53, 0x2F, 0x32],
        TableTag::Cmap => [0x63u8, 0x6D, 0x61, 0x70],
        TableTag::Glyf => [0x67u8, 0x6C, 0x79, 0x66],
        TableTag::Hmtx => [0x68u8, 0x6D, 0x74, 0x78],
        TableTag::Name => [0x6Eu8, 0x61, 0x6D, 0x65],
        TableTag::Post => [0x70u8, 0x6F, 0x73, 0x74],
    };
    assert(a@ =~= t.spec_bytes());
}

/// Different tables have different tags.
proof fn lemma_tag_bytes_injective(a: TableTag, b: TableTag)
    ensures
        a.spec_bytes() == b.spec_bytes() ==> a == b,
{
    if a.spec_bytes() == b.spec_bytes() {
        assert(a.spec_bytes()[0] == b.spec_bytes()[0]);
        assert(a.spec_bytes()[1] == b.spec_bytes()[1]);
        assert(a.spec_bytes()[2] == b.spec_bytes()[2]);
        assert(a.spec_bytes()[3] == b.spec_bytes()[3]);
    }
}

/// The written tables are different tables.
proof fn lemma_written_tags_distinct(pdf_subset: bool, i: int, j: int)
    requires
        0 <= i < written_tags(pdf_subset).len(),
        0 <= j < written_tags(pdf_subset).len(),
        i != j,
    ensures
        written_tags(pdf_subset)[i].spec_bytes() != written_tags(pdf_subset)[j].spec_bytes(),
{
    lemma_tag_bytes_injective(written_tags(pdf_subset)[i], written_tags(pdf_subset)[j]);
}

/// Looking up a tag finds the first record with it.
proof fn lemma_find_tag_at(recs: Seq<TableRecord>, t: Seq<u8>, k: int, from: int)
    requires
        0 <= from <= k < recs.len(),
        recs[k].tag@ == t,
        forall|i: int| from <= i < k ==> recs[i].tag@ != t,
    ensures
        find_tag(recs, t, from) == Some(k),
    decreases k - from,
{
    if from < k {
        lemma_find_tag_at(recs, t, k, from + 1);
    }
}


/// Reading the head table with its check sum adjustment replaced gives the table with that
/// adjustment.
proof fn lemma_head_adjusted(h: HeadTable, adj: u32)
    ensures
        HeadTable::spec_unpack(replace_u32(h.spec_pack(), 8, adj)) == Some(HeadTable { check_sum_adjustment: adj, ..h }),
{
    let h2 = HeadTable { check_sum_adjustment: adj, ..h };
    let w = h.words();
    let w2 = h2.words();
    let s = h.spec_pack();
    lemma_be16s(w);
    lemma_be16s(w2);
    let s2 = replace_u32(s, 8, adj);
    assert(s2.len() == 54);
    assert forall|k: int| 0 <= k < 27 implies #[trigger] get_u16s(s2, 0, 27)[k] == w2[k] by {
        if k == 4 {
            assert(s2.subrange(8, 10) =~= be16(hi16(adj)));
            lemma_get_u16(s2, 8, hi16(adj));
        } else if k == 5 {
            assert(s2.subrange(10, 12) =~= be16(lo16(adj)));
            lemma_get_u16(s2, 10, lo16(adj));
        } else {
            assert(s2[2 * k] == s[2 * k]);
            assert(s2[2 * k + 1] == s[2 * k + 1]);
            assert(get_u16(s, 2 * k) == w[k]);
            assert(w[k] == w2[k]);
        }
    }
    assert(get_u16s(s2, 0, 27) =~= w2);
    h2.lemma_pack_unpack();
    lemma_get_u16s(Seq::empty(), w2, Seq::empty());
    assert(Seq::<u8>::empty() + be16s(w2) + Seq::<u8>::empty() =~= h2.spec_pack());
}


impl OpenTypeFont {
    /// The bytes of each table that is written.
    proof fn lemma_table_bytes(self)
        requires
            self.cmap_table.spec_pack() is Ok,
            self.hmtx_table.h_metrics@.len() <= 0xFFFF,
            self.hmtx_table.left_side_bearings@.len() <= 0xFFFF,
        ensures
            self.table_bytes_of(TableTag::Os2) == Ok::<Seq<u8>, FontError>(self.os2_table.spec_pack()),
            self.table_bytes_of(TableTag::Cmap) == self.cmap_table.spec_pack(),
            self.table_bytes_of(TableTag::Glyf) == Ok::<Seq<u8>, FontError>(glyphs_bytes(self.glyf_table@)),
            self.table_bytes_of(TableTag::Head) == Ok::<Seq<u8>, FontError>(self.zeroed_head().spec_pack()),
            self.table_bytes_of(TableTag::Hhea) == Ok::<Seq<u8>, FontError>(self.hhea_table.spec_pack()),
            self.table_bytes_of(TableTag::Hmtx) == Ok::<Seq<u8>, FontError>(
                self.hmtx_table.metric_bytes() + bei16s(self.hmtx_table.left_side_bearings@),
            ),
            self.table_bytes_of(TableTag::Loca) == Ok::<Seq<u8>, FontError>(
                offsets_bytes(glyph_offsets(self.glyf_table@, true), self.loca_table.format),
            ),
            self.table_bytes_of(TableTag::Maxp) == Ok::<Seq<u8>, FontError>(self.maxp_table.spec_pack()),
            self.table_bytes_of(TableTag::Name) == Ok::<Seq<u8>, FontError>(self.name_table.spec_pack()),
            self.table_bytes_of(TableTag::Post) == Ok::<Seq<u8>, FontError>(self.post_table.spec_pack()),
            self.tables_pack(false),
            written_tags(false)[0] == TableTag::Os2,
            written_tags(false)[1] == TableTag::Cmap,
            written_tags(false)[2] == TableTag::Glyf,
            written_tags(false)[3] == TableTag::Head,
            written_tags(false)[4] == TableTag::Hhea,
            written_tags(false)[5] == TableTag::Hmtx,
            written_tags(false)[6] == TableTag::Loca,
            written_tags(false)[7] == TableTag::Maxp,
            written_tags(false)[8] == TableTag::Name,
            written_tags(false)[9] == TableTag::Post,
            written_tags(false).len() == 10,
    {
        reveal(OpenTypeFont::table_bytes_of);
        let tags = written_tags(false);
        assert forall|k: int| 0 <= k < tags.len() implies (#[trigger] self.table_bytes_of(tags[k])) is Ok by {
            assert(tags[k] == TableTag::Os2 || tags[k] == TableTag::Cmap || tags[k] == TableTag::Glyf || tags[k]
                == TableTag::Head || tags[k] == TableTag::Hhea || tags[k] == TableTag::Hmtx || tags[k]
                == TableTag::Loca || tags[k] == TableTag::Maxp || tags[k] == TableTag::Name || tags[k]
                == TableTag::Post);
        }
    }

    /// The data that writing all tables of the whole font gives, before the adjustment.
    pub open spec fn written_data(self) -> Seq<u8> {
        self.writer_after(written_tags(false), 10, 10)->Ok_0.1
    }

    /// The records that writing all tables of the whole font gives.
    pub open spec fn written_records(self) -> Seq<TableRecord> {
        self.writer_after(written_tags(false), 10, 10)->Ok_0.0
    }

    /// The data written before the `k`-th table.
    pub open spec fn data_before(self, k: nat) -> Seq<u8> {
        self.writer_after(written_tags(false), k, 10)->Ok_0.1
    }

    /// The directory that writing the whole font gives.
    pub open spec fn written_directory(self) -> Seq<u8> {
        be16s(directory_words(self.sfnt_version, self.written_records(), 3))
    }

    /// The check sum adjustment that writing the whole font gives.
    pub open spec fn written_adjustment(self) -> u32 {
        adjustment(self.written_directory(), self.written_records())
    }

    /// The bytes that reading the `k`-th written table finds: the table as packed, but for
    /// the head table's check sum adjustment.
    pub open spec fn read_bytes(self, k: int) -> Seq<u8> {
        if k == 3 {
            replace_u32(self.written_bytes(false, 3), 8, self.written_adjustment())
        } else {
            self.written_bytes(false, k)
        }
    }

    /// The written font fits into `u32::MAX` bytes.
    pub open spec fn fits_u32(self) -> bool {
        172 + self.written_data().len() <= u32::MAX
    }

    /// What `to_vec` gives for the whole font, where its tables pack.
    #[verifier::spinoff_prover]
    #[verifier::rlimit(80)]
    proof fn lemma_to_vec_shape(self)
        requires
            self.tables_pack(false),
        ensures
            self.spec_to_vec(false) == Ok::<(Seq<u8>, Seq<u8>), FontError>(
                (
                    self.written_directory(),
                    replace_u32(self.written_data(), (self.data_before(3).len() + 8) as int, self.written_adjustment()),
                ),
            ),
            self.written_records().len() == 10,
            self.written_directory().len() == 172,
    {
        self.lemma_writer_layout(false, 10);
        self.lemma_writer_layout(false, 3);
        lemma_be16s(directory_words(self.sfnt_version, self.written_records(), 3));
        assert(records_words(self.written_records()).len() == 80);
    }

    /// The record of the `k`-th written table, and where its bytes stand in the data.
    #[verifier::spinoff_prover]
    #[verifier::rlimit(80)]
    proof fn lemma_written_record(self, k: int)
        requires
            self.tables_pack(false),
            self.fits_u32(),
            0 <= k < 10,
        ensures
            self.written_records()[k].tag@ == written_tags(false)[k].spec_bytes(),
            self.written_records()[k].offset == 172 + self.data_before(k as nat).len(),
            self.written_records()[k].length == self.written_bytes(false, k).len(),
            self.data_before(k as nat).len() + self.written_bytes(false, k).len() <= self.written_data().len(),
            self.written_data().subrange(
                self.data_before(k as nat).len() as int,
                (self.data_before(k as nat).len() + self.written_bytes(false, k).len()) as int,
            ) == self.written_bytes(false, k),
    {
        let tags = written_tags(false);
        self.lemma_writer_layout(false, 10);
        lemma_tag_array(tags[k]);
        assert(self.written_records()[k] == record_for(
            tags[k],
            self.written_bytes(false, k),
            self.data_before(k as nat),
            10,
        ));
    }

    /// The tables before the head table end before it; those after it start after it.
    #[verifier::spinoff_prover]
    #[verifier::rlimit(80)]
    proof fn lemma_around_head(self, k: int)
        requires
            self.tables_pack(false),
            0 <= k < 10,
            k != 3,
        ensures
            k < 3 ==> self.data_before(k as nat).len() + self.written_bytes(false, k).len() <= self.data_before(3).len(),
            k > 3 ==> self.data_before(3).len() + self.written_bytes(false, 3).len() <= self.data_before(k as nat).len(),
    {
        let tags = written_tags(false);
        if k < 3 {
            self.lemma_writer_layout(false, 3);
        } else {
            self.lemma_writer_layout(false, k as nat);
        }
    }

    /// Each written table stands where its record says, and reading it finds its bytes, but
    /// for the head table's check sum adjustment.
    #[verifier::spinoff_prover]
    #[verifier::rlimit(80)]
    proof fn lemma_written_table(self, k: int)
        requires
            self.tables_pack(false),
            self.fits_u32(),
            0 <= k < 10,
        ensures
            ({
                let body = replace_u32(self.written_data(), (self.data_before(3).len() + 8) as int, self.written_adjustment());
                let data = self.written_directory() + body;
                let r = self.written_records()[k];
                &&& r.offset + r.length <= data.len()
                &&& data.subrange(r.offset as int, r.offset + r.length) == self.read_bytes(k)
            }),
    {
        self.lemma_to_vec_shape();
        self.lemma_written_record(k);
        self.lemma_written_record(3);
        crate::otf::tables::head::lemma_head_pack_len(self.zeroed_head());
        reveal(OpenTypeFont::table_bytes_of);
        let d = self.written_data();
        let dk = self.data_before(k as nat);
        let d3 = self.data_before(3);
        let b = self.written_bytes(false, k);
        let b3 = self.written_bytes(false, 3);
        assert(b3.len() == 54);
        let p = (d3.len() + 8) as int;
        let adj = self.written_adjustment();
        let body = replace_u32(d, p, adj);
        let dir = self.written_directory();
        let data = dir + body;
        assert(body.len() == d.len());
        let lo = dk.len() as int;
        let hi = (dk.len() + b.len()) as int;
        assert(data.subrange(172 + lo, 172 + hi) =~= body.subrange(lo, hi));
        if k == 3 {
            assert(body.subrange(lo, hi) =~= replace_u32(b, 8, adj));
        } else {
            self.lemma_around_head(k);
            assert(body.subrange(lo, hi) =~= d.subrange(lo, hi));
        }
    }
}


impl OpenTypeFont {
    /// The bytes of the written font: the directory, then the tables with the adjustment.
    #[verifier::opaque]
    pub open spec fn written_font(self) -> Seq<u8> {
        self.written_directory() + replace_u32(
            self.written_data(),
            (self.data_before(3).len() + 8) as int,
            self.written_adjustment(),
        )
    }

    /// Looking up the `k`-th written table in a directory that holds the written records finds
    /// the bytes that reading it should find.
    proof fn lemma_table_of(self, ot: OffsetTable, k: int)
        requires
            self.tables_pack(false),
            self.fits_u32(),
            0 <= k < 10,
            ot.tables@ == self.written_records(),
        ensures
            table_of(self.written_font(), ot, written_tags(false)[k]) == Some(Some(self.read_bytes(k))),
    {
        reveal(OpenTypeFont::written_font);
        let tags = written_tags(false);
        let recs = self.written_records();
        self.lemma_to_vec_shape();
        self.lemma_written_record(k);
        self.lemma_written_table(k);
        let t = tags[k].spec_bytes();
        assert forall|i: int| 0 <= i < k implies recs[i].tag@ != t by {
            self.lemma_written_record(i);
            lemma_written_tags_distinct(false, i, k);
        }
        lemma_find_tag_at(recs, t, k, 0);
    }
}


impl OpenTypeFont {
    /// The font with the head table's check sum adjustment replaced by `adj`.
    pub open spec fn with_adjustment(self, adj: u32) -> OpenTypeFont {
        OpenTypeFont { head_table: HeadTable { check_sum_adjustment: adj, ..self.head_table }, ..self }
    }

    /// The font's tables agree with one another, so that writing and reading the font keeps
    /// them: the font has TrueType outlines; the CMAP table is in canonical form; 'loca' holds the offsets of the glyphs of
    /// 'glyf' padded to 4 bytes, one more than 'maxp' counts glyphs, in the format that 'head'
    /// names (in the short format below `0x20000`); every glyph packs faithfully and all fit
    /// into `u32::MAX` bytes; 'hhea' counts the metrics of 'hmtx', which holds a metric or a
    /// bearing for each glyph; the OS/2 fields that its version lacks are 0; the counts of
    /// 'name' are those of its records.
    pub open spec fn is_consistent(self) -> bool {
        &&& self.sfnt_version == SfntVersion::TrueType
        &&& self.cmap_table.is_canonical()
        &&& glyph_offsets(self.glyf_table@, true).len() == self.maxp_table.spec_num_glyphs() + 1
        &&& self.loca_table.format == format_of(self.head_table.index_to_loc_format)
        &&& self.loca_table.format == Format::Short ==> forall|k: int|
            0 <= k < glyph_offsets(self.glyf_table@, true).len() ==> #[trigger] glyph_offsets(self.glyf_table@, true)[k]
                < 0x20000
        &&& forall|i: int|
            0 <= i < self.glyf_table@.len() && (#[trigger] self.glyf_table@[i]) is Some ==> is_packable(
                self.glyf_table@[i]->0,
            )
        &&& total_size(self.glyf_table@, true) <= u32::MAX
        &&& self.hmtx_table.h_metrics@.len() == self.hhea_table.number_of_h_metrics
        &&& self.hmtx_table.h_metrics@.len() + self.hmtx_table.left_side_bearings@.len()
            == self.maxp_table.spec_num_glyphs()
        &&& self.os2_table.is_normalized()
        &&& match self.name_table {
            NameTable::Format0(t) => t.count == t.name_records@.len(),
            NameTable::Format1(t) => t.count == t.name_records@.len() && t.lang_tag_count
                == t.lang_tag_records@.len(),
        }
    }

    /// What reading each written table finds.
    proof fn lemma_tables_read(self)
        requires
            self.is_consistent(),
        ensures
            self.tables_pack(false),
            HeadTable::spec_unpack(self.read_bytes(3)) == Some(self.with_adjustment(self.written_adjustment()).head_table),
            HheaTable::spec_unpack(self.read_bytes(4)) == Some(self.hhea_table),
            MaxpTable::spec_unpack(self.read_bytes(7)) == Ok::<MaxpTable, FontError>(self.maxp_table),
            self.read_bytes(6).len() >= loca_len(self.maxp_table.spec_num_glyphs() + 1, self.loca_table.format),
            offsets_at(self.read_bytes(6), (self.maxp_table.spec_num_glyphs() + 1) as nat, self.loca_table.format)
                == glyph_offsets(self.glyf_table@, true),
            Os2Table::holds_table(self.read_bytes(0)),
            self.os2_table.matches_words(get_u16s(self.read_bytes(0), 0, word_count(get_u16(self.read_bytes(0), 0)))),
            CmapTable::spec_unpack(self.read_bytes(1)) == Some(Ok::<CmapView, FontError>(self.cmap_table@)),
            glyf_unpack(self.read_bytes(2), glyph_offsets(self.glyf_table@, true)) == Some(
                Ok::<Seq<Option<GlyphView>>, FontError>(self.glyf_table@),
            ),
            HmtxTable::spec_unpack(
                self.read_bytes(5),
                self.hhea_table.number_of_h_metrics,
                self.maxp_table.spec_num_glyphs(),
            ) == Ok::<(Seq<LongHorMetric>, Seq<i16>), FontError>(
                (self.hmtx_table.h_metrics@, self.hmtx_table.left_side_bearings@),
            ),
            self.name_table.matches_words(table_words(self.read_bytes(8))),
            self.post_table.matches_bytes(self.read_bytes(9)),
    {
        self.cmap_table.law_cmap_round_trip();
        self.lemma_table_bytes();
        lemma_head_adjusted(self.zeroed_head(), self.written_adjustment());
        self.hhea_table.lemma_pack_unpack();
        self.maxp_table.lemma_pack_unpack();
        law_loca_round_trip(self.loca_table.format, self.glyf_table, self.head_table, self.maxp_table);
        self.os2_table.lemma_pack_unpack();
        law_glyf_round_trip(self.glyf_table@);
        self.hmtx_table.lemma_pack_unpack();
        self.name_table.lemma_pack_unpack();
        self.post_table.lemma_pack_unpack();
        assert(self.loca_table.format == Format::Short ==> loca_len(
            self.maxp_table.spec_num_glyphs() + 1,
            self.loca_table.format,
        ) == 2 * (self.maxp_table.spec_num_glyphs() + 1));
    }
}

/// Reading hmtx, name and post succeeds where each is found and reads.
proof fn lemma_reads_last(
    data: Seq<u8>,
    ot: OffsetTable,
    hhea: HheaTable,
    maxp: MaxpTable,
    xb: Seq<u8>,
    nb: Seq<u8>,
    pb: Seq<u8>,
)
    requires
        table_of(data, ot, TableTag::Hmtx) == Some(Some(xb)),
        table_of(data, ot, TableTag::Name) == Some(Some(nb)),
        table_of(data, ot, TableTag::Post) == Some(Some(pb)),
        HmtxTable::spec_unpack(xb, hhea.number_of_h_metrics, maxp.spec_num_glyphs()) is Ok,
        crate::otf::tables::name::unpack_outcome(table_words(nb)) is Ok,
        pb.len() >= 32,
    ensures
        tables_outcome_last(data, ot, hhea, maxp) == Some(Ok::<(), FontError>(())),
{
}


/// Reading loca, OS/2, cmap and glyf succeeds where each is found and reads, and so does the
/// rest.
proof fn lemma_reads_rest(
    data: Seq<u8>,
    ot: OffsetTable,
    head: HeadTable,
    hhea: HheaTable,
    maxp: MaxpTable,
    lb: Seq<u8>,
    ob: Seq<u8>,
    cb: Seq<u8>,
    gb: Seq<u8>,
)
    requires
        table_of(data, ot, TableTag::Loca) == Some(Some(lb)),
        table_of(data, ot, TableTag::Os2) == Some(Some(ob)),
        table_of(data, ot, TableTag::Cmap) == Some(Some(cb)),
        table_of(data, ot, TableTag::Glyf) == Some(Some(gb)),
        lb.len() >= loca_len(maxp.spec_num_glyphs() + 1, format_of(head.index_to_loc_format)),
        Os2Table::holds_table(ob),
        CmapTable::spec_unpack(cb) matches Some(Ok(_)),
        glyf_unpack(
            gb,
            offsets_at(lb, (maxp.spec_num_glyphs() + 1) as nat, format_of(head.index_to_loc_format)),
        ) matches Some(Ok(_)),
        tables_outcome_last(data, ot, hhea, maxp) == Some(Ok::<(), FontError>(())),
    ensures
        tables_outcome_rest(data, ot, head, hhea, maxp) == Some(Ok::<(), FontError>(())),
{
}

/// Reading head, hhea and maxp succeeds where each is found and reads, and so does the rest.
proof fn lemma_reads_first(
    data: Seq<u8>,
    ot: OffsetTable,
    head: HeadTable,
    hhea: HheaTable,
    maxp: MaxpTable,
    hb: Seq<u8>,
    ab: Seq<u8>,
    mb: Seq<u8>,
)
    requires
        table_of(data, ot, TableTag::Head) == Some(Some(hb)),
        table_of(data, ot, TableTag::Hhea) == Some(Some(ab)),
        table_of(data, ot, TableTag::Maxp) == Some(Some(mb)),
        HeadTable::spec_unpack(hb) == Some(head),
        HheaTable::spec_unpack(ab) == Some(hhea),
        MaxpTable::spec_unpack(mb) == Ok::<MaxpTable, FontError>(maxp),
        tables_outcome_rest(data, ot, head, hhea, maxp) == Some(Ok::<(), FontError>(())),
    ensures
        read_outcome(data, ot) == Some(Ok::<(), FontError>(())),
{
}


/// A font matches the tables of `data` where each of its tables reads back from the bytes that
/// the directory `ot` finds for it: `bs` holds them in the order OS/2, cmap, glyf, head, hhea,
/// hmtx, loca, maxp, name, post.
proof fn lemma_reads_back(data: Seq<u8>, ot: OffsetTable, bs: Seq<Seq<u8>>, f: OpenTypeFont, loca: Seq<u32>)
    requires
        bs.len() == 10,
        table_of(data, ot, TableTag::Os2) == Some(Some(bs[0])),
        table_of(data, ot, TableTag::Cmap) == Some(Some(bs[1])),
        table_of(data, ot, TableTag::Glyf) == Some(Some(bs[2])),
        table_of(data, ot, TableTag::Head) == Some(Some(bs[3])),
        table_of(data, ot, TableTag::Hhea) == Some(Some(bs[4])),
        table_of(data, ot, TableTag::Hmtx) == Some(Some(bs[5])),
        table_of(data, ot, TableTag::Loca) == Some(Some(bs[6])),
        table_of(data, ot, TableTag::Maxp) == Some(Some(bs[7])),
        table_of(data, ot, TableTag::Name) == Some(Some(bs[8])),
        table_of(data, ot, TableTag::Post) == Some(Some(bs[9])),
        ot.sfnt_version == f.sfnt_version,
        f.sfnt_version == SfntVersion::TrueType,
        HeadTable::spec_unpack(bs[3]) == Some(f.head_table),
        HheaTable::spec_unpack(bs[4]) == Some(f.hhea_table),
        MaxpTable::spec_unpack(bs[7]) == Ok::<MaxpTable, FontError>(f.maxp_table),
        f.loca_table.format == format_of(f.head_table.index_to_loc_format),
        bs[6].len() >= loca_len(f.maxp_table.spec_num_glyphs() + 1, f.loca_table.format),
        offsets_at(bs[6], (f.maxp_table.spec_num_glyphs() + 1) as nat, f.loca_table.format) == loca,
        Os2Table::holds_table(bs[0]),
        f.os2_table.matches_words(get_u16s(bs[0], 0, word_count(get_u16(bs[0], 0)))),
        CmapTable::spec_unpack(bs[1]) == Some(Ok::<CmapView, FontError>(f.cmap_table@)),
        f.cmap_table.wf(),
        glyf_unpack(bs[2], loca) == Some(Ok::<Seq<Option<GlyphView>>, FontError>(f.glyf_table@)),
        HmtxTable::spec_unpack(bs[5], f.hhea_table.number_of_h_metrics, f.maxp_table.spec_num_glyphs())
            == Ok::<(Seq<LongHorMetric>, Seq<i16>), FontError>(
            (f.hmtx_table.h_metrics@, f.hmtx_table.left_side_bearings@),
        ),
        f.name_table.matches_words(table_words(bs[8])),
        f.post_table.matches_bytes(bs[9]),
    ensures
        tables_outcome(data, ot) == Some(Ok::<(), FontError>(())),
        f.matches_tables_loca(data, ot, loca),
{
    let n = f.maxp_table.spec_num_glyphs();
    assert(crate::otf::tables::name::unpack_outcome(table_words(bs[8])) is Ok) by {
        match f.name_table {
            NameTable::Format0(t) => {},
            NameTable::Format1(t) => {},
        }
    }
    lemma_reads_last(data, ot, f.hhea_table, f.maxp_table, bs[5], bs[8], bs[9]);
    lemma_reads_rest(data, ot, f.head_table, f.hhea_table, f.maxp_table, bs[6], bs[0], bs[1], bs[2]);
    lemma_reads_first(data, ot, f.head_table, f.hhea_table, f.maxp_table, bs[3], bs[4], bs[7]);
}

impl OpenTypeFont {
    /// Reading the tables of the written font with a directory that holds the written records.
    #[verifier::spinoff_prover]
    #[verifier::rlimit(100)]
    proof fn lemma_read_tables(self, ot: OffsetTable)
        requires
            self.is_consistent(),
            self.fits_u32(),
            ot.tables@ == self.written_records(),
            ot.sfnt_version == self.sfnt_version,
        ensures
            tables_outcome(self.written_font(), ot) == Some(Ok::<(), FontError>(())),
            self.with_adjustment(self.written_adjustment()).matches_tables_loca(
                self.written_font(),
                ot,
                glyph_offsets(self.glyf_table@, true),
            ),
    {
        self.lemma_tables_read();
        let data = self.written_font();
        assert(written_tags(false) == seq![
            TableTag::Os2,
            TableTag::Cmap,
            TableTag::Glyf,
            TableTag::Head,
            TableTag::Hhea,
            TableTag::Hmtx,
            TableTag::Loca,
            TableTag::Maxp,
            TableTag::Name,
            TableTag::Post,
        ]);
        self.lemma_table_of(ot, 0);
        self.lemma_table_of(ot, 1);
        self.lemma_table_of(ot, 2);
        self.lemma_table_of(ot, 3);
        self.lemma_table_of(ot, 4);
        self.lemma_table_of(ot, 5);
        self.lemma_table_of(ot, 6);
        self.lemma_table_of(ot, 7);
        self.lemma_table_of(ot, 8);
        self.lemma_table_of(ot, 9);
        let bs = seq![
            self.read_bytes(0),
            self.read_bytes(1),
            self.read_bytes(2),
            self.read_bytes(3),
            self.read_bytes(4),
            self.read_bytes(5),
            self.read_bytes(6),
            self.read_bytes(7),
            self.read_bytes(8),
            self.read_bytes(9),
        ];
        lemma_reads_back(data, ot, bs, self.with_adjustment(self.written_adjustment()), glyph_offsets(self.glyf_table@, true));
    }
}

impl OpenTypeFont {
    /// Writing a whole font whose tables agree with one another, then reading the bytes back:
    /// the directory reads, the tables read without an error, and they are the tables of the
    /// font, but for the head table's check sum adjustment, which reads as the one written, and
    /// the loca table, which holds the glyphs' offsets padded to 4 bytes (the font's own, where
    /// its offsets are already padded).
    #[verifier::spinoff_prover]
    pub proof fn law_font_round_trip(self)
        requires
            self.is_consistent(),
            self.fits_u32(),
        ensures
            self.spec_to_vec(false) is Ok,
            self.spec_to_vec(false)->Ok_0.0 + self.spec_to_vec(false)->Ok_0.1 == self.written_font(),
            OffsetTable::unpack_outcome(self.written_font()) == Ok::<nat, FontError>(86),
            slice_defined(self.written_font()),
            forall|ot: OffsetTable| #[trigger] ot.matches_words(font_words(self.written_font(), 86)) ==> {
                &&& tables_outcome(self.written_font(), ot) == Some(Ok::<(), FontError>(()))
                &&& self.with_adjustment(self.written_adjustment()).matches_tables_loca(
                    self.written_font(),
                    ot,
                    glyph_offsets(self.glyf_table@, true),
                )
                &&& self.loca_table.offsets@ == glyph_offsets(self.glyf_table@, true) ==> self.with_adjustment(
                    self.written_adjustment(),
                ).matches_tables(self.written_font(), ot)
            },
    {
        self.lemma_tables_read();
        self.lemma_to_vec_shape();
        let data = self.written_font();
        let recs = self.written_records();
        let body = replace_u32(self.written_data(), (self.data_before(3).len() + 8) as int, self.written_adjustment());
        reveal_with_fuel(two_to, 4);
        assert(two_to(3) == 8);
        lemma_read_directory(self.sfnt_version, recs, 3, body);
        assert(OffsetTable::word_count(recs.len() as u16) == 86);
        assert(data == self.written_directory() + body) by {
            reveal(OpenTypeFont::written_font);
        }
        let f = self.with_adjustment(self.written_adjustment());
        assert forall|ot: OffsetTable| #[trigger] ot.matches_words(font_words(data, 86)) implies {
            &&& tables_outcome(data, ot) == Some(Ok::<(), FontError>(()))
            &&& f.matches_tables_loca(data, ot, glyph_offsets(self.glyf_table@, true))
            &&& self.loca_table.offsets@ == glyph_offsets(self.glyf_table@, true) ==> f.matches_tables(data, ot)
        } by {
            self.lemma_read_tables(ot);
        }
    }
}

} // verus!

verus! {

impl OpenTypeFont {
    /// What writing a font that was read needs beyond what reading gave: CMAP subtables in the
    /// form that `pack` writes (counters that agree with their arrays, a zero pad, bodies within
    /// a 16-bit length), each glyph in the form that `pack` writes (a simple glyph's outline
    /// filling whole 4-byte words, a composite glyph's flags as `pack` sets them), the glyphs'
    /// padded offsets within the short loca format where the font uses it, the sizes within 32
    /// bits, and no more metrics than glyphs.
    pub open spec fn rewritable(self) -> bool {
        let subs = self.cmap_table.subtables@;
        &&& forall|i: int| 0 <= i < subs.len() ==> (#[trigger] subs[i]).wf()
        &&& 4 + 8 * self.cmap_table.encoding_records@.len() + subtables_bytes(subs, subs.len()).len() <= u32::MAX
        &&& forall|i: int|
            0 <= i < self.glyf_table@.len() && (#[trigger] self.glyf_table@[i]) is Some ==> is_packable(
                self.glyf_table@[i]->0,
            )
        &&& total_size(self.glyf_table@, true) <= u32::MAX
        &&& self.loca_table.format == Format::Short ==> forall|k: int|
            0 <= k < glyph_offsets(self.glyf_table@, true).len() ==> #[trigger] glyph_offsets(self.glyf_table@, true)[k]
                < 0x20000
        &&& self.hhea_table.number_of_h_metrics <= self.maxp_table.spec_num_glyphs()
    }

    /// A font that reading gave, which can be written back, has tables that agree with one
    /// another.
    proof fn lemma_read_consistent(self, data: Seq<u8>, ot: OffsetTable)
        requires
            tables_outcome(data, ot) == Some(Ok::<(), FontError>(())),
            self.matches_tables(data, ot),
            self.rewritable(),
        ensures
            self.is_consistent(),
    {
        let head = self.head_table;
        let maxp = self.maxp_table;
        let n = maxp.spec_num_glyphs() + 1;
        let offsets = offsets_at(bytes_of(data, ot, TableTag::Loca), n as nat, format_of(head.index_to_loc_format));
        assert(self.sfnt_version == SfntVersion::TrueType);
        self.cmap_table.lemma_read_canonical(bytes_of(data, ot, TableTag::Cmap));
        lemma_glyf_unpack_len(bytes_of(data, ot, TableTag::Glyf), offsets, self.glyf_table@);
        let ob = bytes_of(data, ot, TableTag::Os2);
        let w = get_u16s(ob, 0, word_count(get_u16(ob, 0)));
        assert(self.os2_table.matches_v1(w) && self.os2_table.matches_v2(w) && self.os2_table.matches_v5(w));
    }

    /// Reading a font, writing it whole and reading the bytes back: where the font read can be
    /// written back, the written bytes read as its tables, but for the head table's check sum
    /// adjustment, which reads as the one written, and the loca table, which holds the glyphs'
    /// offsets padded to 4 bytes (the offsets read, where they were padded already).
    pub proof fn law_read_font_round_trip(self, data: Seq<u8>, ot: OffsetTable)
        requires
            tables_outcome(data, ot) == Some(Ok::<(), FontError>(())),
            self.matches_tables(data, ot),
            self.rewritable(),
            self.fits_u32(),
        ensures
            self.spec_to_vec(false) is Ok,
            self.spec_to_vec(false)->Ok_0.0 + self.spec_to_vec(false)->Ok_0.1 == self.written_font(),
            OffsetTable::unpack_outcome(self.written_font()) == Ok::<nat, FontError>(86),
            slice_defined(self.written_font()),
            forall|ot2: OffsetTable| #[trigger] ot2.matches_words(font_words(self.written_font(), 86)) ==> {
                &&& tables_outcome(self.written_font(), ot2) == Some(Ok::<(), FontError>(()))
                &&& self.with_adjustment(self.written_adjustment()).matches_tables_loca(
                    self.written_font(),
                    ot2,
                    glyph_offsets(self.glyf_table@, true),
                )
                &&& self.loca_table.offsets@ == glyph_offsets(self.glyf_table@, true) ==> self.with_adjustment(
                    self.written_adjustment(),
                ).matches_tables(self.written_font(), ot2)
            },
    {
        self.lemma_read_consistent(data, ot);
        self.law_font_round_trip();
    }
}

} // verus!
