//! The offset table: the directory of the tables of a font file.
use vstd::prelude::*;
use crate::big_endian::{
    be16s, be_u16_value, be_u32_value, lemma_get_u16s_values, get_u16, get_u16s, get_u32, hi16, hi8, hi_byte, join32, lemma_be16s, lemma_get_u16s,
    lemma_join32, lo16, lo8, lo_byte, make16, make32, pair16, read_u16s_at, split32, write_u16s,
};
use crate::otf::error::FontError;

verus! {

/// The sfnt version of TrueType outlines.
pub const TRUE_TYPE_SFNT: u32 = 0x00010000;

/// The sfnt version of CFF outlines ('OTTO').
pub const CFF_SFNT: u32 = 0x4F54544F;

/// The table directory of a font.
/// See https://docs.microsoft.com/en-us/typography/opentype/spec/otff
#[derive(Debug, PartialEq, Clone)]
pub struct OffsetTable {
    /// TrueType outlines or CFF data.
    pub sfnt_version: SfntVersion,
    /// Number of tables.
    pub num_tables: u16,
    /// (Maximum power of 2 <= numTables) x 16.
    pub search_range: u16,
    /// Log2(maximum power of 2 <= numTables).
    pub entry_selector: u16,
    /// NumTables x 16 - searchRange.
    pub range_shift: u16,
    /// Table records of the font, expected to be ordered ascending by their tag.
    pub tables: Vec<TableRecord>,
}

#[derive(Debug, PartialEq, Eq, Clone, Copy, Structural)]
pub enum SfntVersion {
    TrueType,
    CFF,
}

/// The entry of a table in the directory.
#[derive(Debug, PartialEq, Eq, Clone, Copy)]
pub struct TableRecord {
    /// The four bytes of the table's tag.
    pub tag: [u8; 4],
    pub check_sum: u32,
    /// Offset of the table from the beginning of the font.
    pub offset: u32,
    /// Length of the table in bytes.
    pub length: u32,
}

impl SfntVersion {
    /// The number that stands for the version in a font.
    pub open spec fn spec_number(self) -> u32 {
        match self {
            SfntVersion::TrueType => TRUE_TYPE_SFNT,
            SfntVersion::CFF => CFF_SFNT,
        }
    }

    /// The version that `v` stands for, or the error for an unknown one.
    pub open spec fn spec_from_number(v: u32) -> Result<SfntVersion, FontError> {
        if v == TRUE_TYPE_SFNT {
            Ok(SfntVersion::TrueType)
        } else if v == CFF_SFNT {
            Ok(SfntVersion::CFF)
        } else {
            Err(FontError::UnknownSfntVersion(v))
        }
    }

    /// The version that `v` stands for.
    pub fn from_number(v: u32) -> (r: Result<SfntVersion, FontError>)
        ensures
            r == Self::spec_from_number(v),
    {
        if v == TRUE_TYPE_SFNT {
            Ok(SfntVersion::TrueType)
        } else if v == CFF_SFNT {
            Ok(SfntVersion::CFF)
        } else {
            Err(FontError::UnknownSfntVersion(v))
        }
    }

    /// The number that stands for the version.
    pub fn number(&self) -> (r: u32)
        ensures
            r == self.spec_number(),
    {
        match self {
            SfntVersion::TrueType => TRUE_TYPE_SFNT,
            SfntVersion::CFF => CFF_SFNT,
        }
    }
}

/// The record `r` is the one held by the eight words of `w` from position `i` on.
pub open spec fn record_matches(r: TableRecord, w: Seq<u16>, i: int) -> bool {
    &&& r.tag@ == seq![hi8(w[i]), lo8(w[i]), hi8(w[i + 1]), lo8(w[i + 1])]
    &&& r.check_sum == join32(w[i + 2], w[i + 3])
    &&& r.offset == join32(w[i + 4], w[i + 5])
    &&& r.length == join32(w[i + 6], w[i + 7])
}

/// The eight words that hold a table record.
pub open spec fn record_words(r: TableRecord) -> Seq<u16> {
    seq![
        pair16(r.tag[0], r.tag[1]),
        pair16(r.tag[2], r.tag[3]),
        hi16(r.check_sum),
        lo16(r.check_sum),
        hi16(r.offset),
        lo16(r.offset),
        hi16(r.length),
        lo16(r.length),
    ]
}

/// The words that hold the records `r`, eight for each.
pub open spec fn records_words(r: Seq<TableRecord>) -> Seq<u16> {
    Seq::new(8 * r.len(), |k: int| record_words(r[k / 8])[k % 8])
}

/// The index of the first record with the tag `tag` from position `from` on.
pub open spec fn find_tag(r: Seq<TableRecord>, tag: Seq<u8>, from: int) -> Option<int>
    decreases r.len() - from,
{
    if from < 0 || from >= r.len() {
        None
    } else if r[from].tag@ == tag {
        Some(from)
    } else {
        find_tag(r, tag, from + 1)
    }
}

/// The words that the first `n` bytes of a font hold, where it has that many.
pub open spec fn font_words(s: Seq<u8>, n: nat) -> Seq<u16> {
    get_u16s(s, 0, n)
}

fn tag_eq(a: &[u8; 4], b: &[u8]) -> (r: bool)
    ensures
        r == (a@ == b@),
{
    if b.len() != 4 {
        assert(a@.len() == 4);
        return false;
    }
    let r = a[0] == b[0] && a[1] == b[1] && a[2] == b[2] && a[3] == b[3];
    if r {
        assert(a@ =~= b@);
    } else {
        assert(a@ != b@) by {
            if a@ == b@ {
                assert(a@[0] == b@[0] && a@[1] == b@[1] && a@[2] == b@[2] && a@[3] == b@[3]);
            }
        }
    }
    r
}

impl OffsetTable {
    /// The number of words that the directory of a font with `n` tables holds.
    pub open spec fn word_count(n: u16) -> nat {
        6 + 8 * n as nat
    }

    /// What reading the directory from the bytes `s` of a font gives: `Ok` with the number of
    /// its words, or the error.
    pub open spec fn unpack_outcome(s: Seq<u8>) -> Result<nat, FontError> {
        if s.len() < 4 {
            Err(FontError::UnexpectedEof)
        } else if SfntVersion::spec_from_number(get_u32(s, 0)) is Err {
            Err(FontError::UnknownSfntVersion(get_u32(s, 0)))
        } else if s.len() < 12 || s.len() < 2 * Self::word_count(get_u16(s, 4)) {
            Err(FontError::UnexpectedEof)
        } else {
            Ok(Self::word_count(get_u16(s, 4)))
        }
    }

    /// The directory is the one the words `w` hold.
    pub open spec fn matches_words(self, w: Seq<u16>) -> bool {
        &&& SfntVersion::spec_from_number(join32(w[0], w[1])) == Ok::<SfntVersion, FontError>(self.sfnt_version)
        &&& self.num_tables == w[2]
        &&& self.search_range == w[3]
        &&& self.entry_selector == w[4]
        &&& self.range_shift == w[5]
        &&& self.tables@.len() == w[2]
        &&& forall|k: int| 0 <= k < w[2] ==> record_matches(#[trigger] self.tables@[k], w, 6 + 8 * k)
    }

    /// The words that `pack` writes.
    pub open spec fn words(self) -> Seq<u16> {
        seq![
            hi16(self.sfnt_version.spec_number()),
            lo16(self.sfnt_version.spec_number()),
            self.num_tables,
            self.search_range,
            self.entry_selector,
            self.range_shift,
        ] + records_words(self.tables@)
    }

    /// The bytes that `pack` writes.
    pub open spec fn spec_pack(self) -> Seq<u8> {
        be16s(self.words())
    }

    /// The record of the table with tag `tag`: the first one, where several have it.
    pub fn get_table_record(&self, tag: &[u8]) -> (r: Option<&TableRecord>)
        ensures
            match find_tag(self.tables@, tag@, 0) {
                Some(k) => r == Some(&self.tables@[k]),
                None => r is None,
            },
    {
        let mut k: usize = 0;
        while k < self.tables.len()
            invariant
                k <= self.tables@.len(),
                find_tag(self.tables@, tag@, 0) == find_tag(self.tables@, tag@, k as int),
            decreases self.tables@.len() - k,
        {
            if tag_eq(&self.tables[k].tag, tag) {
                return Some(&self.tables[k]);
            }
            k = k + 1;
        }
        None
    }

    /// The bytes of the table with tag `tag` in the font `data`, to unpack the table from: `None`
    /// where no record has it, `Some(None)` where its record reaches past the data.
    pub fn unpack_table(&self, data: &[u8], tag: &[u8]) -> (r: Option<Option<Vec<u8>>>)
        ensures
            match find_tag(self.tables@, tag@, 0) {
                Some(k) => r is Some && if self.tables@[k].offset + self.tables@[k].length <= data@.len() {
                    r->0 is Some && r->0->0@ == data@.subrange(
                        self.tables@[k].offset as int,
                        self.tables@[k].offset + self.tables@[k].length,
                    )
                } else {
                    r->0 is None
                },
                None => r is None,
            },
    {
        match self.get_table_record(tag) {
            Some(record) => {
                proof {
                    lemma_find_tag(self.tables@, tag@, 0);
                }
                let n = data.len();
                if record.offset as u64 + record.length as u64 > n as u64 {
                    return Some(None);
                }
                let start = record.offset as usize;
                let end = start + record.length as usize;
                Some(Some(crate::big_endian::copy_range(data, start, end)))
            },
            None => None,
        }
    }

    /// The bytes of the table with tag `tag`, to unpack the table from; fails where no record has
    /// it, and with an unexpected end where its record reaches past the data.
    pub fn unpack_required_table(&self, data: &[u8], tag: &[u8; 4]) -> (r: Result<Vec<u8>, FontError>)
        ensures
            match find_tag(self.tables@, tag@, 0) {
                Some(k) => if self.tables@[k].offset + self.tables@[k].length <= data@.len() {
                    r is Ok && r->Ok_0@ == data@.subrange(
                        self.tables@[k].offset as int,
                        self.tables@[k].offset + self.tables@[k].length,
                    )
                } else {
                    r == Err::<Vec<u8>, FontError>(FontError::UnexpectedEof)
                },
                None => r == Err::<Vec<u8>, FontError>(FontError::TableMissing(*tag)),
            },
    {
        match self.unpack_table(data, tag.as_slice()) {
            Some(Some(d)) => Ok(d),
            Some(None) => Err(FontError::UnexpectedEof),
            None => Err(FontError::TableMissing(*tag)),
        }
    }

    /// Reads the directory from the start of the font's bytes.
    pub fn unpack(data: &[u8]) -> (r: Result<OffsetTable, FontError>)
        ensures
            match r {
                Ok(t) => match Self::unpack_outcome(data@) {
                    Ok(n) => t.matches_words(font_words(data@, n)),
                    Err(_) => false,
                },
                Err(e) => Self::unpack_outcome(data@) == Err::<nat, FontError>(e),
            },
    {
        if data.len() < 4 {
            return Err(FontError::UnexpectedEof);
        }
        let v = read_u16s_at(data, 0, 2);
        let sfnt_version = match SfntVersion::from_number(make32(v[0], v[1])) {
            Ok(sv) => sv,
            Err(e) => return Err(e),
        };
        if data.len() < 12 {
            return Err(FontError::UnexpectedEof);
        }
        let h = read_u16s_at(data, 0, 6);
        let num_tables = h[2];
        let n = 6 + 8 * (num_tables as usize);
        if data.len() < 2 * n {
            return Err(FontError::UnexpectedEof);
        }
        let w = read_u16s_at(data, 0, n);
        let mut tables: Vec<TableRecord> = Vec::new();
        let mut k: usize = 0;
        while k < num_tables as usize
            invariant
                k <= num_tables,
                n == 6 + 8 * num_tables,
                w@.len() == n,
                tables@.len() == k,
                forall|j: int| 0 <= j < k ==> record_matches(#[trigger] tables@[j], w@, 6 + 8 * j),
            decreases num_tables - k,
        {
            let i = 6 + 8 * k;
            let record = TableRecord {
                tag: [hi_byte(w[i]), lo_byte(w[i]), hi_byte(w[i + 1]), lo_byte(w[i + 1])],
                check_sum: make32(w[i + 2], w[i + 3]),
                offset: make32(w[i + 4], w[i + 5]),
                length: make32(w[i + 6], w[i + 7]),
            };
            tables.push(record);
            k = k + 1;
        }
        Ok(OffsetTable {
            sfnt_version,
            num_tables,
            search_range: w[3],
            entry_selector: w[4],
            range_shift: w[5],
            tables,
        })
    }

    /// Appends the directory to `out`.
    pub fn pack(&self, out: &mut Vec<u8>)
        ensures
            final(out)@ == old(out)@ + self.spec_pack(),
    {
        let (v0, v1) = split32(self.sfnt_version.number());
        let mut w: Vec<u16> = vec![v0, v1, self.num_tables, self.search_range, self.entry_selector, self.range_shift];
        let ghost head = w@;
        let mut k: usize = 0;
        while k < self.tables.len()
            invariant
                k <= self.tables@.len(),
                w@ =~= head + records_words(self.tables@.take(k as int)),
            decreases self.tables@.len() - k,
        {
            let r = self.tables[k];
            let (c0, c1) = split32(r.check_sum);
            let (o0, o1) = split32(r.offset);
            let (l0, l1) = split32(r.length);
            w.push(make16(r.tag[0], r.tag[1]));
            w.push(make16(r.tag[2], r.tag[3]));
            w.push(c0);
            w.push(c1);
            w.push(o0);
            w.push(o1);
            w.push(l0);
            w.push(l1);
            proof {
                lemma_records_words_push(self.tables@.take(k as int), r);
                assert(self.tables@.take(k + 1) =~= self.tables@.take(k as int).push(r));
                assert(r.tag@ =~= seq![r.tag[0], r.tag[1], r.tag[2], r.tag[3]]);
            }
            k = k + 1;
        }
        assert(self.tables@.take(k as int) =~= self.tables@);
        assert(w@ =~= self.words());
        write_u16s(out, &w);
    }

    /// Reading back what `pack` wrote gives the same directory, where its table count is the
    /// number of its records.
    pub proof fn lemma_pack_unpack(self)
        requires
            self.num_tables == self.tables@.len(),
        ensures
            Self::unpack_outcome(self.spec_pack()) == Ok::<nat, FontError>(
                Self::word_count(self.num_tables),
            ),
            self.matches_words(font_words(self.spec_pack(), Self::word_count(self.num_tables))),
    {
        let w = self.words();
        let s = self.spec_pack();
        lemma_be16s(w);
        lemma_get_u16s(Seq::empty(), w, Seq::empty());
        assert(Seq::<u8>::empty() + be16s(w) + Seq::<u8>::empty() =~= s);
        assert(get_u16s(s, 0, w.len()) == w);
        assert(get_u16(s, 0) == w[0]) by { assert(get_u16s(s, 0, w.len())[0] == w[0]); }
        assert(get_u16(s, 2) == w[1]) by { assert(get_u16s(s, 0, w.len())[1] == w[1]); }
        assert(get_u16(s, 4) == w[2]) by { assert(get_u16s(s, 0, w.len())[2] == w[2]); }
        lemma_join32(self.sfnt_version.spec_number());
        assert(get_u32(s, 0) == self.sfnt_version.spec_number());
        let head = seq![
            hi16(self.sfnt_version.spec_number()),
            lo16(self.sfnt_version.spec_number()),
            self.num_tables,
            self.search_range,
            self.entry_selector,
            self.range_shift,
        ];
        assert forall|k: int| 0 <= k < w[2] implies record_matches(#[trigger] self.tables@[k], w, 6 + 8 * k) by {
            lemma_record_in_words(head, self.tables@, k);
        }
    }
}

/// The words of the records, after six words, hold each record eight words apart.
pub proof fn lemma_record_in_words(head: Seq<u16>, rs: Seq<TableRecord>, k: int)
    requires
        head.len() == 6,
        0 <= k < rs.len(),
    ensures
        record_matches(rs[k], head + records_words(rs), 6 + 8 * k),
{
    let w = head + records_words(rs);
    let r = rs[k];
    assert forall|j: int| 0 <= j < 8 implies #[trigger] w[6 + 8 * k + j] == record_words(r)[j] by {
        assert((8 * k + j) / 8 == k);
        assert((8 * k + j) % 8 == j);
    }
    assert(w[6 + 8 * k] == record_words(r)[0]);
    assert(w[6 + 8 * k + 1] == record_words(r)[1]);
    assert(w[6 + 8 * k + 2] == record_words(r)[2]);
    assert(w[6 + 8 * k + 3] == record_words(r)[3]);
    assert(w[6 + 8 * k + 4] == record_words(r)[4]);
    assert(w[6 + 8 * k + 5] == record_words(r)[5]);
    assert(w[6 + 8 * k + 6] == record_words(r)[6]);
    assert(w[6 + 8 * k + 7] == record_words(r)[7]);
    lemma_join32(r.check_sum);
    lemma_join32(r.offset);
    lemma_join32(r.length);
    assert(r.tag@ =~= seq![r.tag[0], r.tag[1], r.tag[2], r.tag[3]]);
}

/// The words of records with one more record end with its words.
proof fn lemma_records_words_push(rs: Seq<TableRecord>, r: TableRecord)
    ensures
        records_words(rs.push(r)) =~= records_words(rs) + record_words(r),
{
    let n = rs.len();
    assert forall|j: int| 0 <= j < 8 * (n + 1) implies #[trigger] records_words(rs.push(r))[j] == (
    records_words(rs) + record_words(r))[j] by {
        if j < 8 * n {
            assert(j / 8 < n);
        } else {
            assert(j / 8 == n);
            assert(j % 8 == j - 8 * n);
        }
    }
}

/// The index that `find_tag` gives holds the tag.
pub proof fn lemma_find_tag(r: Seq<TableRecord>, tag: Seq<u8>, from: int)
    ensures
        match find_tag(r, tag, from) {
            Some(k) => from <= k < r.len() && r[k].tag@ == tag,
            None => true,
        },
    decreases r.len() - from,
{
    if 0 <= from < r.len() && r[from].tag@ != tag {
        lemma_find_tag(r, tag, from + 1);
    }
}

} // verus!

verus! {

/// Reading the directory of a font: the sfnt version is the big-endian 32-bit value at 0
/// (0x00010000 for TrueType outlines, 'OTTO' for CFF outlines); the number of tables, search
/// range, entry selector and range shift are the 16-bit values at 4, 6, 8 and 10; the record
/// `k` at `12 + 16 k` holds the tag (4 bytes), then the check sum, offset and length, 32 bits
/// each.
pub proof fn law_directory_layout_read(s: Seq<u8>, ot: OffsetTable)
    requires
        OffsetTable::unpack_outcome(s) is Ok,
        ot.matches_words(font_words(s, OffsetTable::unpack_outcome(s)->Ok_0)),
    ensures
        ot.sfnt_version == SfntVersion::TrueType <==> be_u32_value(s, 0) == 0x00010000,
        ot.sfnt_version == SfntVersion::CFF <==> be_u32_value(s, 0) == 0x4F54544F,
        ot.num_tables == be_u16_value(s, 4),
        ot.search_range == be_u16_value(s, 6),
        ot.entry_selector == be_u16_value(s, 8),
        ot.range_shift == be_u16_value(s, 10),
        ot.tables@.len() == ot.num_tables,
        forall|k: int|
            0 <= k < ot.tables@.len() ==> (#[trigger] ot.tables@[k]).tag@ == s.subrange(12 + 16 * k, 16 + 16 * k)
                && ot.tables@[k].check_sum == be_u32_value(s, 16 + 16 * k) && ot.tables@[k].offset == be_u32_value(
                s,
                20 + 16 * k,
            ) && ot.tables@[k].length == be_u32_value(s, 24 + 16 * k),
{
    let n = OffsetTable::unpack_outcome(s)->Ok_0;
    lemma_get_u16s_values(s, 0, n);
    let w = font_words(s, n);
    assert(w[0] as int == be_u16_value(s, 0));
    assert(w[1] as int == be_u16_value(s, 2));
    assert(w[2] as int == be_u16_value(s, 4));
    assert(w[3] as int == be_u16_value(s, 6));
    assert(w[4] as int == be_u16_value(s, 8));
    assert(w[5] as int == be_u16_value(s, 10));
    assert forall|k: int| 0 <= k < ot.tables@.len() implies (#[trigger] ot.tables@[k]).tag@ == s.subrange(
        12 + 16 * k,
        16 + 16 * k,
    ) && ot.tables@[k].check_sum == be_u32_value(s, 16 + 16 * k) && ot.tables@[k].offset == be_u32_value(
        s,
        20 + 16 * k,
    ) && ot.tables@[k].length == be_u32_value(s, 24 + 16 * k) by {
        let i = 6 + 8 * k;
        assert(record_matches(ot.tables@[k], w, i));
        assert(w[i] as int == be_u16_value(s, 2 * i));
        assert(w[i + 1] as int == be_u16_value(s, 2 * (i + 1)));
        assert(w[i + 2] as int == be_u16_value(s, 2 * (i + 2)));
        assert(w[i + 3] as int == be_u16_value(s, 2 * (i + 3)));
        assert(w[i + 4] as int == be_u16_value(s, 2 * (i + 4)));
        assert(w[i + 5] as int == be_u16_value(s, 2 * (i + 5)));
        assert(w[i + 6] as int == be_u16_value(s, 2 * (i + 6)));
        assert(w[i + 7] as int == be_u16_value(s, 2 * (i + 7)));
        assert(hi8(w[i]) == s[2 * i] && lo8(w[i]) == s[2 * i + 1]);
        assert(hi8(w[i + 1]) == s[2 * i + 2] && lo8(w[i + 1]) == s[2 * i + 3]);
        assert(ot.tables@[k].tag@ =~= s.subrange(12 + 16 * k, 16 + 16 * k));
    }
}

} // verus!
