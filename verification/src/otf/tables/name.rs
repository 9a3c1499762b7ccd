//! The 'name' table: human-readable names of the font, such as its family name.
use vstd::prelude::*;
use crate::big_endian::{be16s, be_u16_value, get_u16s, lemma_be16s, lemma_get_u16s, lemma_get_u16s_values, read_u16s_at, write_u16s};
use crate::otf::error::FontError;

verus! {

/// The naming table.
/// See https://docs.microsoft.com/en-us/typography/opentype/spec/name
#[derive(Debug, PartialEq, Clone)]
pub enum NameTable {
    Format0(Format0NameTable),
    Format1(Format1NameTable),
}

#[derive(Debug, PartialEq, Clone)]
pub struct Format0NameTable {
    /// Number of name records.
    pub count: u16,
    /// Offset to start of string storage (from start of table).
    pub offset: u16,
    /// The name records.
    pub name_records: Vec<NameRecord>,
    /// Raw storage area for the actual UTF-16BE encoded string data.
    pub string_data: Vec<u16>,
}

#[derive(Debug, PartialEq, Clone)]
pub struct Format1NameTable {
    /// Number of name records.
    pub count: u16,
    /// Offset to start of string storage (from start of table).
    pub offset: u16,
    /// The name records.
    pub name_records: Vec<NameRecord>,
    /// Number of language-tag records.
    pub lang_tag_count: u16,
    /// The language-tag records.
    pub lang_tag_records: Vec<LangTagRecord>,
    /// Raw storage area for the actual UTF-16BE encoded string data.
    pub string_data: Vec<u16>,
}

#[derive(Debug, PartialEq, Eq, Clone, Copy, Structural)]
pub struct NameRecord {
    /// Platform ID.
    pub platform_id: u16,
    /// Platform-specific encoding ID.
    pub encoding_id: u16,
    /// Language ID.
    pub language_id: u16,
    /// Name ID.
    pub name_id: u16,
    /// String length (in bytes).
    pub length: u16,
    /// String offset from start of storage area (in bytes).
    pub offset: u16,
}

#[derive(Debug, PartialEq, Eq, Clone, Copy, Structural)]
pub struct LangTagRecord {
    /// Language-tag string length (in bytes).
    pub length: u16,
    /// Language-tag string offset from start of storage area (in bytes).
    pub offset: u16,
}

/// The name id of the font family name.
pub const FONT_FAMILY_NAME_ID: u16 = 1;

/// The name id of the PostScript name.
pub const POST_SCRIPT_NAME_ID: u16 = 6;

/// The characters that the UTF-16 code units `u` encode, or `None` where they hold an unpaired
/// surrogate.
pub open spec fn utf16_decode(u: Seq<u16>) -> Option<Seq<char>>
    decreases u.len(),
{
    if u.len() == 0 {
        Some(Seq::empty())
    } else if u[0] < 0xD800 || u[0] > 0xDFFF {
        match utf16_decode(u.drop_first()) {
            Some(rest) => Some(seq![u[0] as char] + rest),
            None => None,
        }
    } else if u[0] <= 0xDBFF && u.len() >= 2 && 0xDC00 <= u[1] <= 0xDFFF {
        match utf16_decode(u.subrange(2, u.len() as int)) {
            Some(rest) => Some(
                seq![(0x10000 + (u[0] - 0xD800) * 0x400 + (u[1] - 0xDC00)) as char] + rest,
            ),
            None => None,
        }
    } else {
        None
    }
}

/// Decodes UTF-16 code units with `String::from_utf16`, which fails exactly where the units
/// hold an unpaired surrogate; the contract states the decoding of its documentation.
#[verifier::external_body]
fn decode_utf16(units: &[u16]) -> (r: Option<String>)
    ensures
        match r {
            Some(s) => utf16_decode(units@) == Some(s@),
            None => utf16_decode(units@) is None,
        },
{
    String::from_utf16(units).ok()
}

/// The 16-bit words that a table stored in the bytes `s` holds; a trailing odd byte is ignored.
pub open spec fn table_words(s: Seq<u8>) -> Seq<u16> {
    get_u16s(s, 0, s.len() / 2)
}

/// The name record held by the six words of `w` from position `i` on.
pub open spec fn record_at(w: Seq<u16>, i: int) -> NameRecord {
    NameRecord {
        platform_id: w[i],
        encoding_id: w[i + 1],
        language_id: w[i + 2],
        name_id: w[i + 3],
        length: w[i + 4],
        offset: w[i + 5],
    }
}

/// The `n` name records held by `w` from position `i` on.
pub open spec fn records_at(w: Seq<u16>, i: int, n: nat) -> Seq<NameRecord> {
    Seq::new(n, |k: int| record_at(w, i + 6 * k))
}

/// The `n` language-tag records held by `w` from position `i` on.
pub open spec fn lang_tags_at(w: Seq<u16>, i: int, n: nat) -> Seq<LangTagRecord> {
    Seq::new(n, |k: int| LangTagRecord { length: w[i + 2 * k], offset: w[i + 2 * k + 1] })
}

/// The words of name records.
pub open spec fn record_words(r: Seq<NameRecord>) -> Seq<u16> {
    Seq::new(
        6 * r.len(),
        |k: int|
            {
                let x = r[k / 6];
                let j = k % 6;
                if j == 0 {
                    x.platform_id
                } else if j == 1 {
                    x.encoding_id
                } else if j == 2 {
                    x.language_id
                } else if j == 3 {
                    x.name_id
                } else if j == 4 {
                    x.length
                } else {
                    x.offset
                }
            },
    )
}

/// The words of language-tag records.
pub open spec fn lang_tag_words(r: Seq<LangTagRecord>) -> Seq<u16> {
    Seq::new(2 * r.len(), |k: int| if k % 2 == 0 { r[k / 2].length } else { r[k / 2].offset })
}

/// The position in a table's words where the language-tag count of a format 1 table stands.
pub open spec fn lang_tag_count_pos(w: Seq<u16>) -> int {
    3 + 6 * w[1]
}

/// Whether reading a table from its words `w` succeeds, with which format, or with which error.
pub open spec fn unpack_outcome(w: Seq<u16>) -> Result<u16, FontError> {
    if w.len() < 1 {
        Err(FontError::UnexpectedEof)
    } else if w[0] == 0 {
        if w.len() < 3 || w.len() < 3 + 6 * w[1] {
            Err(FontError::UnexpectedEof)
        } else {
            Ok(0u16)
        }
    } else if w[0] == 1 {
        if w.len() < 3 || w.len() < lang_tag_count_pos(w) + 1 || w.len() < lang_tag_count_pos(w) + 1
            + 2 * w[lang_tag_count_pos(w)] {
            Err(FontError::UnexpectedEof)
        } else {
            Ok(1u16)
        }
    } else {
        Err(FontError::InvalidNameFormat(w[0]))
    }
}

/// The index of the first record for the Windows platform, Unicode BMP encoding and name id
/// `name_id`, from position `from` on.
pub open spec fn find_record(r: Seq<NameRecord>, name_id: u16, from: int) -> Option<int>
    decreases r.len() - from,
{
    if from >= r.len() || from < 0 {
        None
    } else if r[from].platform_id == 3 && r[from].encoding_id == 1 && r[from].name_id == name_id {
        Some(from)
    } else {
        find_record(r, name_id, from + 1)
    }
}

/// The code units of the string that a record points to.
pub open spec fn record_units(x: NameRecord, data: Seq<u16>) -> Seq<u16> {
    data.subrange((x.offset / 2) as int, (x.offset / 2) + (x.length / 2))
}

/// The record for `name_id`, if any, points into the string data.
pub open spec fn name_in_bounds(r: Seq<NameRecord>, data: Seq<u16>, name_id: u16) -> bool {
    match find_record(r, name_id, 0) {
        Some(k) => r[k].offset / 2 + r[k].length / 2 <= data.len(),
        None => true,
    }
}

/// The name with id `name_id`: `None` where no record has it or its units are no UTF-16.
pub open spec fn spec_name(r: Seq<NameRecord>, data: Seq<u16>, name_id: u16) -> Option<Seq<char>> {
    match find_record(r, name_id, 0) {
        Some(k) => utf16_decode(record_units(r[k], data)),
        None => None,
    }
}

/// Whether the Windows Unicode record of `name_id`, if any, lies within the string storage.
fn record_in_bounds(records: &Vec<NameRecord>, data: &Vec<u16>, name_id: u16) -> (r: bool)
    ensures
        r == name_in_bounds(records@, data@, name_id),
{
    let mut k: usize = 0;
    while k < records.len()
        invariant
            k <= records@.len(),
            find_record(records@, name_id, 0) == find_record(records@, name_id, k as int),
        decreases records@.len() - k,
    {
        let x = records[k];
        if x.platform_id == 3 && x.encoding_id == 1 && x.name_id == name_id {
            return (x.offset / 2) as usize + (x.length / 2) as usize <= data.len();
        }
        k = k + 1;
    }
    true
}

fn lookup_name(records: &Vec<NameRecord>, data: &Vec<u16>, name_id: u16) -> (r: Option<String>)
    requires
        name_in_bounds(records@, data@, name_id),
    ensures
        match r {
            Some(s) => spec_name(records@, data@, name_id) == Some(s@),
            None => spec_name(records@, data@, name_id) is None,
        },
{
    let mut k: usize = 0;
    while k < records.len()
        invariant
            k <= records@.len(),
            name_in_bounds(records@, data@, name_id),
            find_record(records@, name_id, 0) == find_record(records@, name_id, k as int),
        decreases records@.len() - k,
    {
        let x = records[k];
        if x.platform_id == 3 && x.encoding_id == 1 && x.name_id == name_id {
            let start = (x.offset / 2) as usize;
            let end = start + (x.length / 2) as usize;
            let mut units: Vec<u16> = Vec::new();
            let mut i = start;
            while i < end
                invariant
                    start <= i <= end <= data@.len(),
                    units@ == data@.subrange(start as int, i as int),
                decreases end - i,
            {
                units.push(data[i]);
                i = i + 1;
                assert(units@ =~= data@.subrange(start as int, i as int));
            }
            return decode_utf16(units.as_slice());
        }
        k = k + 1;
    }
    None
}

fn records_from(w: &Vec<u16>, start: usize, n: usize) -> (r: Vec<NameRecord>)
    requires
        start + 6 * n <= w@.len(),
    ensures
        r@ == records_at(w@, start as int, n as nat),
{
    let mut r: Vec<NameRecord> = Vec::new();
    let len = w.len();
    let mut k: usize = 0;
    while k < n
        invariant
            k <= n,
            start + 6 * n <= w@.len(),
            len == w@.len(),
            r@ == records_at(w@, start as int, k as nat),
        decreases n - k,
    {
        let i = start + 6 * k;
        r.push(
            NameRecord {
                platform_id: w[i],
                encoding_id: w[i + 1],
                language_id: w[i + 2],
                name_id: w[i + 3],
                length: w[i + 4],
                offset: w[i + 5],
            },
        );
        k = k + 1;
        assert(r@ =~= records_at(w@, start as int, k as nat));
    }
    r
}

fn lang_tags_from(w: &Vec<u16>, start: usize, n: usize) -> (r: Vec<LangTagRecord>)
    requires
        start + 2 * n <= w@.len(),
    ensures
        r@ == lang_tags_at(w@, start as int, n as nat),
{
    let mut r: Vec<LangTagRecord> = Vec::new();
    let len = w.len();
    let mut k: usize = 0;
    while k < n
        invariant
            k <= n,
            start + 2 * n <= w@.len(),
            len == w@.len(),
            r@ == lang_tags_at(w@, start as int, k as nat),
        decreases n - k,
    {
        let i = start + 2 * k;
        r.push(LangTagRecord { length: w[i], offset: w[i + 1] });
        k = k + 1;
        assert(r@ =~= lang_tags_at(w@, start as int, k as nat));
    }
    r
}

fn words_from(w: &Vec<u16>, start: usize) -> (r: Vec<u16>)
    requires
        start <= w@.len(),
    ensures
        r@ == w@.subrange(start as int, w@.len() as int),
{
    let mut r: Vec<u16> = Vec::new();
    let mut i = start;
    while i < w.len()
        invariant
            start <= i <= w@.len(),
            r@ == w@.subrange(start as int, i as int),
        decreases w@.len() - i,
    {
        r.push(w[i]);
        i = i + 1;
        assert(r@ =~= w@.subrange(start as int, i as int));
    }
    r
}

fn push_record_words(w: &mut Vec<u16>, records: &Vec<NameRecord>)
    ensures
        final(w)@ == old(w)@ + record_words(records@),
{
    let mut k: usize = 0;
    while k < records.len()
        invariant
            k <= records@.len(),
            w@ =~= old(w)@ + record_words(records@.take(k as int)),
        decreases records@.len() - k,
    {
        let x = records[k];
        w.push(x.platform_id);
        w.push(x.encoding_id);
        w.push(x.language_id);
        w.push(x.name_id);
        w.push(x.length);
        w.push(x.offset);
        k = k + 1;
        assert(w@ =~= old(w)@ + record_words(records@.take(k as int)));
    }
    assert(records@.take(k as int) =~= records@);
}

fn push_lang_tag_words(w: &mut Vec<u16>, records: &Vec<LangTagRecord>)
    ensures
        final(w)@ == old(w)@ + lang_tag_words(records@),
{
    let mut k: usize = 0;
    while k < records.len()
        invariant
            k <= records@.len(),
            w@ =~= old(w)@ + lang_tag_words(records@.take(k as int)),
        decreases records@.len() - k,
    {
        let x = records[k];
        w.push(x.length);
        w.push(x.offset);
        k = k + 1;
        assert(w@ =~= old(w)@ + lang_tag_words(records@.take(k as int)));
    }
    assert(records@.take(k as int) =~= records@);
}

fn push_words(w: &mut Vec<u16>, v: &Vec<u16>)
    ensures
        final(w)@ == old(w)@ + v@,
{
    let mut k: usize = 0;
    while k < v.len()
        invariant
            k <= v@.len(),
            w@ =~= old(w)@ + v@.take(k as int),
        decreases v@.len() - k,
    {
        w.push(v[k]);
        k = k + 1;
        assert(w@ =~= old(w)@ + v@.take(k as int));
    }
    assert(v@.take(k as int) =~= v@);
}

impl Format0NameTable {
    /// The table is the format 0 table whose words (the format first) are `w`.
    pub open spec fn matches_words(self, w: Seq<u16>) -> bool {
        &&& self.count == w[1]
        &&& self.offset == w[2]
        &&& self.name_records@ == records_at(w, 3, w[1] as nat)
        &&& self.string_data@ == w.subrange(3 + 6 * w[1], w.len() as int)
    }

    /// The words that the table packs to, the format first.
    pub open spec fn words(self) -> Seq<u16> {
        seq![0u16, self.count, self.offset] + record_words(self.name_records@) + self.string_data@
    }

    /// The name with id `name_id`, decoded from UTF-16.
    pub fn name(&self, name_id: u16) -> (r: Option<String>)
        requires
            name_in_bounds(self.name_records@, self.string_data@, name_id),
        ensures
            match r {
                Some(s) => spec_name(self.name_records@, self.string_data@, name_id) == Some(s@),
                None => spec_name(self.name_records@, self.string_data@, name_id) is None,
            },
    {
        lookup_name(&self.name_records, &self.string_data, name_id)
    }

    /// The font family name.
    pub fn font_family_name(&self) -> (r: Option<String>)
        requires
            name_in_bounds(self.name_records@, self.string_data@, FONT_FAMILY_NAME_ID),
        ensures
            match r {
                Some(s) => spec_name(self.name_records@, self.string_data@, FONT_FAMILY_NAME_ID) == Some(s@),
                None => spec_name(self.name_records@, self.string_data@, FONT_FAMILY_NAME_ID) is None,
            },
    {
        self.name(FONT_FAMILY_NAME_ID)
    }

    /// The PostScript name.
    pub fn post_script_name(&self) -> (r: Option<String>)
        requires
            name_in_bounds(self.name_records@, self.string_data@, POST_SCRIPT_NAME_ID),
        ensures
            match r {
                Some(s) => spec_name(self.name_records@, self.string_data@, POST_SCRIPT_NAME_ID) == Some(s@),
                None => spec_name(self.name_records@, self.string_data@, POST_SCRIPT_NAME_ID) is None,
            },
    {
        self.name(POST_SCRIPT_NAME_ID)
    }
}

impl Format1NameTable {
    /// The table is the format 1 table whose words (the format first) are `w`.
    pub open spec fn matches_words(self, w: Seq<u16>) -> bool {
        let q = lang_tag_count_pos(w);
        &&& self.count == w[1]
        &&& self.offset == w[2]
        &&& self.name_records@ == records_at(w, 3, w[1] as nat)
        &&& self.lang_tag_count == w[q]
        &&& self.lang_tag_records@ == lang_tags_at(w, q + 1, w[q] as nat)
        &&& self.string_data@ == w.subrange(q + 1 + 2 * w[q], w.len() as int)
    }

    /// The words that the table packs to, the format first.
    pub open spec fn words(self) -> Seq<u16> {
        seq![1u16, self.count, self.offset] + record_words(self.name_records@) + seq![self.lang_tag_count]
            + lang_tag_words(self.lang_tag_records@) + self.string_data@
    }

    /// The name with id `name_id`, decoded from UTF-16.
    pub fn name(&self, name_id: u16) -> (r: Option<String>)
        requires
            name_in_bounds(self.name_records@, self.string_data@, name_id),
        ensures
            match r {
                Some(s) => spec_name(self.name_records@, self.string_data@, name_id) == Some(s@),
                None => spec_name(self.name_records@, self.string_data@, name_id) is None,
            },
    {
        lookup_name(&self.name_records, &self.string_data, name_id)
    }

    /// The font family name.
    pub fn font_family_name(&self) -> (r: Option<String>)
        requires
            name_in_bounds(self.name_records@, self.string_data@, FONT_FAMILY_NAME_ID),
        ensures
            match r {
                Some(s) => spec_name(self.name_records@, self.string_data@, FONT_FAMILY_NAME_ID) == Some(s@),
                None => spec_name(self.name_records@, self.string_data@, FONT_FAMILY_NAME_ID) is None,
            },
    {
        self.name(FONT_FAMILY_NAME_ID)
    }

    /// The PostScript name.
    pub fn post_script_name(&self) -> (r: Option<String>)
        requires
            name_in_bounds(self.name_records@, self.string_data@, POST_SCRIPT_NAME_ID),
        ensures
            match r {
                Some(s) => spec_name(self.name_records@, self.string_data@, POST_SCRIPT_NAME_ID) == Some(s@),
                None => spec_name(self.name_records@, self.string_data@, POST_SCRIPT_NAME_ID) is None,
            },
    {
        self.name(POST_SCRIPT_NAME_ID)
    }
}

impl NameTable {
    /// The records of the table.
    pub open spec fn records(self) -> Seq<NameRecord> {
        match self {
            NameTable::Format0(t) => t.name_records@,
            NameTable::Format1(t) => t.name_records@,
        }
    }

    /// The string storage of the table.
    pub open spec fn strings(self) -> Seq<u16> {
        match self {
            NameTable::Format0(t) => t.string_data@,
            NameTable::Format1(t) => t.string_data@,
        }
    }

    /// The table is the one whose words (the format first) are `w`.
    pub open spec fn matches_words(self, w: Seq<u16>) -> bool {
        match self {
            NameTable::Format0(t) => unpack_outcome(w) == Ok::<u16, FontError>(0u16) && t.matches_words(w),
            NameTable::Format1(t) => unpack_outcome(w) == Ok::<u16, FontError>(1u16) && t.matches_words(w),
        }
    }

    /// The words that the table packs to.
    pub open spec fn words(self) -> Seq<u16> {
        match self {
            NameTable::Format0(t) => t.words(),
            NameTable::Format1(t) => t.words(),
        }
    }

    /// The bytes that `pack` writes.
    pub open spec fn spec_pack(self) -> Seq<u8> {
        be16s(self.words())
    }

    /// The font family name: `None` where no Windows Unicode record holds it or it is no UTF-16.
    pub fn font_family_name(&self) -> (r: Option<String>)
        requires
            name_in_bounds(self.records(), self.strings(), FONT_FAMILY_NAME_ID),
        ensures
            match r {
                Some(s) => spec_name(self.records(), self.strings(), FONT_FAMILY_NAME_ID) == Some(s@),
                None => spec_name(self.records(), self.strings(), FONT_FAMILY_NAME_ID) is None,
            },
    {
        match self {
            NameTable::Format0(t) => t.font_family_name(),
            NameTable::Format1(t) => t.font_family_name(),
        }
    }

    /// Whether the Windows Unicode record of `name_id`, if any, lies within the string storage:
    /// what reading that name needs.
    pub fn name_in_bounds(&self, name_id: u16) -> (r: bool)
        ensures
            r == name_in_bounds(self.records(), self.strings(), name_id),
    {
        match self {
            NameTable::Format0(t) => record_in_bounds(&t.name_records, &t.string_data, name_id),
            NameTable::Format1(t) => record_in_bounds(&t.name_records, &t.string_data, name_id),
        }
    }

    /// The PostScript name: `None` where no Windows Unicode record holds it or it is no UTF-16.
    pub fn post_script_name(&self) -> (r: Option<String>)
        requires
            name_in_bounds(self.records(), self.strings(), POST_SCRIPT_NAME_ID),
        ensures
            match r {
                Some(s) => spec_name(self.records(), self.strings(), POST_SCRIPT_NAME_ID) == Some(s@),
                None => spec_name(self.records(), self.strings(), POST_SCRIPT_NAME_ID) is None,
            },
    {
        match self {
            NameTable::Format0(t) => t.post_script_name(),
            NameTable::Format1(t) => t.post_script_name(),
        }
    }

    /// Reads the table from its bytes.
    pub fn unpack(data: &[u8]) -> (r: Result<NameTable, FontError>)
        ensures
            match r {
                Ok(t) => t.matches_words(table_words(data@)),
                Err(e) => unpack_outcome(table_words(data@)) == Err::<u16, FontError>(e),
            },
    {
        let w = read_u16s_at(data, 0, data.len() / 2);
        let n = w.len();
        if n < 1 {
            return Err(FontError::UnexpectedEof);
        }
        let format = w[0];
        if format != 0 && format != 1 {
            return Err(FontError::InvalidNameFormat(format));
        }
        if n < 3 {
            return Err(FontError::UnexpectedEof);
        }
        let count = w[1] as usize;
        if n < 3 + 6 * count {
            return Err(FontError::UnexpectedEof);
        }
        let name_records = records_from(&w, 3, count);
        let q = 3 + 6 * count;
        if format == 0 {
            let string_data = words_from(&w, q);
            return Ok(NameTable::Format0(Format0NameTable { count: w[1], offset: w[2], name_records, string_data }));
        }
        if n < q + 1 {
            return Err(FontError::UnexpectedEof);
        }
        let lang_tag_count = w[q];
        if n < q + 1 + 2 * (lang_tag_count as usize) {
            return Err(FontError::UnexpectedEof);
        }
        let lang_tag_records = lang_tags_from(&w, q + 1, lang_tag_count as usize);
        let string_data = words_from(&w, q + 1 + 2 * (lang_tag_count as usize));
        Ok(
            NameTable::Format1(
                Format1NameTable {
                    count: w[1],
                    offset: w[2],
                    name_records,
                    lang_tag_count,
                    lang_tag_records,
                    string_data,
                },
            ),
        )
    }

    /// Appends the table to `out`.
    pub fn pack(&self, out: &mut Vec<u8>)
        ensures
            final(out)@ == old(out)@ + self.spec_pack(),
    {
        let mut w: Vec<u16> = Vec::new();
        match self {
            NameTable::Format0(t) => {
                w.push(0);
                w.push(t.count);
                w.push(t.offset);
                push_record_words(&mut w, &t.name_records);
                push_words(&mut w, &t.string_data);
                assert(w@ =~= self.words());
            },
            NameTable::Format1(t) => {
                w.push(1);
                w.push(t.count);
                w.push(t.offset);
                push_record_words(&mut w, &t.name_records);
                w.push(t.lang_tag_count);
                push_lang_tag_words(&mut w, &t.lang_tag_records);
                push_words(&mut w, &t.string_data);
                assert(w@ =~= self.words());
            },
        }
        write_u16s(out, &w);
    }
}

/// The words of a table that `pack` wrote are the ones it packed.
proof fn lemma_words_of_pack(w: Seq<u16>)
    ensures
        table_words(be16s(w)) == w,
{
    lemma_be16s(w);
    lemma_get_u16s(Seq::empty(), w, Seq::empty());
    assert(Seq::<u8>::empty() + be16s(w) + Seq::<u8>::empty() =~= be16s(w));
}

/// The name records come back from their words.
proof fn lemma_records(pre: Seq<u16>, r: Seq<NameRecord>, post: Seq<u16>)
    ensures
        records_at(pre + record_words(r) + post, pre.len() as int, r.len()) == r,
{
    let w = pre + record_words(r) + post;
    assert forall|k: int| 0 <= k < r.len() implies #[trigger] records_at(w, pre.len() as int, r.len())[k] == r[k] by {
        let i = pre.len() + 6 * k;
        assert((6 * k) / 6 == k && (6 * k) % 6 == 0);
        assert((6 * k + 1) / 6 == k && (6 * k + 1) % 6 == 1);
        assert((6 * k + 2) / 6 == k && (6 * k + 2) % 6 == 2);
        assert((6 * k + 3) / 6 == k && (6 * k + 3) % 6 == 3);
        assert((6 * k + 4) / 6 == k && (6 * k + 4) % 6 == 4);
        assert((6 * k + 5) / 6 == k && (6 * k + 5) % 6 == 5);
        assert(w[i] == record_words(r)[6 * k]);
        assert(w[i + 1] == record_words(r)[6 * k + 1]);
        assert(w[i + 2] == record_words(r)[6 * k + 2]);
        assert(w[i + 3] == record_words(r)[6 * k + 3]);
        assert(w[i + 4] == record_words(r)[6 * k + 4]);
        assert(w[i + 5] == record_words(r)[6 * k + 5]);
    }
    assert(records_at(w, pre.len() as int, r.len()) =~= r);
}

/// The language-tag records come back from their words.
proof fn lemma_lang_tags(pre: Seq<u16>, r: Seq<LangTagRecord>, post: Seq<u16>)
    ensures
        lang_tags_at(pre + lang_tag_words(r) + post, pre.len() as int, r.len()) == r,
{
    let w = pre + lang_tag_words(r) + post;
    assert forall|k: int| 0 <= k < r.len() implies #[trigger] lang_tags_at(w, pre.len() as int, r.len())[k] == r[k] by {
        assert((2 * k) / 2 == k && (2 * k) % 2 == 0);
        assert((2 * k + 1) / 2 == k && (2 * k + 1) % 2 == 1);
        assert(w[pre.len() + 2 * k] == lang_tag_words(r)[2 * k]);
        assert(w[pre.len() + 2 * k + 1] == lang_tag_words(r)[2 * k + 1]);
    }
    assert(lang_tags_at(w, pre.len() as int, r.len()) =~= r);
}

impl NameTable {
    /// Reading back what `pack` wrote gives the same table, where its counts are those of its
    /// records.
    pub proof fn lemma_pack_unpack(self)
        requires
            match self {
                NameTable::Format0(t) => t.count == t.name_records@.len(),
                NameTable::Format1(t) => t.count == t.name_records@.len() && t.lang_tag_count
                    == t.lang_tag_records@.len(),
            },
        ensures
            self.matches_words(table_words(self.spec_pack())),
    {
        let w = self.words();
        lemma_words_of_pack(w);
        match self {
            NameTable::Format0(t) => {
                let head = seq![0u16, t.count, t.offset];
                lemma_records(head, t.name_records@, t.string_data@);
                assert(w =~= head + record_words(t.name_records@) + t.string_data@);
                assert(w.subrange(3 + 6 * w[1], w.len() as int) =~= t.string_data@);
            },
            NameTable::Format1(t) => {
                let head = seq![1u16, t.count, t.offset];
                let tail = seq![t.lang_tag_count] + lang_tag_words(t.lang_tag_records@) + t.string_data@;
                lemma_records(head, t.name_records@, tail);
                assert(w =~= head + record_words(t.name_records@) + tail);
                let pre = head + record_words(t.name_records@) + seq![t.lang_tag_count];
                lemma_lang_tags(pre, t.lang_tag_records@, t.string_data@);
                assert(w =~= pre + lang_tag_words(t.lang_tag_records@) + t.string_data@);
                let q = lang_tag_count_pos(w);
                assert(q == 3 + 6 * t.name_records@.len());
                assert(w[q] == t.lang_tag_count);
                assert(w.subrange(q + 1 + 2 * w[q], w.len() as int) =~= t.string_data@);
            },
        }
    }
}

impl NameTable {
    /// A copy of the table.
    pub fn duplicate(&self) -> (r: NameTable)
        ensures
            r.words() == self.words(),
            r.records() == self.records(),
            r.strings() == self.strings(),
    {
        match self {
            NameTable::Format0(t) => NameTable::Format0(
                Format0NameTable {
                    count: t.count,
                    offset: t.offset,
                    name_records: crate::big_endian::copy_vec(&t.name_records),
                    string_data: crate::big_endian::copy_vec(&t.string_data),
                },
            ),
            NameTable::Format1(t) => NameTable::Format1(
                Format1NameTable {
                    count: t.count,
                    offset: t.offset,
                    name_records: crate::big_endian::copy_vec(&t.name_records),
                    lang_tag_count: t.lang_tag_count,
                    lang_tag_records: crate::big_endian::copy_vec(&t.lang_tag_records),
                    string_data: crate::big_endian::copy_vec(&t.string_data),
                },
            ),
        }
    }
}

} // verus!

verus! {

/// Reading a 'name' table: the format is the big-endian 16-bit value at 0, the record count
/// at 2 and the storage offset at 4; the record `k` at `6 + 12 k` holds the platform, encoding,
/// language and name ids, the string's length and its offset, 16 bits each; for format 0 the
/// string storage is the 16-bit units from `6 + 12 count` on.
pub proof fn law_name_layout_read(t: NameTable, s: Seq<u8>)
    requires
        t.matches_words(table_words(s)),
    ensures
        be_u16_value(s, 0) == (if t is Format0 { 0int } else { 1int }),
        t.records().len() == be_u16_value(s, 2),
        forall|k: int|
            0 <= k < t.records().len() ==> (#[trigger] t.records()[k]).platform_id == be_u16_value(s, 6 + 12 * k)
                && t.records()[k].encoding_id == be_u16_value(s, 8 + 12 * k) && t.records()[k].language_id
                == be_u16_value(s, 10 + 12 * k) && t.records()[k].name_id == be_u16_value(s, 12 + 12 * k)
                && t.records()[k].length == be_u16_value(s, 14 + 12 * k) && t.records()[k].offset == be_u16_value(
                s,
                16 + 12 * k,
            ),
        t matches NameTable::Format0(f) ==> {
            &&& f.count == be_u16_value(s, 2)
            &&& f.offset == be_u16_value(s, 4)
            &&& forall|j: int|
                0 <= j < f.string_data@.len() ==> #[trigger] f.string_data@[j] == be_u16_value(
                    s,
                    6 + 12 * f.count + 2 * j,
                )
        },
        t matches NameTable::Format1(f) ==> f.count == be_u16_value(s, 2) && f.offset == be_u16_value(s, 4),
{
    let w = table_words(s);
    lemma_get_u16s_values(s, 0, s.len() / 2);
    assert(w[0] as int == be_u16_value(s, 0));
    assert(w[1] as int == be_u16_value(s, 2));
    assert(w[2] as int == be_u16_value(s, 4));
    assert forall|k: int| 0 <= k < t.records().len() implies (#[trigger] t.records()[k]).platform_id == be_u16_value(
        s,
        6 + 12 * k,
    ) && t.records()[k].encoding_id == be_u16_value(s, 8 + 12 * k) && t.records()[k].language_id == be_u16_value(
        s,
        10 + 12 * k,
    ) && t.records()[k].name_id == be_u16_value(s, 12 + 12 * k) && t.records()[k].length == be_u16_value(
        s,
        14 + 12 * k,
    ) && t.records()[k].offset == be_u16_value(s, 16 + 12 * k) by {
        let i = 3 + 6 * k;
        assert(t.records()[k] == record_at(w, i));
        assert(w[i] as int == be_u16_value(s, 2 * i));
        assert(w[i + 1] as int == be_u16_value(s, 2 * (i + 1)));
        assert(w[i + 2] as int == be_u16_value(s, 2 * (i + 2)));
        assert(w[i + 3] as int == be_u16_value(s, 2 * (i + 3)));
        assert(w[i + 4] as int == be_u16_value(s, 2 * (i + 4)));
        assert(w[i + 5] as int == be_u16_value(s, 2 * (i + 5)));
    }
    match t {
        NameTable::Format0(f) => {
            assert forall|j: int| 0 <= j < f.string_data@.len() implies #[trigger] f.string_data@[j] == be_u16_value(
                s,
                6 + 12 * f.count + 2 * j,
            ) by {
                let i = 3 + 6 * f.count + j;
                assert(f.string_data@[j] == w[i]);
                assert(w[i] as int == be_u16_value(s, 2 * i));
            }
        },
        NameTable::Format1(f) => {},
    }
}

} // verus!
