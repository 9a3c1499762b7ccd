//! An OpenType font, embedded into a document as subsets of at most 223 characters each.
use vstd::prelude::*;
use vstd::string::{StrSliceExecFns, StringExecFns};
use crate::fonts::font::{Font, SubsetRef};
use crate::otf::error::FontError;
use crate::otf::font::{slice_defined, tables_outcome, OpenTypeFont as OtfFont};
use crate::otf::tables::offset::font_words;
use crate::otf::tables::Glyph;
use crate::otf::tables::cmap::CmapTable;
use crate::otf::tables::name::{name_in_bounds, spec_name, POST_SCRIPT_NAME_ID};
use crate::otf::tables::offset::OffsetTable;
use crate::decimal::{decimal, decimal_digits, lemma_decimal_digits, zero_padded};
use crate::unicode::{utf8_len, char_utf8_width, string_from_chars};

verus! {

/// The first code of a subset: the one after the space.
pub const FIRST_CODE: u8 = 33;

/// How many characters a subset holds at most: the codes from 33 to 255.
pub const SUBSET_CAPACITY: usize = 223;

/// A mapping of characters onto the one-byte codes from 33 on, in the order in which the
/// characters were first asked for.
#[derive(Debug, PartialEq, Eq)]
pub struct UnicodeSubset {
    mapping: Vec<char>,
}

impl View for UnicodeSubset {
    type V = Seq<char>;

    /// The characters of the subset; the one at position `k` has the code `33 + k`.
    closed spec fn view(&self) -> Seq<char> {
        self.mapping@
    }
}

/// No character is mapped twice, and there are no more characters than codes.
pub open spec fn subset_wf(s: Seq<char>) -> bool {
    &&& s.len() <= SUBSET_CAPACITY
    &&& forall|i: int, j: int| 0 <= i < j < s.len() ==> s[i] != s[j]
}

/// Mapping `ch` in the subset `s`: its code where it is mapped already; else, where a code is
/// left, the next code, given to `ch`; else nothing.
pub open spec fn spec_map_char(s: Seq<char>, ch: char) -> (Option<u8>, Seq<char>) {
    if s.contains(ch) {
        (Some((FIRST_CODE + s.index_of(ch)) as u8), s)
    } else if s.len() == SUBSET_CAPACITY {
        (None, s)
    } else {
        (Some((FIRST_CODE + s.len()) as u8), s.push(ch))
    }
}

impl UnicodeSubset {
    /// An empty subset.
    pub fn new() -> (r: UnicodeSubset)
        ensures
            r@ == Seq::<char>::empty(),
    {
        UnicodeSubset { mapping: Vec::new() }
    }

    /// The code of `ch`, mapping it to the next free code where it is new; `None` where the
    /// subset is full.
    pub fn map_char(&mut self, ch: char) -> (r: Option<u8>)
        requires
            subset_wf(old(self)@),
        ensures
            subset_wf(final(self)@),
            (r, final(self)@) == spec_map_char(old(self)@, ch),
    {
        let mut k: usize = 0;
        while k < self.mapping.len()
            invariant
                k <= self.mapping@.len(),
                subset_wf(self.mapping@),
                forall|i: int| 0 <= i < k ==> self.mapping@[i] != ch,
            decreases self.mapping@.len() - k,
        {
            if self.mapping[k] == ch {
                proof {
                    assert(self@.contains(ch));
                    assert(self@.index_of(ch) == k) by {
                        let j = self@.index_of(ch);
                        assert(self@[j] == ch);
                    }
                }
                return Some(FIRST_CODE + k as u8);
            }
            k = k + 1;
        }
        assert(!self@.contains(ch));
        if self.mapping.len() == SUBSET_CAPACITY {
            return None;
        }
        let code = FIRST_CODE + self.mapping.len() as u8;
        self.mapping.push(ch);
        Some(code)
    }

    /// The first code of the subset.
    pub fn first_char(&self) -> (r: u8)
        ensures
            r == FIRST_CODE,
    {
        FIRST_CODE
    }

    /// One past the last code given out.
    pub fn last_char(&self) -> (r: u8)
        requires
            self@.len() < SUBSET_CAPACITY,
        ensures
            r == FIRST_CODE + self@.len(),
    {
        FIRST_CODE + self.mapping.len() as u8
    }

    /// For each code from the first to the last given out, the code and its character.
    pub fn chars(&self) -> (r: Vec<Option<(u8, char)>>)
        requires
            self@.len() < SUBSET_CAPACITY,
        ensures
            r@.len() == self@.len(),
            forall|k: int| 0 <= k < r@.len() ==> #[trigger] r@[k] == Some(((FIRST_CODE + k) as u8, self@[k])),
    {
        let mut r: Vec<Option<(u8, char)>> = Vec::new();
        let mut b = self.first_char();
        let end = self.last_char();
        while b < end
            invariant
                FIRST_CODE <= b <= end,
                end == FIRST_CODE + self@.len(),
                r@.len() == b - FIRST_CODE,
                forall|k: int| 0 <= k < r@.len() ==> #[trigger] r@[k] == Some(((FIRST_CODE + k) as u8, self@[k])),
            decreases end - b,
        {
            let ch = self.mapping[(b - FIRST_CODE) as usize];
            r.push(Some((b, ch)));
            b = b + 1;
        }
        r
    }
}

/// The tag of the subset `n`: its number in at least six decimal digits, each written as a
/// capital letter (0 as A, ..., 9 as J).
pub open spec fn spec_tag(n: nat) -> Seq<char> {
    zero_padded(decimal(n), 6).map_values(|d: u8| (d + 17) as char)
}

/// A subset hands out codes for good: mapping a character keeps the subset consistent, keeps
/// every code given out before, and the code it gives stands for that character; mapping it
/// again gives the same code and changes nothing.
pub proof fn lemma_map_char_keeps_codes(s: Seq<char>, ch: char)
    requires
        subset_wf(s),
    ensures
        ({
            let (r, s2) = spec_map_char(s, ch);
            &&& subset_wf(s2)
            &&& s2.len() >= s.len()
            &&& s2.take(s.len() as int) == s
            &&& r matches Some(c) ==> FIRST_CODE <= c && s2[c - FIRST_CODE] == ch
            &&& r matches Some(c) ==> spec_map_char(s2, ch) == (Some(c), s2)
        }),
{
    let (r, s2) = spec_map_char(s, ch);
    if s.contains(ch) {
        assert(s.take(s.len() as int) =~= s);
        let i = s.index_of(ch);
        assert(s[i] == ch);
    } else if s.len() < SUBSET_CAPACITY {
        assert(s2.take(s.len() as int) =~= s);
        assert(s2[s.len() as int] == ch);
        assert(s2.contains(ch));
        let j = s2.index_of(ch);
        assert(s2[j] == ch);
        if j < s.len() {
            assert(s[j] == ch);
        }
    } else {
        assert(s.take(s.len() as int) =~= s);
    }
}

/// The tag that names the subset `n` of a font in a document.
pub fn tag(n: usize) -> (r: String)
    ensures
        r@ == spec_tag(n as nat),
{
    let digits = decimal_digits(n as u64);
    proof {
        lemma_decimal_digits(n as nat);
    }
    let mut chars: Vec<char> = Vec::new();
    let mut pad: usize = digits.len();
    while pad < 6
        invariant
            digits.len() <= pad <= 6 || (digits.len() >= 6 && pad == digits.len()),
            chars@.len() == pad - digits.len(),
            forall|k: int| 0 <= k < chars@.len() ==> #[trigger] chars@[k] == 'A',
        decreases 6 - pad,
    {
        chars.push('A');
        pad = pad + 1;
    }
    let ghost npad = chars@.len();
    let mut i: usize = 0;
    while i < digits.len()
        invariant
            i <= digits@.len(),
            digits@ == decimal(n as nat),
            forall|k: int| 0 <= k < digits@.len() ==> 48 <= #[trigger] digits@[k] <= 57,
            chars@.len() == npad + i,
            forall|k: int| 0 <= k < npad ==> #[trigger] chars@[k] == 'A',
            forall|k: int| 0 <= k < i ==> #[trigger] chars@[npad + k] == (digits@[k] + 17) as char,
        decreases digits@.len() - i,
    {
        let d = digits[i] + 17;
        chars.push(d as char);
        i = i + 1;
    }
    let r = string_from_chars(&chars);
    assert(r@ =~= spec_tag(n as nat)) by {
        let z = zero_padded(decimal(n as nat), 6);
        assert(z.len() == chars@.len());
        assert forall|k: int| 0 <= k < z.len() implies #[trigger] chars@[k] == (z[k] + 17) as char by {
            if k < npad {
                assert(z[k] == 48u8);
            } else {
                assert(z[k] == digits@[k - npad]);
                assert(chars@[npad + (k - npad)] == (digits@[k - npad] + 17) as char);
            }
        }
    }
    r
}

/// The index of the first subset from `from` on that maps `ch` or has a code left for it.
pub open spec fn first_fit(subs: Seq<Seq<char>>, ch: char, from: int) -> Option<int>
    decreases subs.len() - from,
{
    if from < 0 || from >= subs.len() {
        None
    } else if spec_map_char(subs[from], ch).0 is Some {
        Some(from)
    } else {
        first_fit(subs, ch, from + 1)
    }
}

/// The subset that a text starting with `ch` is set in, and the subsets then: the first that
/// maps `ch` or has a code left for it, `ch` mapped in it; else a new, empty one after the
/// others.
pub open spec fn pick_subset(subs: Seq<Seq<char>>, ch: char) -> (Seq<Seq<char>>, int) {
    match first_fit(subs, ch, 0) {
        Some(i) => (subs.update(i, spec_map_char(subs[i], ch).1), i),
        None => (subs.push(Seq::empty()), subs.len() as int),
    }
}

/// A code inside a PDF literal string: `\`, `(` and `)` escaped with a backslash.
pub open spec fn escaped(b: u8) -> Seq<u8> {
    if b == 0x5C {
        seq![0x5Cu8, 0x5C]
    } else if b == 0x28 {
        seq![0x5Cu8, 0x28]
    } else if b == 0x29 {
        seq![0x5Cu8, 0x29]
    } else {
        seq![b]
    }
}

/// Encoding the characters `cs` from position `k` on in the subset `s`, where `len` bytes of
/// the text were encoded so far: control characters are skipped, the others are mapped and
/// written escaped, up to the first that the subset cannot take. Gives the bytes, the subset
/// after, and the number of bytes of the text up to the end of the last character encoded.
pub open spec fn encode_from(s: Seq<char>, cs: Seq<char>, k: int, len: nat) -> (Seq<u8>, Seq<char>, nat)
    decreases cs.len() - k,
{
    if k < 0 || k >= cs.len() {
        (Seq::empty(), s, len)
    } else if (cs[k] as u32) < 0x20 {
        encode_from(s, cs, k + 1, len)
    } else {
        match spec_map_char(s, cs[k]) {
            (None, _) => (Seq::empty(), s, len),
            (Some(b), s1) => {
                let (rest, s2, l2) = encode_from(s1, cs, k + 1, utf8_len(cs.take(k + 1)));
                (escaped(b) + rest, s2, l2)
            },
        }
    }
}

/// An OpenType font that a document embeds as subsets of its characters.
pub struct OpenTypeFont {
    font: OtfFont,
    post_script_name: String,
    subsets: Vec<UnicodeSubset>,
}

impl OpenTypeFont {
    /// The font.
    pub closed spec fn font(&self) -> OtfFont {
        self.font
    }

    /// The PostScript name that the font goes by.
    pub closed spec fn name(&self) -> Seq<char> {
        self.post_script_name@
    }

    /// The subsets so far, by number.
    pub closed spec fn subsets(&self) -> Seq<Seq<char>> {
        Seq::new(self.subsets@.len(), |i: int| self.subsets@[i]@)
    }

    /// Every subset is consistent.
    pub open spec fn wf(&self) -> bool {
        forall|i: int| 0 <= i < self.subsets().len() ==> subset_wf(#[trigger] self.subsets()[i])
    }

    /// The font under its PostScript name, or "Unknown" where it has none, with no subsets yet.
    pub fn new(font: OtfFont) -> (r: OpenTypeFont)
        requires
            name_in_bounds(font.name_table.records(), font.name_table.strings(), POST_SCRIPT_NAME_ID),
        ensures
            r.wf(),
            r.font() == font,
            r.name() == match spec_name(font.name_table.records(), font.name_table.strings(), POST_SCRIPT_NAME_ID) {
                Some(n) => n,
                None => "Unknown"@,
            },
            r.subsets() == Seq::<Seq<char>>::empty(),
    {
        let post_script_name = match font.post_script_name() {
            Some(n) => n,
            None => String::from_str("Unknown"),
        };
        let r = OpenTypeFont { font, post_script_name, subsets: Vec::new() };
        assert(r.subsets() =~= Seq::<Seq<char>>::empty());
        r
    }

    /// Reads the font from its bytes.
    pub fn from_slice(data: &[u8]) -> (r: Result<OpenTypeFont, FontError>)
        requires
            slice_defined(data@),
            forall|f: OtfFont, ot: OffsetTable|
                #[trigger] f.matches_tables(data@, ot) ==> name_in_bounds(
                    f.name_table.records(),
                    f.name_table.strings(),
                    POST_SCRIPT_NAME_ID,
                ),
        ensures
            match OffsetTable::unpack_outcome(data@) {
                Err(e) => r == Err::<OpenTypeFont, FontError>(e),
                Ok(n) => exists|ot: OffsetTable| #[trigger] ot.matches_words(font_words(data@, n)) && match r {
                    Ok(f) => {
                        &&& tables_outcome(data@, ot) == Some(Ok::<(), FontError>(()))
                        &&& f.font().matches_tables(data@, ot)
                        &&& f.wf()
                        &&& f.subsets() == Seq::<Seq<char>>::empty()
                        &&& f.name() == match spec_name(
                            f.font().name_table.records(),
                            f.font().name_table.strings(),
                            POST_SCRIPT_NAME_ID,
                        ) {
                            Some(n) => n,
                            None => "Unknown"@,
                        }
                    },
                    Err(e) => tables_outcome(data@, ot) == Some(Err::<(), FontError>(e)),
                },
            },
    {
        match OtfFont::from_slice(data) {
            Ok(font) => Ok(OpenTypeFont::new(font)),
            Err(e) => Err(e),
        }
    }

    /// Reads the font as `from_slice` does, or gives `None` where `from_slice` may not be
    /// called: where reading the font is undefined (see `slice_defined`), or its PostScript
    /// name's record reaches past the string storage.
    pub fn try_from_slice(data: &[u8]) -> (r: Option<Result<OpenTypeFont, FontError>>)
        ensures
            r is None ==> !slice_defined(data@) || exists|f: OtfFont, ot: OffsetTable|
                #[trigger] f.matches_tables(data@, ot) && !name_in_bounds(
                    f.name_table.records(),
                    f.name_table.strings(),
                    POST_SCRIPT_NAME_ID,
                ),
            r matches Some(Err(e)) ==> match OffsetTable::unpack_outcome(data@) {
                Err(e2) => e == e2,
                Ok(n) => exists|ot: OffsetTable| #[trigger] ot.matches_words(font_words(data@, n))
                    && tables_outcome(data@, ot) == Some(Err::<(), FontError>(e)),
            },
            r matches Some(Ok(f)) ==> {
                &&& OffsetTable::unpack_outcome(data@) is Ok
                &&& exists|ot: OffsetTable| #[trigger] ot.matches_words(
                    font_words(data@, OffsetTable::unpack_outcome(data@)->Ok_0),
                ) && tables_outcome(data@, ot) == Some(Ok::<(), FontError>(())) && f.font().matches_tables(data@, ot)
                &&& f.wf()
                &&& f.subsets() == Seq::<Seq<char>>::empty()
            },
    {
        match OtfFont::try_from_slice(data) {
            None => None,
            Some(Err(e)) => Some(Err(e)),
            Some(Ok(font)) => {
                if font.name_table.name_in_bounds(POST_SCRIPT_NAME_ID) {
                    Some(Ok(OpenTypeFont::new(font)))
                } else {
                    None
                }
            },
        }
    }
}

impl Font for OpenTypeFont {
    open spec fn inv(&self) -> bool {
        self.wf()
    }

    /// The PostScript name of the font.
    fn base_name(&self) -> (r: &str)
        ensures
            r@ == self.name(),
    {
        self.post_script_name.as_str()
    }

    /// An OpenType font is set without kerning.
    fn kerning(&self, lhs: char, rhs: char) -> (r: Option<i32>)
        ensures
            r is None,
    {
        None
    }

    /// Appends `text`, up to the first character that its subset cannot take, as a PDF literal
    /// string in the codes of one subset, to `buf`. The subset is the first that maps the first
    /// character or has a code left for it, else a new one; control characters are left out.
    /// Gives the subset and the number of bytes of `text` encoded; an empty text writes
    /// nothing and gives subset 0.
    fn encode_into(&mut self, text: &str, buf: &mut Vec<u8>) -> (r: (SubsetRef, usize))
        ensures
            final(self).wf(),
            final(self).font() == old(self).font(),
            final(self).name() == old(self).name(),
            text@.len() == 0 ==> {
                &&& r == (SubsetRef(0), 0usize)
                &&& final(buf)@ == old(buf)@
                &&& final(self).subsets() == old(self).subsets()
            },
            text@.len() > 0 ==> {
                let (subs, ix) = pick_subset(old(self).subsets(), text@[0]);
                let (bytes, s2, len) = encode_from(subs[ix], text@, 0, 0);
                &&& r.0 == SubsetRef(ix as usize)
                &&& r.1 == len
                &&& final(buf)@ == old(buf)@ + seq![0x28u8] + bytes + seq![0x29u8]
                &&& final(self).subsets() == subs.update(ix, s2)
            },
    {
        let n = text.unicode_len();
        if n == 0 {
            return (SubsetRef(0), 0);
        }
        let first = text.get_char(0);
        let ghost subs0 = self.subsets();
        let mut ix: usize = 0;
        let mut found = false;
        while ix < self.subsets.len()
            invariant_except_break
                !found,
                ix <= self.subsets@.len(),
                self.subsets() == subs0,
                first_fit(subs0, first, 0) == first_fit(subs0, first, ix as int),
            invariant
                self.wf(),
                self.font == old(self).font,
                self.post_script_name == old(self).post_script_name,
                self.subsets@.len() == subs0.len(),
            ensures
                found ==> ix < subs0.len() && first_fit(subs0, first, 0) == Some(ix as int)
                    && self.subsets() == subs0.update(ix as int, spec_map_char(subs0[ix as int], first).1),
                !found ==> first_fit(subs0, first, 0) is None && self.subsets() == subs0 && ix == subs0.len(),
            decreases self.subsets@.len() - ix,
        {
            let ghost before = self.subsets@[ix as int];
            assert(subs0[ix as int] == before@);
            assert(subset_wf(before@));
            let got = self.subsets[ix].map_char(first);
            if got.is_some() {
                found = true;
                proof {
                    assert(self.subsets() =~= subs0.update(ix as int, spec_map_char(subs0[ix as int], first).1));
                    assert forall|i: int| 0 <= i < self.subsets().len() implies subset_wf(#[trigger] self.subsets()[i]) by {
                        if i != ix {
                            assert(self.subsets()[i] == subs0[i]);
                        }
                    }
                }
                break;
            }
            proof {
                assert(self.subsets() =~= subs0);
            }
            ix = ix + 1;
        }
        if !found {
            self.subsets.push(UnicodeSubset::new());
            proof {
                assert(self.subsets() =~= subs0.push(Seq::empty()));
                assert forall|i: int| 0 <= i < self.subsets().len() implies subset_wf(#[trigger] self.subsets()[i]) by {
                    if i < subs0.len() {
                        assert(self.subsets()[i] == subs0[i]);
                    }
                }
            }
        }
        let ghost subs1 = self.subsets();
        let ghost cs = text@;
        assert(subs1 == pick_subset(subs0, first).0 && ix == pick_subset(subs0, first).1);
        let bytes = text.as_bytes();
        let _blen = bytes.len();
        proof {
            crate::unicode::lemma_utf8_len_encoding(cs);
        }
        let ghost start = buf@;
        buf.push(0x28u8);
        let mut len: usize = 0;
        let mut pos: usize = 0;
        let mut i: usize = 0;
        let ghost mut written: Seq<u8> = Seq::empty();
        assert(cs.take(0) =~= Seq::<char>::empty());
        while i < n
            invariant_except_break
                i <= n,
                pos == utf8_len(cs.take(i as int)),
                encode_from(subs1[ix as int], cs, 0, 0) == ({
                    let (e, s2, l2) = encode_from(self.subsets()[ix as int], cs, i as int, len as nat);
                    (written + e, s2, l2)
                }),
            invariant
                n == cs.len(),
                cs == text@,
                ix < self.subsets@.len(),
                self.wf(),
                self.font == old(self).font,
                self.post_script_name == old(self).post_script_name,
                self.subsets@.len() == subs1.len(),
                forall|j: int| 0 <= j < subs1.len() && j != ix ==> #[trigger] self.subsets()[j] == subs1[j],
                buf@ == start + seq![0x28u8] + written,
                len <= pos,
                utf8_len(cs) <= usize::MAX,
            ensures
                encode_from(subs1[ix as int], cs, 0, 0) == (written, self.subsets()[ix as int], len as nat),
            decreases n - i,
        {
            let ch = text.get_char(i);
            let w = char_utf8_width(ch);
            proof {
                assert(cs.take(i + 1).drop_last() =~= cs.take(i as int));
                assert(utf8_len(cs.take(i + 1)) == pos + w);
                lemma_utf8_len_prefix(cs, i + 1);
            }
            if (ch as u32) < 0x20 {
                pos = pos + w;
                i = i + 1;
                continue;
            }
            let ghost cur = self.subsets()[ix as int];
            let ghost prev_v = self.subsets@;
            let ghost prev = self.subsets();
            assert(subset_wf(cur));
            let code = self.subsets[ix].map_char(ch);
            match code {
                None => {
                    proof {
                        assert(written =~= written + Seq::<u8>::empty());
                        assert forall|j: int| 0 <= j < self.subsets().len() implies subset_wf(#[trigger] self.subsets()[j]) by {
                            if j != ix {
                                assert(self.subsets@[j] == prev_v[j]);
                                assert(self.subsets()[j] == prev[j]);
                            }
                        }
                        assert forall|j: int| 0 <= j < subs1.len() && j != ix implies #[trigger] self.subsets()[j] == subs1[j] by {
                            assert(self.subsets@[j] == prev_v[j]);
                            assert(prev[j] == subs1[j]);
                        }
                    }
                    break;
                },
                Some(b) => {
                    let ghost before = buf@;
                    if b == 0x5C {
                        buf.push(0x5C);
                        buf.push(0x5C);
                    } else if b == 0x28 {
                        buf.push(0x5C);
                        buf.push(0x28);
                    } else if b == 0x29 {
                        buf.push(0x5C);
                        buf.push(0x29);
                    } else {
                        buf.push(b);
                    }
                    proof {
                        assert(buf@ =~= before + escaped(b));
                        written = written + escaped(b);
                        assert(buf@ =~= start + seq![0x28u8] + written);
                        assert forall|j: int| 0 <= j < self.subsets().len() implies subset_wf(#[trigger] self.subsets()[j]) by {
                            if j != ix {
                                assert(self.subsets@[j] == prev_v[j]);
                                assert(self.subsets()[j] == prev[j]);
                            }
                        }
                        assert forall|j: int| 0 <= j < subs1.len() && j != ix implies #[trigger] self.subsets()[j] == subs1[j] by {
                            assert(self.subsets@[j] == prev_v[j]);
                            assert(prev[j] == subs1[j]);
                        }
                    }
                    len = pos + w;
                },
            }
            pos = pos + w;
            i = i + 1;
        }
        buf.push(0x29u8);
        proof {
            assert(self.subsets() =~= subs1.update(ix as int, self.subsets()[ix as int]));
        }
        (SubsetRef(ix), len)
    }
}


/// The glyph ids of the characters of the subset `s` that the font maps, each with the code
/// of its character, in the order of the codes.
pub open spec fn code_glyphs(cmap: CmapTable, s: Seq<char>) -> Seq<(u16, u32)>
    decreases s.len(),
{
    if s.len() == 0 {
        Seq::empty()
    } else {
        let rest = code_glyphs(cmap, s.drop_last());
        match cmap.lookup(s.last() as u32) {
            Some(g) => rest.push((g, (FIRST_CODE + s.len() - 1) as u32)),
            None => rest,
        }
    }
}

/// The codes that the pairs `ps` give the glyph `g`, in order.
pub open spec fn codes_of(ps: Seq<(u16, u32)>, g: u16) -> Seq<u32>
    decreases ps.len(),
{
    if ps.len() == 0 {
        Seq::empty()
    } else {
        let rest = codes_of(ps.drop_last(), g);
        if ps.last().0 == g {
            rest.push(ps.last().1)
        } else {
            rest
        }
    }
}

/// `r` are the glyphs of the pairs `ps`: one per glyph id of `ps`, ordered by id, each with
/// the codes of its id in order.
pub open spec fn sorted_glyphs(ps: Seq<(u16, u32)>, r: Seq<Glyph>) -> bool {
    &&& forall|i: int, j: int| 0 <= i < j < r.len() ==> r[i].index < r[j].index
    &&& forall|k: int| 0 <= k < r.len() ==> (#[trigger] r[k]).code_points@ == codes_of(ps, r[k].index)
        && r[k].code_points@.len() > 0
    &&& forall|j: int| 0 <= j < ps.len() ==> exists|k: int| 0 <= k < r.len() && (#[trigger] r[k]).index == (#[trigger] ps[j]).0
}

/// Taking one pair more.
proof fn lemma_codes_of_push(ps: Seq<(u16, u32)>, i: int, h: u16)
    requires
        0 <= i < ps.len(),
    ensures
        codes_of(ps.take(i + 1), h) == if ps[i].0 == h {
            codes_of(ps.take(i), h).push(ps[i].1)
        } else {
            codes_of(ps.take(i), h)
        },
{
    assert(ps.take(i + 1).drop_last() =~= ps.take(i));
}

/// Groups the pairs by glyph id, ordered by id.
pub fn group_sorted(ps: &Vec<(u16, u32)>) -> (r: Vec<Glyph>)
    ensures
        sorted_glyphs(ps@, r@),
{
    let mut r: Vec<Glyph> = Vec::new();
    let mut i: usize = 0;
    assert(ps@.take(0) =~= Seq::<(u16, u32)>::empty());
    while i < ps.len()
        invariant
            i <= ps@.len(),
            sorted_glyphs(ps@.take(i as int), r@),
        decreases ps@.len() - i,
    {
        let (g, c) = ps[i];
        let ghost old_r = r@;
        let ghost pre = ps@.take(i as int);
        let ghost post = ps@.take(i + 1);
        proof {
            assert forall|h: u16| #[trigger] codes_of(post, h) == (if h == g { codes_of(pre, h).push(c) } else { codes_of(pre, h) }) by {
                lemma_codes_of_push(ps@, i as int, h);
            }
        }
        let mut p: usize = 0;
        while p < r.len() && r[p].index < g
            invariant
                p <= r@.len(),
                r@ == old_r,
                forall|k: int| 0 <= k < p ==> (#[trigger] r@[k]).index < g,
            decreases r@.len() - p,
        {
            p = p + 1;
        }
        if p < r.len() && r[p].index == g {
            let ghost before = r@;
            r[p].code_points.push(c);
            proof {
                assert forall|i2: int, j2: int| 0 <= i2 < j2 < r@.len() implies r@[i2].index < r@[j2].index by {
                    assert(r@[i2].index == before[i2].index);
                    assert(r@[j2].index == before[j2].index);
                }
                assert forall|k: int| 0 <= k < r@.len() implies (#[trigger] r@[k]).code_points@ == codes_of(post, r@[k].index)
                    && r@[k].code_points@.len() > 0 by {
                    if k != p {
                        assert(r@[k] == before[k]);
                        assert(before[k].index != g) by {
                            if k < p {
                            } else {
                                assert(before[p as int].index < before[k].index);
                            }
                        }
                    }
                }
                assert forall|j: int| 0 <= j < post.len() implies exists|k: int| 0 <= k < r@.len() && (#[trigger] r@[k]).index == (#[trigger] post[j]).0 by {
                    if j < i {
                        assert(post[j] == pre[j]);
                        let k = choose|k: int| 0 <= k < before.len() && (#[trigger] before[k]).index == pre[j].0;
                        assert(r@[k].index == before[k].index);
                    } else {
                        assert(post[j] == (g, c));
                        assert(r@[p as int].index == g);
                    }
                }
            }
        } else {
            let mut cps: Vec<u32> = Vec::new();
            cps.push(c);
            let glyph = Glyph { index: g, code_points: cps };
            let ghost before = r@;
            r.insert(p, glyph);
            proof {
                assert(r@ =~= before.insert(p as int, glyph));
                assert forall|k: int| p <= k < before.len() implies before[k].index > g by {
                    if k == p {
                    } else {
                        assert(before[p as int].index < before[k].index);
                    }
                }
                assert forall|i2: int, j2: int| 0 <= i2 < j2 < r@.len() implies r@[i2].index < r@[j2].index by {
                    if j2 < p {
                    } else if j2 == p {
                    } else if i2 < p {
                        assert(r@[j2] == before[j2 - 1]);
                    } else if i2 == p {
                        assert(r@[j2] == before[j2 - 1]);
                    } else {
                        assert(r@[i2] == before[i2 - 1]);
                        assert(r@[j2] == before[j2 - 1]);
                    }
                }
                assert(codes_of(pre, g) =~= Seq::<u32>::empty()) by {
                    if codes_of(pre, g).len() > 0 {
                        lemma_codes_of_member(pre, g);
                        let j = choose|j: int| 0 <= j < pre.len() && pre[j].0 == g;
                        assert(pre[j] == pre[j]);
                        let k = choose|k: int| 0 <= k < before.len() && (#[trigger] before[k]).index == pre[j].0;
                        if k < p {
                        } else {
                            assert(before[k].index > g);
                        }
                    }
                }
                assert forall|k: int| 0 <= k < r@.len() implies (#[trigger] r@[k]).code_points@ == codes_of(post, r@[k].index)
                    && r@[k].code_points@.len() > 0 by {
                    if k < p {
                        assert(r@[k] == before[k]);
                    } else if k == p {
                        assert(r@[k].code_points@ =~= seq![c]);
                        assert(codes_of(pre, g).push(c) =~= seq![c]);
                    } else {
                        assert(r@[k] == before[k - 1]);
                    }
                }
                assert forall|j: int| 0 <= j < post.len() implies exists|k: int| 0 <= k < r@.len() && (#[trigger] r@[k]).index == (#[trigger] post[j]).0 by {
                    if j < i {
                        assert(post[j] == pre[j]);
                        let k = choose|k: int| 0 <= k < before.len() && (#[trigger] before[k]).index == pre[j].0;
                        if k < p {
                            assert(r@[k] == before[k]);
                        } else {
                            assert(r@[k + 1] == before[k]);
                        }
                    } else {
                        assert(post[j] == (g, c));
                        assert(r@[p as int].index == g);
                    }
                }
            }
        }
        i = i + 1;
    }
    assert(ps@.take(ps@.len() as int) =~= ps@);
    r
}

/// A glyph with codes is one of the pairs.
proof fn lemma_codes_of_member(ps: Seq<(u16, u32)>, g: u16)
    requires
        codes_of(ps, g).len() > 0,
    ensures
        exists|j: int| 0 <= j < ps.len() && ps[j].0 == g,
    decreases ps.len(),
{
    if ps.last().0 != g {
        lemma_codes_of_member(ps.drop_last(), g);
        let j = choose|j: int| 0 <= j < ps.drop_last().len() && ps.drop_last()[j].0 == g;
        assert(ps[j] == ps.drop_last()[j]);
    } else {
        assert(ps[ps.len() - 1].0 == g);
    }
}

/// The flags of a font descriptor: fixed pitch (1), serif (2), script (8), non-symbolic (32)
/// and italic (64).
pub open spec fn spec_descriptor_flags(font: OtfFont) -> u32 {
    ((if font.post_table.is_fixed_path > 0 { 1u32 } else { 0 }) + (if 1 <= font.os2_table.s_family_class <= 7 {
        2u32
    } else {
        0
    }) + (if font.os2_table.s_family_class == 10 { 8u32 } else { 0 }) + 32 + (if font.post_table.italic_angle
        != 0 {
        64u32
    } else {
        0
    })) as u32
}

/// The flags of a font descriptor for `font`.
pub fn descriptor_flags(font: &OtfFont) -> (r: u32)
    ensures
        r == spec_descriptor_flags(*font),
{
    let mut flags: u32 = 0;
    if font.is_fixed_pitch() {
        flags = flags + 1;
    }
    if font.is_serif() {
        flags = flags + 2;
    }
    if font.is_script() {
        flags = flags + 8;
    }
    flags = flags + 32;
    if font.is_italic() {
        flags = flags + 64;
    }
    flags
}

impl OpenTypeFont {
    /// The glyphs of the subset `subset_ref`, ordered by glyph id, each with the codes of its
    /// characters in the subset; `None` where there is no such subset.
    pub fn subset_glyphs(&self, subset_ref: SubsetRef) -> (r: Option<Vec<Glyph>>)
        requires
            self.wf(),
            self.font().cmap_table.wf(),
            subset_ref.0 < self.subsets().len() ==> {
                &&& self.subsets()[subset_ref.0 as int].len() < SUBSET_CAPACITY
                &&& forall|k: int|
                    0 <= k < self.subsets()[subset_ref.0 as int].len() ==> self.font().cmap_table.lookup_defined(
                        #[trigger] self.subsets()[subset_ref.0 as int][k] as u32,
                    )
            },
        ensures
            subset_ref.0 >= self.subsets().len() ==> r is None,
            subset_ref.0 < self.subsets().len() ==> r is Some && sorted_glyphs(
                code_glyphs(self.font().cmap_table, self.subsets()[subset_ref.0 as int]),
                r->Some_0@,
            ),
    {
        let ix = subset_ref.font_id();
        if ix >= self.subsets.len() {
            return None;
        }
        let subset = &self.subsets[ix];
        assert(subset@ == self.subsets()[ix as int]);
        let chars = subset.chars();
        let mut pairs: Vec<(u16, u32)> = Vec::new();
        let mut k: usize = 0;
        while k < chars.len()
            invariant
                k <= chars@.len(),
                chars@.len() == subset@.len(),
                subset@ == self.subsets()[ix as int],
                subset@.len() < SUBSET_CAPACITY,
                self.font().cmap_table.wf(),
                forall|j: int| 0 <= j < subset@.len() ==> self.font().cmap_table.lookup_defined(#[trigger] subset@[j] as u32),
                forall|j: int| 0 <= j < chars@.len() ==> #[trigger] chars@[j] == Some(((FIRST_CODE + j) as u8, subset@[j])),
                pairs@ == code_glyphs(self.font().cmap_table, subset@.take(k as int)),
            decreases chars@.len() - k,
        {
            assert(chars@[k as int] == Some(((FIRST_CODE + k) as u8, subset@[k as int])));
            if let Some((b, ch)) = chars[k] {
                assert(subset@.take(k + 1).drop_last() =~= subset@.take(k as int));
                assert(subset@.take(k + 1).last() == ch);
                assert(self.font().cmap_table.lookup_defined(subset@[k as int] as u32));
                match self.font.glyph_id(ch as u32) {
                    Some(g) => {
                        pairs.push((g, b as u32));
                    },
                    None => {},
                }
            }
            k = k + 1;
        }
        assert(subset@.take(k as int) =~= subset@);
        Some(group_sorted(&pairs))
    }

    /// The advance width, in font units, of each code of the subset `subset_ref` from the
    /// first to the last given out; `None` where there is no such subset.
    pub fn subset_advance_widths(&self, subset_ref: SubsetRef) -> (r: Option<Vec<Option<u16>>>)
        requires
            self.wf(),
            self.font().cmap_table.wf(),
            subset_ref.0 < self.subsets().len() ==> {
                &&& self.subsets()[subset_ref.0 as int].len() < SUBSET_CAPACITY
                &&& forall|k: int|
                    0 <= k < self.subsets()[subset_ref.0 as int].len() ==> self.font().cmap_table.lookup_defined(
                        #[trigger] self.subsets()[subset_ref.0 as int][k] as u32,
                    )
            },
        ensures
            subset_ref.0 >= self.subsets().len() ==> r is None,
            subset_ref.0 < self.subsets().len() ==> r is Some && r->Some_0@.len() == self.subsets()[subset_ref.0 as int].len()
                && forall|k: int| 0 <= k < r->Some_0@.len() ==> #[trigger] r->Some_0@[k] == advance_width_of(
                    self.font(),
                    self.subsets()[subset_ref.0 as int][k],
                ),
    {
        let ix = subset_ref.font_id();
        if ix >= self.subsets.len() {
            return None;
        }
        let subset = &self.subsets[ix];
        assert(subset@ == self.subsets()[ix as int]);
        let chars = subset.chars();
        let mut widths: Vec<Option<u16>> = Vec::new();
        let mut k: usize = 0;
        while k < chars.len()
            invariant
                k <= chars@.len(),
                chars@.len() == subset@.len(),
                subset@ == self.subsets()[ix as int],
                self.font().cmap_table.wf(),
                forall|j: int| 0 <= j < subset@.len() ==> self.font().cmap_table.lookup_defined(#[trigger] subset@[j] as u32),
                forall|j: int| 0 <= j < chars@.len() ==> #[trigger] chars@[j] == Some(((FIRST_CODE + j) as u8, subset@[j])),
                widths@.len() == k,
                forall|j: int| 0 <= j < k ==> #[trigger] widths@[j] == advance_width_of(self.font(), subset@[j]),
            decreases chars@.len() - k,
        {
            assert(chars@[k as int] == Some(((FIRST_CODE + k) as u8, subset@[k as int])));
            if let Some((_, ch)) = chars[k] {
                assert(self.font().cmap_table.lookup_defined(subset@[k as int] as u32));
                widths.push(self.font.char_advance_width(ch));
            }
            k = k + 1;
        }
        Some(widths)
    }

    /// The name of the subset `subset_ref` of the font: its tag, `+`, and the font's name.
    pub fn subset_base_font(&self, subset_ref: SubsetRef) -> (r: String)
        ensures
            r@ == spec_tag(subset_ref.0 as nat) + "+"@ + self.name(),
    {
        let t = tag(subset_ref.font_id());
        let t = t.concat("+");
        t.concat(self.post_script_name.as_str())
    }
}

/// The advance width of the glyph of `ch`, or of glyph 0 where the font does not map `ch`, if
/// that glyph has a metric.
pub open spec fn advance_width_of(font: OtfFont, ch: char) -> Option<u16> {
    let ix = match font.cmap_table.lookup(ch as u32) {
        Some(g) => g as int,
        None => 0,
    };
    if ix < font.hmtx_table.h_metrics@.len() {
        Some(font.hmtx_table.h_metrics@[ix].advance_width)
    } else {
        None
    }
}

/// A prefix of a text is no longer in UTF-8 than the text.
proof fn lemma_utf8_len_prefix(cs: Seq<char>, k: int)
    requires
        0 <= k <= cs.len(),
    ensures
        utf8_len(cs.take(k)) <= utf8_len(cs),
    decreases cs.len() - k,
{
    if k < cs.len() {
        lemma_utf8_len_prefix(cs, k + 1);
        assert(cs.take(k + 1).drop_last() =~= cs.take(k));
    } else {
        assert(cs.take(k) =~= cs);
    }
}

} // verus!
