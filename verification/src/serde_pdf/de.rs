//! Reading PDF objects from their bytes.
use vstd::prelude::*;
use crate::serde_pdf::error::Error;
use vstd::string::StringSliceAdditionalSpecFns;
use crate::decimal::{decimal, lemma_decimal_digits, signed_decimal, zero_padded};
use crate::unicode::{char_from_code, string_from_chars, utf8_len, utf8_width, char_utf8_width};
use vstd::string::StrSliceExecFns;

verus! {

/// The state of a reader: the bytes still to read, the first of them possibly already looked
/// at.
pub struct DeState {
    pub rest: Seq<u8>,
    pub peeked: bool,
}

/// A reader of PDF objects from bytes, looking at most one byte ahead.
pub struct Deserializer {
    input: Vec<u8>,
    pos: usize,
    peek: Option<u8>,
}

impl View for Deserializer {
    type V = DeState;

    closed spec fn view(&self) -> DeState {
        DeState {
            rest: match self.peek {
                Some(c) => seq![c] + self.input@.subrange(self.pos as int, self.input@.len() as int),
                None => self.input@.subrange(self.pos as int, self.input@.len() as int),
            },
            peeked: self.peek is Some,
        }
    }
}

/// A state is consistent: a byte looked at is still to read.
pub open spec fn wf_state(s: DeState) -> bool {
    s.peeked ==> s.rest.len() > 0
}

/// Looking at the next byte.
pub open spec fn spec_peek(s: DeState) -> (Option<u8>, DeState) {
    if s.rest.len() == 0 {
        (None, DeState { rest: s.rest, peeked: false })
    } else {
        (Some(s.rest[0]), DeState { rest: s.rest, peeked: true })
    }
}

/// Taking the next byte.
pub open spec fn spec_next(s: DeState) -> (Option<u8>, DeState) {
    if s.rest.len() == 0 {
        (None, DeState { rest: s.rest, peeked: false })
    } else {
        (Some(s.rest[0]), DeState { rest: s.rest.drop_first(), peeked: false })
    }
}

/// Dropping the byte looked at, if any.
pub open spec fn spec_discard(s: DeState) -> DeState {
    if s.peeked && s.rest.len() > 0 {
        DeState { rest: s.rest.drop_first(), peeked: false }
    } else {
        DeState { rest: s.rest, peeked: false }
    }
}

/// The byte is white space in the sense of the PDF specification.
pub open spec fn is_pdf_whitespace(b: u8) -> bool {
    b == 0x00 || b == 0x09 || b == 0x0A || b == 0x0C || b == 0x0D || b == 0x20
}

/// The byte, read as a Latin-1 character, is Unicode white space.
pub open spec fn is_char_whitespace(b: u8) -> bool {
    (0x09 <= b <= 0x0D) || b == 0x20 || b == 0x85 || b == 0xA0
}

/// The byte is an ASCII digit.
pub open spec fn is_digit(b: u8) -> bool {
    0x30 <= b <= 0x39
}

/// Skipping white space: whether there was any, and the state after it.
pub open spec fn spec_discard_whitespace(s: DeState) -> (bool, DeState)
    decreases s.rest.len(),
{
    let (c, s1) = spec_peek(s);
    match c {
        Some(b) => if is_pdf_whitespace(b) {
            (true, spec_discard_whitespace(spec_discard(s1)).1)
        } else {
            (false, s1)
        },
        None => (false, s1),
    }
}

/// Reading the bytes `ident`: `Ok(false)` at the first byte that differs (having taken it),
/// `Err(Eof)` where the bytes end first.
pub open spec fn spec_parse_ident(s: DeState, ident: Seq<u8>) -> (Result<bool, Error>, DeState)
    decreases ident.len(),
{
    if ident.len() == 0 {
        (Ok(true), s)
    } else {
        let (c, s1) = spec_next(s);
        match c {
            None => (Err(Error::Eof), s1),
            Some(ch) => if ch != ident[0] {
                (Ok(false), s1)
            } else {
                spec_parse_ident(s1, ident.drop_first())
            },
        }
    }
}

/// Reading `true` or `false`.
pub open spec fn spec_parse_bool(s: DeState) -> (Result<bool, Error>, DeState) {
    let (c, s1) = spec_peek(s);
    if c == Some(0x74u8) {
        let (r, s2) = spec_parse_ident(spec_discard(s1), seq![0x72u8, 0x75, 0x65]);
        (match r { Ok(true) => Ok(true), Ok(false) => Err(Error::ExpectedBoolean), Err(e) => Err(e) }, s2)
    } else if c == Some(0x66u8) {
        let (r, s2) = spec_parse_ident(spec_discard(s1), seq![0x61u8, 0x6C, 0x73, 0x65]);
        (match r { Ok(true) => Ok(false), Ok(false) => Err(Error::ExpectedBoolean), Err(e) => Err(e) }, s2)
    } else {
        (Err(Error::ExpectedBoolean), s1)
    }
}

/// Reading `null`.
pub open spec fn spec_parse_null(s: DeState) -> (Result<(), Error>, DeState) {
    let (c, s1) = spec_peek(s);
    if c == Some(0x6Eu8) {
        let (r, s2) = spec_parse_ident(spec_discard(s1), seq![0x75u8, 0x6C, 0x6C]);
        (match r { Ok(true) => Ok(()), Ok(false) => Err(Error::ExpectedNull), Err(e) => Err(e) }, s2)
    } else {
        (Err(Error::ExpectedNull), s1)
    }
}

/// Reading the digits of a number after `val`, for a number at most `max`: the number ends
/// before white space, `]`, the end, or a `.` where `allow_decimal`.
pub open spec fn spec_digits(s: DeState, val: u64, max: u64, allow_decimal: bool) -> (Result<u64, Error>, DeState)
    decreases s.rest.len(),
{
    let (c, s1) = spec_peek(s);
    match c {
        None => (Ok(val), s1),
        Some(b) => if is_digit(b) {
            if val * 10 > max || val * 10 + (b - 0x30) > max {
                (Err(Error::NumberOverflow), s1)
            } else {
                spec_digits(spec_discard(s1), (val * 10 + (b - 0x30)) as u64, max, allow_decimal)
            }
        } else if b == 0x2E {
            (if allow_decimal { Ok(val) } else { Err(Error::ExpectedFloat) }, s1)
        } else if is_char_whitespace(b) || b == 0x5D {
            (Ok(val), s1)
        } else {
            (Err(Error::ExpectedInteger), s1)
        },
    }
}

/// Reading an unsigned number at most `max`, with an optional `+`.
pub open spec fn spec_parse_unsigned(s: DeState, allow_decimal: bool, max: u64) -> (Result<u64, Error>, DeState) {
    let (c, s1) = spec_peek(s);
    let s2 = if c == Some(0x2Bu8) { spec_discard(s1) } else { s1 };
    let (d, s3) = spec_peek(s2);
    if d == Some(0x2Du8) {
        (Err(Error::ExpectedUnsignedInteger), s3)
    } else {
        spec_digits(s3, 0, max, allow_decimal)
    }
}

/// Reading a signed number whose magnitude is at most `max`.
pub open spec fn spec_parse_signed(s: DeState, allow_decimal: bool, max: u64) -> (Result<i64, Error>, DeState) {
    let (c, s1) = spec_peek(s);
    match c {
        Some(b) => if b == 0x2D {
            let (r, s2) = spec_parse_unsigned(spec_discard(s1), allow_decimal, max);
            (match r { Ok(v) => Ok(-v as i64), Err(e) => Err(e) }, s2)
        } else if is_digit(b) || b == 0x2B || b == 0x2E {
            let (r, s2) = spec_parse_unsigned(s1, allow_decimal, max);
            (match r { Ok(v) => Ok(v as i64), Err(e) => Err(e) }, s2)
        } else {
            (Err(Error::ExpectedInteger), s1)
        },
        None => (Err(Error::ExpectedInteger), s1),
    }
}

/// The byte is a hexadecimal digit.
pub open spec fn is_hex(b: u8) -> bool {
    is_digit(b) || (0x41 <= b <= 0x46) || (0x61 <= b <= 0x66)
}

/// The value of a hexadecimal digit.
pub open spec fn hex_value(b: u8) -> int {
    if is_digit(b) {
        b - 0x30
    } else if b <= 0x46 {
        b - 0x37
    } else {
        b - 0x57
    }
}

/// The two bytes after `#` in a name, read as a `u8` in base 16 (an optional `+` and the
/// digits): `None` where they are no such number.
pub open spec fn hex_escape(n1: u8, n2: u8) -> Option<u8> {
    if is_hex(n1) && is_hex(n2) {
        Some((hex_value(n1) * 16 + hex_value(n2)) as u8)
    } else if n1 == 0x2B && is_hex(n2) {
        Some(hex_value(n2) as u8)
    } else {
        None
    }
}

/// Reading the characters of a name after `acc`: `#` and two hex digits stand for a byte,
/// the regular characters from `!` to `~` for themselves; anything else ends the name. `None`
/// where the two bytes after a `#` are no hexadecimal number, which the reader does not take.
pub open spec fn spec_name_chars(s: DeState, acc: Seq<char>) -> Option<(Result<Seq<char>, Error>, DeState)>
    decreases s.rest.len(),
{
    let (c, s1) = spec_peek(s);
    match c {
        None => Some((Ok(acc), s1)),
        Some(b) => if b == 0x23 {
            let s2 = spec_discard(s1);
            let (n1, s3) = spec_next(s2);
            let (n2, s4) = spec_next(s3);
            match (n1, n2) {
                (Some(x), Some(y)) => match hex_escape(x, y) {
                    Some(v) => spec_name_chars(s4, acc.push(v as char)),
                    None => None,
                },
                _ => Some((Err(Error::InvalidEscapeSequence), s4)),
            }
        } else if 0x21 <= b <= 0x7E {
            spec_name_chars(spec_discard(s1), acc.push(b as char))
        } else {
            Some((Ok(acc), s1))
        },
    }
}

/// Reading a name: `/` and its characters.
pub open spec fn spec_parse_name(s: DeState) -> Option<(Result<Seq<char>, Error>, DeState)> {
    let (c, s1) = spec_peek(s);
    if c != Some(0x2Fu8) {
        Some((Err(Error::ExpectedName), s1))
    } else {
        spec_name_chars(spec_discard(s1), Seq::empty())
    }
}

/// The character that the Windows-1252 code `code` stands for, where the code page differs
/// from Latin-1; else the character with the number `code`.
pub open spec fn win1252_char(code: u32) -> char {
    if code == 128 { '\u{20ac}' }
    else if code == 130 { '\u{201a}' }
    else if code == 131 { '\u{0192}' }
    else if code == 132 { '\u{201e}' }
    else if code == 133 { '\u{2026}' }
    else if code == 134 { '\u{2020}' }
    else if code == 135 { '\u{2021}' }
    else if code == 136 { '\u{02c6}' }
    else if code == 137 { '\u{2030}' }
    else if code == 138 { '\u{0160}' }
    else if code == 139 { '\u{2039}' }
    else if code == 140 { '\u{0152}' }
    else if code == 142 { '\u{017d}' }
    else if code == 145 { '\u{2018}' }
    else if code == 146 { '\u{2019}' }
    else if code == 147 { '\u{201c}' }
    else if code == 148 { '\u{201d}' }
    else if code == 149 { '\u{2022}' }
    else if code == 150 { '\u{2013}' }
    else if code == 151 { '\u{2014}' }
    else if code == 152 { '\u{02dc}' }
    else if code == 153 { '\u{2122}' }
    else if code == 154 { '\u{0161}' }
    else if code == 155 { '\u{203a}' }
    else if code == 156 { '\u{0153}' }
    else if code == 158 { '\u{017e}' }
    else if code == 159 { '\u{0178}' }
    else { code as char }
}

/// The digits of an octal escape after its first: up to `k` more decimal digits.
pub open spec fn spec_octal_tail(s: DeState, digits: Seq<u8>, k: nat) -> (Seq<u8>, DeState)
    decreases k,
{
    if k == 0 {
        (digits, s)
    } else {
        let (c, s1) = spec_peek(s);
        match c {
            Some(d) => if is_digit(d) {
                spec_octal_tail(spec_next(s1).1, digits.push(d), (k - 1) as nat)
            } else {
                (digits, s1)
            },
            None => (digits, s1),
        }
    }
}

/// The digits read in base 8: `None` where one of them is 8 or 9.
pub open spec fn octal_value(digits: Seq<u8>) -> Option<u32>
    decreases digits.len(),
{
    if digits.len() == 0 {
        Some(0)
    } else {
        match octal_value(digits.drop_last()) {
            Some(v) => if digits.last() <= 0x37 {
                Some((v * 8 + (digits.last() - 0x30)) as u32)
            } else {
                None
            },
            None => None,
        }
    }
}

/// The character that a backslash and `e` stand for in a literal string, where `e` is one of
/// `n r t b f ( ) \`.
pub open spec fn simple_escape(e: u8) -> Option<char> {
    if e == 0x6E { Some('\n') }
    else if e == 0x72 { Some('\r') }
    else if e == 0x74 { Some('\t') }
    else if e == 0x62 { Some('\u{8}') }
    else if e == 0x66 { Some('\u{c}') }
    else if e == 0x28 { Some('(') }
    else if e == 0x29 { Some(')') }
    else if e == 0x5C { Some('\\') }
    else { None }
}

/// The deepest nesting of parentheses that a literal string can have.
pub const MAX_NESTING: u32 = 0x7FFF_FFFF;

/// Reading the rest of a literal string after `acc`, inside `depth` open parentheses: the
/// string ends at the `)` that closes no parenthesis; bytes stand for themselves, except the
/// escapes. `None` where the parentheses nest deeper than the reader counts.
pub open spec fn spec_string_body(s: DeState, depth: nat, acc: Seq<char>) -> Option<(Result<Seq<char>, Error>, DeState)>
    decreases s.rest.len(),
{
    let (c, s1) = spec_next(s);
    match c {
        None => Some((Err(Error::Eof), s1)),
        Some(b) => if b == 0x28 {
            if depth >= MAX_NESTING {
                None
            } else {
                spec_string_body(s1, depth + 1, acc.push('('))
            }
        } else if b == 0x29 {
            if depth == 0 {
                Some((Ok(acc), s1))
            } else {
                spec_string_body(s1, (depth - 1) as nat, acc.push(')'))
            }
        } else if b == 0x5C {
            let (e, s2) = spec_next(s1);
            match e {
                None => Some((Err(Error::InvalidEscapeSequence), s2)),
                Some(x) => match simple_escape(x) {
                    Some(ch) => spec_string_body(s2, depth, acc.push(ch)),
                    None => if x == 0x0A {
                        spec_string_body(s2, depth, acc)
                    } else if is_digit(x) {
                        let (digits, s3) = spec_octal_tail(s2, seq![x], 2);
                        proof {
                            lemma_octal_tail_shrinks(s2, seq![x], 2);
                        }
                        match octal_value(digits) {
                            Some(code) => spec_string_body(s3, depth, acc.push(win1252_char(code))),
                            None => Some((Err(Error::InvalidEscapeSequence), s3)),
                        }
                    } else {
                        Some((Err(Error::InvalidEscapeSequence), s2))
                    },
                },
            }
        } else {
            spec_string_body(s1, depth, acc.push(b as char))
        },
    }
}

/// Reading a string: a name, or a literal string in parentheses.
pub open spec fn spec_parse_string(s: DeState) -> Option<(Result<Seq<char>, Error>, DeState)> {
    let (c, s1) = spec_peek(s);
    if c == Some(0x2Fu8) {
        spec_parse_name(s1)
    } else if c != Some(0x28u8) {
        Some((Err(Error::ExpectedString), s1))
    } else {
        spec_string_body(spec_discard(s1), 0, Seq::empty())
    }
}

/// Reading two bytes, which open a dictionary where they are `<<` and close one where they
/// are `>>`.
pub open spec fn spec_pair(s: DeState) -> (Option<u8>, Option<u8>, DeState) {
    let (a, s1) = spec_next(s);
    let (b, s2) = spec_next(s1);
    (a, b, s2)
}

/// Opening a dictionary: `<<` and any white space after it.
pub open spec fn spec_begin_map(s: DeState) -> (Result<(), Error>, DeState) {
    let (a, b, s1) = spec_pair(s);
    if a == Some(0x3Cu8) && b == Some(0x3Cu8) {
        (Ok(()), spec_discard_whitespace(s1).1)
    } else {
        (Err(Error::ExpectedMap), s1)
    }
}

/// Before a key of a dictionary: white space, then either the end (`>` looked at), or a key,
/// which needs white space before it unless it is the first.
pub open spec fn spec_next_key(s: DeState, first: bool) -> (Result<bool, Error>, DeState) {
    let (ws, s1) = spec_discard_whitespace(s);
    let (c, s2) = spec_peek(s1);
    if c == Some(0x3Eu8) {
        (Ok(false), s2)
    } else if !first && !ws {
        (Err(Error::ExpectedMapComma), s2)
    } else {
        (Ok(true), s2)
    }
}

/// Between a key and its value: white space, which is needed.
pub open spec fn spec_value_separator(s: DeState) -> (Result<(), Error>, DeState) {
    let (ws, s1) = spec_discard_whitespace(s);
    if ws {
        (Ok(()), s1)
    } else {
        (Err(Error::ExpectedMapColon), s1)
    }
}

/// Closing a dictionary: `>>`.
pub open spec fn spec_end_map(s: DeState) -> (Result<(), Error>, DeState) {
    let (a, b, s1) = spec_pair(s);
    if a == Some(0x3Eu8) && b == Some(0x3Eu8) {
        (Ok(()), s1)
    } else {
        (Err(Error::ExpectedMapEnd), s1)
    }
}

/// The kind of value that a self-describing reading finds by the next byte.
#[derive(Debug, Clone, Copy, PartialEq, Eq, Structural)]
pub enum ValueKind {
    Null,
    Bool,
    Str,
    Unsigned,
    Signed,
    Float,
    Array,
    Dictionary,
}

/// The kind of value that starts with `c`.
pub open spec fn spec_kind(c: Option<u8>) -> Result<ValueKind, Error> {
    match c {
        Some(b) => if b == 0x6E {
            Ok(ValueKind::Null)
        } else if b == 0x74 || b == 0x66 {
            Ok(ValueKind::Bool)
        } else if b == 0x28 || b == 0x2F {
            Ok(ValueKind::Str)
        } else if is_digit(b) || b == 0x2B {
            Ok(ValueKind::Unsigned)
        } else if b == 0x2D {
            Ok(ValueKind::Signed)
        } else if b == 0x2E {
            Ok(ValueKind::Float)
        } else if b == 0x5B {
            Ok(ValueKind::Array)
        } else if b == 0x3C {
            Ok(ValueKind::Dictionary)
        } else {
            Err(Error::Syntax)
        },
        None => Err(Error::Syntax),
    }
}

/// The reading state only shrinks.
pub open spec fn shrinks(s: DeState, t: DeState) -> bool {
    &&& t.rest.len() <= s.rest.len()
    &&& wf_state(t)
}

impl Deserializer {
    /// A reader of `input`.
    pub fn new(input: &[u8]) -> (d: Deserializer)
        ensures
            d@ == (DeState { rest: input@, peeked: false }),
            d.wf(),
    {
        let v = crate::big_endian::copy_range(input, 0, input.len());
        let d = Deserializer { input: v, pos: 0, peek: None };
        assert(d.input@.subrange(0, d.input@.len() as int) =~= input@);
        d
    }

    /// All bytes have been taken from the input; one may still be looked at.
    pub closed spec fn input_done(self) -> bool {
        self.pos >= self.input@.len()
    }

    /// The reader is consistent.
    pub closed spec fn wf(self) -> bool {
        self.pos <= self.input@.len()
    }

    /// A consistent reader has a consistent state.
    pub proof fn lemma_wf_state(self)
        requires
            self.wf(),
        ensures
            wf_state(self@),
    {
    }

    /// The input is done exactly where nothing but the byte looked at is left.
    pub proof fn lemma_input_done(self)
        requires
            self.wf(),
        ensures
            self.input_done() == (self@.rest.len() == if self@.peeked { 1nat } else { 0nat }),
            wf_state(self@),
    {
    }

    /// Whether all bytes have been taken from the input.
    pub fn is_input_done(&self) -> (r: bool)
        requires
            self.wf(),
        ensures
            r == self.input_done(),
    {
        self.pos >= self.input.len()
    }

    /// Looks at the next byte without taking it.
    pub fn peek_char(&mut self) -> (r: Option<u8>)
        requires
            old(self).wf(),
        ensures
            final(self).wf(),
            (r, final(self)@) == spec_peek(old(self)@),
    {
        if self.peek.is_some() {
            return self.peek;
        }
        let next = self.next_char();
        self.peek = next;
        assert(self@.rest =~= old(self)@.rest);
        next
    }

    /// Takes the next byte.
    pub fn next_char(&mut self) -> (r: Option<u8>)
        requires
            old(self).wf(),
        ensures
            final(self).wf(),
            (r, final(self)@) == spec_next(old(self)@),
    {
        match self.peek {
            Some(c) => {
                self.peek = None;
                assert(self@.rest =~= old(self)@.rest.drop_first());
                Some(c)
            },
            None => {
                if self.pos < self.input.len() {
                    let c = self.input[self.pos];
                    self.pos = self.pos + 1;
                    assert(self@.rest =~= old(self)@.rest.drop_first());
                    Some(c)
                } else {
                    None
                }
            },
        }
    }

    /// Drops the byte looked at.
    pub fn discard_char(&mut self)
        requires
            old(self).wf(),
        ensures
            final(self).wf(),
            final(self)@ == spec_discard(old(self)@),
    {
        self.peek = None;
        assert(self@.rest =~= spec_discard(old(self)@).rest);
    }

    /// Skips white space; tells whether there was any.
    pub fn discard_whitespace(&mut self) -> (r: bool)
        requires
            old(self).wf(),
        ensures
            final(self).wf(),
            (r, final(self)@) == spec_discard_whitespace(old(self)@),
    {
        let mut has_whitespace = false;
        loop
            invariant
                self.wf(),
                spec_discard_whitespace(old(self)@) == (
                    has_whitespace || spec_discard_whitespace(self@).0,
                    spec_discard_whitespace(self@).1,
                ),
            decreases self@.rest.len(),
        {
            let ghost before = self@;
            match self.peek_char() {
                Some(c) => {
                    if c == 0x00 || c == 0x09 || c == 0x0A || c == 0x0C || c == 0x0D || c == 0x20 {
                        self.discard_char();
                        has_whitespace = true;
                    } else {
                        return has_whitespace;
                    }
                },
                None => {
                    return has_whitespace;
                },
            }
        }
    }

    /// Reads the bytes `ident`.
    pub fn parse_ident(&mut self, ident: &[u8]) -> (r: Result<bool, Error>)
        requires
            old(self).wf(),
        ensures
            final(self).wf(),
            (r, final(self)@) == spec_parse_ident(old(self)@, ident@),
    {
        let mut k: usize = 0;
        assert(ident@.skip(0) =~= ident@);
        while k < ident.len()
            invariant
                self.wf(),
                k <= ident@.len(),
                spec_parse_ident(old(self)@, ident@) == spec_parse_ident(self@, ident@.skip(k as int)),
            decreases ident@.len() - k,
        {
            assert(ident@.skip(k as int).drop_first() =~= ident@.skip(k + 1));
            match self.next_char() {
                Some(ch) => {
                    if ch != ident[k] {
                        return Ok(false);
                    }
                },
                None => {
                    return Err(Error::Eof);
                },
            }
            k = k + 1;
        }
        Ok(true)
    }

    /// Reads a name: `/`, then its characters, where `#` and two hexadecimal digits stand for
    /// the byte they give.
    pub fn parse_name(&mut self) -> (r: Result<String, Error>)
        requires
            old(self).wf(),
            spec_parse_name(old(self)@) is Some,
        ensures
            final(self).wf(),
            final(self)@ == spec_parse_name(old(self)@)->Some_0.1,
            match (r, spec_parse_name(old(self)@)->Some_0.0) {
                (Ok(x), Ok(v)) => x@ == v,
                (Err(e), Err(f)) => e == f,
                _ => false,
            },
    {
        match self.try_parse_name() {
            Some(r) => r,
            None => {
                proof {
                    assert(false);
                }
                Err(Error::InvalidEscapeSequence)
            },
        }
    }

    /// Reads a name as `parse_name` does, or gives `None` where `parse_name` may not be called:
    /// where the two bytes after a `#` are no hexadecimal number.
    pub fn try_parse_name(&mut self) -> (r: Option<Result<String, Error>>)
        requires
            old(self).wf(),
        ensures
            final(self).wf(),
            match spec_parse_name(old(self)@) {
                None => r is None,
                Some((v, st)) => r is Some && final(self)@ == st && match (r->Some_0, v) {
                    (Ok(x), Ok(w)) => x@ == w,
                    (Err(e), Err(f)) => e == f,
                    _ => false,
                },
            },
    {
        if self.peek_char() != Some(0x2Fu8) {
            return Some(Err(Error::ExpectedName));
        }
        self.discard_char();
        let mut name: Vec<char> = Vec::new();
        loop
            invariant
                self.wf(),
                spec_parse_name(old(self)@) == spec_name_chars(self@, name@),
            decreases self@.rest.len(),
        {
            proof {
                Deserializer::lemma_wf_state(*self);
            }
            let c = match self.peek_char() {
                Some(c) => c,
                None => {
                    return Some(Ok(string_from_chars(&name)));
                },
            };
            if c == 0x23 {
                self.discard_char();
                let n1 = self.next_char();
                let n2 = self.next_char();
                match (n1, n2) {
                    (Some(x), Some(y)) => {
                        match hex_escape_of(x, y) {
                            Some(v) => name.push(v as char),
                            None => {
                                return None;
                            },
                        }
                    },
                    _ => {
                        return Some(Err(Error::InvalidEscapeSequence));
                    },
                }
            } else if 0x21 <= c && c <= 0x7E {
                self.discard_char();
                name.push(c as char);
            } else {
                return Some(Ok(string_from_chars(&name)));
            }
        }
    }

    /// Reads the rest of a literal string, after its `(`.
    fn parse_string_body(&mut self) -> (r: Option<Result<String, Error>>)
        requires
            old(self).wf(),
        ensures
            final(self).wf(),
            match spec_string_body(old(self)@, 0, Seq::empty()) {
                None => r is None,
                Some((v, st)) => r is Some && final(self)@ == st && match (r->Some_0, v) {
                    (Ok(x), Ok(w)) => x@ == w,
                    (Err(e), Err(f)) => e == f,
                    _ => false,
                },
            },
    {
        let mut chars: Vec<char> = Vec::new();
        let mut depth: u32 = 0;
        loop
            invariant
                self.wf(),
                spec_string_body(old(self)@, 0, Seq::empty()) == spec_string_body(self@, depth as nat, chars@),
                depth <= MAX_NESTING,
            decreases self@.rest.len(),
        {
            proof {
                Deserializer::lemma_wf_state(*self);
            }
            let b = match self.next_char() {
                Some(b) => b,
                None => {
                    return Some(Err(Error::Eof));
                },
            };
            if b == 0x28 {
                if depth >= MAX_NESTING {
                    return None;
                }
                depth = depth + 1;
                chars.push('(');
            } else if b == 0x29 {
                if depth == 0 {
                    return Some(Ok(string_from_chars(&chars)));
                }
                depth = depth - 1;
                chars.push(')');
            } else if b == 0x5C {
                let e = match self.next_char() {
                    Some(e) => e,
                    None => {
                        return Some(Err(Error::InvalidEscapeSequence));
                    },
                };
                if e == 0x6E {
                    chars.push('\n');
                } else if e == 0x72 {
                    chars.push('\r');
                } else if e == 0x74 {
                    chars.push('\t');
                } else if e == 0x62 {
                    chars.push('\u{8}');
                } else if e == 0x66 {
                    chars.push('\u{c}');
                } else if e == 0x28 {
                    chars.push('(');
                } else if e == 0x29 {
                    chars.push(')');
                } else if e == 0x5C {
                    chars.push('\\');
                } else if e == 0x0A {
                } else if 0x30 <= e && e <= 0x39 {
                    let mut digits: Vec<u8> = Vec::new();
                    digits.push(e);
                    let ghost s_tail = self@;
                    let mut k: usize = 0;
                    while k < 2
                        invariant
                            self.wf(),
                            k <= 2,
                            1 <= digits@.len() <= 1 + k,
                            forall|i: int| 0 <= i < digits@.len() ==> is_digit(#[trigger] digits@[i]),
                            spec_octal_tail(s_tail, seq![e], 2) == spec_octal_tail(self@, digits@, (2 - k) as nat),
                            self@.rest.len() <= s_tail.rest.len(),
                        decreases 2 - k,
                    {
                        proof {
                            Deserializer::lemma_wf_state(*self);
                        }
                        let ghost before = self@;
                        match self.peek_char() {
                            Some(d) => {
                                if 0x30 <= d && d <= 0x39 {
                                    let taken = self.next_char();
                                    digits.push(d);
                                } else {
                                    proof {
                                        lemma_octal_tail_stops(self@, digits@, (2 - k - 1) as nat);
                                    }
                                }
                            },
                            None => {
                                proof {
                                    lemma_octal_tail_stops(self@, digits@, (2 - k - 1) as nat);
                                }
                            },
                        }
                        k = k + 1;
                    }
                    match octal_code(&digits) {
                        Some(code) => {
                            let ch = win1252_to_unicode(code);
                            chars.push(ch);
                        },
                        None => {
                            return Some(Err(Error::InvalidEscapeSequence));
                        },
                    }
                } else {
                    return Some(Err(Error::InvalidEscapeSequence));
                }
            } else {
                chars.push(b as char);
            }
        }
    }

    /// Reads a string: a name, or a literal string in parentheses, in which `\` escapes
    /// `n r t b f ( ) \`, a line break, or one to three octal digits of a Windows-1252 code.
    pub fn parse_string(&mut self) -> (r: Result<String, Error>)
        requires
            old(self).wf(),
            spec_parse_string(old(self)@) is Some,
        ensures
            final(self).wf(),
            final(self)@ == spec_parse_string(old(self)@)->Some_0.1,
            match (r, spec_parse_string(old(self)@)->Some_0.0) {
                (Ok(x), Ok(v)) => x@ == v,
                (Err(e), Err(f)) => e == f,
                _ => false,
            },
    {
        match self.try_parse_string() {
            Some(r) => r,
            None => {
                proof {
                    assert(false);
                }
                Err(Error::InvalidEscapeSequence)
            },
        }
    }

    /// Reads a string as `parse_string` does, or gives `None` where `parse_string` may not be
    /// called: where a name holds a `#` not followed by a hexadecimal number, or parentheses in
    /// a literal string nest deeper than `MAX_NESTING`.
    pub fn try_parse_string(&mut self) -> (r: Option<Result<String, Error>>)
        requires
            old(self).wf(),
        ensures
            final(self).wf(),
            match spec_parse_string(old(self)@) {
                None => r is None,
                Some((v, st)) => r is Some && final(self)@ == st && match (r->Some_0, v) {
                    (Ok(x), Ok(w)) => x@ == w,
                    (Err(e), Err(f)) => e == f,
                    _ => false,
                },
            },
    {
        let c = self.peek_char();
        if c == Some(0x2Fu8) {
            return self.try_parse_name();
        }
        if c != Some(0x28u8) {
            return Some(Err(Error::ExpectedString));
        }
        self.discard_char();
        self.parse_string_body()
    }

    /// Reads two bytes.
    fn next_pair(&mut self) -> (r: (Option<u8>, Option<u8>))
        requires
            old(self).wf(),
        ensures
            final(self).wf(),
            (r.0, r.1, final(self)@) == spec_pair(old(self)@),
    {
        let a = self.next_char();
        let b = self.next_char();
        (a, b)
    }

    /// Opens a dictionary: `<<` and any white space after it.
    pub fn begin_map(&mut self) -> (r: Result<(), Error>)
        requires
            old(self).wf(),
        ensures
            final(self).wf(),
            (r, final(self)@) == spec_begin_map(old(self)@),
    {
        let (a, b) = self.next_pair();
        if a == Some(0x3Cu8) && b == Some(0x3Cu8) {
            self.discard_whitespace();
            Ok(())
        } else {
            Err(Error::ExpectedMap)
        }
    }

    /// Before a key of a dictionary: whether a key follows (`false` at the closing `>`); a
    /// key but the first needs white space before it.
    pub fn next_key(&mut self, first: bool) -> (r: Result<bool, Error>)
        requires
            old(self).wf(),
        ensures
            final(self).wf(),
            (r, final(self)@) == spec_next_key(old(self)@, first),
    {
        let ws = self.discard_whitespace();
        if self.peek_char() == Some(0x3Eu8) {
            return Ok(false);
        }
        if !first && !ws {
            return Err(Error::ExpectedMapComma);
        }
        Ok(true)
    }

    /// Between a key and its value: the white space that separates them.
    pub fn value_separator(&mut self) -> (r: Result<(), Error>)
        requires
            old(self).wf(),
        ensures
            final(self).wf(),
            (r, final(self)@) == spec_value_separator(old(self)@),
    {
        if self.discard_whitespace() {
            Ok(())
        } else {
            Err(Error::ExpectedMapColon)
        }
    }

    /// Closes a dictionary: `>>`.
    pub fn end_map(&mut self) -> (r: Result<(), Error>)
        requires
            old(self).wf(),
        ensures
            final(self).wf(),
            (r, final(self)@) == spec_end_map(old(self)@),
    {
        let (a, b) = self.next_pair();
        if a == Some(0x3Eu8) && b == Some(0x3Eu8) {
            Ok(())
        } else {
            Err(Error::ExpectedMapEnd)
        }
    }

    /// The kind of the next value, by its first byte, which is looked at.
    pub fn peek_kind(&mut self) -> (r: Result<ValueKind, Error>)
        requires
            old(self).wf(),
        ensures
            final(self).wf(),
            (r, final(self)@) == (spec_kind(spec_peek(old(self)@).0), spec_peek(old(self)@).1),
    {
        match self.peek_char() {
            Some(b) => if b == 0x6E {
                Ok(ValueKind::Null)
            } else if b == 0x74 || b == 0x66 {
                Ok(ValueKind::Bool)
            } else if b == 0x28 || b == 0x2F {
                Ok(ValueKind::Str)
            } else if (0x30 <= b && b <= 0x39) || b == 0x2B {
                Ok(ValueKind::Unsigned)
            } else if b == 0x2D {
                Ok(ValueKind::Signed)
            } else if b == 0x2E {
                Ok(ValueKind::Float)
            } else if b == 0x5B {
                Ok(ValueKind::Array)
            } else if b == 0x3C {
                Ok(ValueKind::Dictionary)
            } else {
                Err(Error::Syntax)
            },
            None => Err(Error::Syntax),
        }
    }

    /// Reads `true` or `false`.
    pub fn parse_bool(&mut self) -> (r: Result<bool, Error>)
        requires
            old(self).wf(),
        ensures
            final(self).wf(),
            (r, final(self)@) == spec_parse_bool(old(self)@),
    {
        match self.peek_char() {
            Some(0x74u8) => {
                self.discard_char();
                let rue: [u8; 3] = [0x72, 0x75, 0x65];
                assert(rue@ =~= seq![0x72u8, 0x75, 0x65]);
                match self.parse_ident(rue.as_slice()) {
                    Ok(true) => Ok(true),
                    Ok(false) => Err(Error::ExpectedBoolean),
                    Err(e) => Err(e),
                }
            },
            Some(0x66u8) => {
                self.discard_char();
                let alse: [u8; 4] = [0x61, 0x6C, 0x73, 0x65];
                assert(alse@ =~= seq![0x61u8, 0x6C, 0x73, 0x65]);
                match self.parse_ident(alse.as_slice()) {
                    Ok(true) => Ok(false),
                    Ok(false) => Err(Error::ExpectedBoolean),
                    Err(e) => Err(e),
                }
            },
            _ => Err(Error::ExpectedBoolean),
        }
    }

    /// Reads `null`.
    pub fn parse_null(&mut self) -> (r: Result<(), Error>)
        requires
            old(self).wf(),
        ensures
            final(self).wf(),
            (r, final(self)@) == spec_parse_null(old(self)@),
    {
        if self.peek_char() == Some(0x6Eu8) {
            self.discard_char();
            let ull: [u8; 3] = [0x75, 0x6C, 0x6C];
            assert(ull@ =~= seq![0x75u8, 0x6C, 0x6C]);
            match self.parse_ident(ull.as_slice()) {
                Ok(true) => Ok(()),
                Ok(false) => Err(Error::ExpectedNull),
                Err(e) => Err(e),
            }
        } else {
            Err(Error::ExpectedNull)
        }
    }

    /// Reads an unsigned number at most `max`: an optional `+`, then decimal digits, up to white
    /// space, `]`, the end, or a `.` where `allow_decimal`. A `-` fails; so does a number above
    /// `max`.
    pub fn parse_unsigned(&mut self, allow_decimal: bool, max: u64) -> (r: Result<u64, Error>)
        requires
            old(self).wf(),
        ensures
            final(self).wf(),
            (r, final(self)@) == spec_parse_unsigned(old(self)@, allow_decimal, max),
            r matches Ok(v) ==> v <= max,
    {
        if self.peek_char() == Some(0x2Bu8) {
            self.discard_char();
        }
        if self.peek_char() == Some(0x2Du8) {
            return Err(Error::ExpectedUnsignedInteger);
        }
        let mut val: u64 = 0;
        loop
            invariant
                self.wf(),
                val <= max,
                spec_parse_unsigned(old(self)@, allow_decimal, max) == spec_digits(self@, val, max, allow_decimal),
            decreases self@.rest.len(),
        {
            match self.peek_char() {
                Some(b) => {
                    if 0x30 <= b && b <= 0x39 {
                        let d = (b - 0x30) as u64;
                        if val > max / 10 {
                            assert(val * 10 > max) by (nonlinear_arith)
                                requires val > max / 10;
                            return Err(Error::NumberOverflow);
                        }
                        assert(val * 10 <= max) by (nonlinear_arith)
                            requires val <= max / 10;
                        if d > max - val * 10 {
                            return Err(Error::NumberOverflow);
                        }
                        val = val * 10 + d;
                        self.discard_char();
                    } else if b == 0x2E {
                        if allow_decimal {
                            return Ok(val);
                        } else {
                            return Err(Error::ExpectedFloat);
                        }
                    } else if (0x09 <= b && b <= 0x0D) || b == 0x20 || b == 0x85 || b == 0xA0 || b == 0x5D {
                        return Ok(val);
                    } else {
                        return Err(Error::ExpectedInteger);
                    }
                },
                None => {
                    return Ok(val);
                },
            }
        }
    }

    /// Reads a signed number whose magnitude is at most `max`: a `-` then an unsigned number
    /// negated, or an unsigned number.
    pub fn parse_signed(&mut self, allow_decimal: bool, max: u64) -> (r: Result<i64, Error>)
        requires
            old(self).wf(),
            max <= i64::MAX,
        ensures
            final(self).wf(),
            (r, final(self)@) == spec_parse_signed(old(self)@, allow_decimal, max),
    {
        match self.peek_char() {
            Some(b) => {
                if b == 0x2D {
                    self.discard_char();
                    match self.parse_unsigned(allow_decimal, max) {
                        Ok(v) => Ok(-(v as i64)),
                        Err(e) => Err(e),
                    }
                } else if (0x30 <= b && b <= 0x39) || b == 0x2B || b == 0x2E {
                    match self.parse_unsigned(allow_decimal, max) {
                        Ok(v) => Ok(v as i64),
                        Err(e) => Err(e),
                    }
                } else {
                    Err(Error::ExpectedInteger)
                }
            },
            None => Err(Error::ExpectedInteger),
        }
    }
}

/// Reading octal digits never grows the input left.
pub proof fn lemma_octal_tail_shrinks(s: DeState, digits: Seq<u8>, k: nat)
    ensures
        spec_octal_tail(s, digits, k).1.rest.len() <= s.rest.len(),
    decreases k,
{
    if k > 0 {
        let (c, s1) = spec_peek(s);
        if let Some(d) = c {
            if is_digit(d) {
                lemma_octal_tail_shrinks(spec_next(s1).1, digits.push(d), (k - 1) as nat);
            }
        }
    }
}

/// Peeking at something that is no digit ends the octal digits.
proof fn lemma_octal_tail_stops(s: DeState, digits: Seq<u8>, k: nat)
    requires
        wf_state(s),
        s.peeked || s.rest.len() == 0,
        s.rest.len() > 0 ==> !is_digit(s.rest[0]),
    ensures
        spec_octal_tail(s, digits, k) == (digits, s),
        spec_octal_tail(s, digits, k + 1) == (digits, s),
{
    if s.rest.len() == 0 {
        assert(spec_peek(s).1 == s);
    }
    if k > 0 {
        assert(spec_peek(s).1 == s);
    }
}

/// The byte that the two bytes after `#` in a name give in base 16, if they are such a number.
fn hex_escape_of(n1: u8, n2: u8) -> (r: Option<u8>)
    ensures
        r == hex_escape(n1, n2),
{
    let h1 = (0x30 <= n1 && n1 <= 0x39) || (0x41 <= n1 && n1 <= 0x46) || (0x61 <= n1 && n1 <= 0x66);
    let h2 = (0x30 <= n2 && n2 <= 0x39) || (0x41 <= n2 && n2 <= 0x46) || (0x61 <= n2 && n2 <= 0x66);
    if (h1 && h2) || (n1 == 0x2B && h2) {
        Some(hex_byte(n1, n2))
    } else {
        None
    }
}

/// The byte that the two bytes after `#` in a name give in base 16.
fn hex_byte(n1: u8, n2: u8) -> (r: u8)
    requires
        hex_escape(n1, n2) is Some,
    ensures
        Some(r) == hex_escape(n1, n2),
{
    if n1 == 0x2B {
        hex_digit(n2)
    } else {
        let h = hex_digit(n1);
        let l = hex_digit(n2);
        h * 16 + l
    }
}

/// The value of a hexadecimal digit.
fn hex_digit(b: u8) -> (r: u8)
    requires
        is_hex(b),
    ensures
        r == hex_value(b),
        r < 16,
{
    if b <= 0x39 {
        b - 0x30
    } else if b <= 0x46 {
        b - 0x37
    } else {
        b - 0x57
    }
}

/// The digits read in base 8, where none is 8 or 9.
fn octal_code(digits: &Vec<u8>) -> (r: Option<u32>)
    requires
        digits@.len() <= 3,
        forall|i: int| 0 <= i < digits@.len() ==> is_digit(#[trigger] digits@[i]),
    ensures
        r == octal_value(digits@),
        r matches Some(v) ==> v < 512,
{
    let mut v: u32 = 0;
    let mut i: usize = 0;
    assert(digits@.take(0) =~= Seq::<u8>::empty());
    while i < digits.len()
        invariant
            i <= digits@.len() <= 3,
            forall|j: int| 0 <= j < digits@.len() ==> is_digit(#[trigger] digits@[j]),
            octal_value(digits@.take(i as int)) == Some(v),
            v < pow8(i as nat),
        decreases digits@.len() - i,
    {
        proof {
            reveal_with_fuel(pow8, 4);
        }
        assert(digits@.take(i + 1).drop_last() =~= digits@.take(i as int));
        let d = digits[i];
        if d > 0x37 {
            proof {
                lemma_octal_none(digits@, i as int);
            }
            return None;
        }
        v = v * 8 + (d - 0x30) as u32;
        i = i + 1;
    }
    assert(digits@.take(i as int) =~= digits@);
    proof {
        reveal_with_fuel(pow8, 4);
    }
    Some(v)
}

/// Powers of eight.
pub open spec fn pow8(n: nat) -> nat
    decreases n,
{
    if n == 0 { 1 } else { 8 * pow8((n - 1) as nat) }
}

/// A digit 8 or 9 makes the octal value undefined.
proof fn lemma_octal_none(digits: Seq<u8>, i: int)
    requires
        0 <= i < digits.len(),
        digits[i] > 0x37,
    ensures
        octal_value(digits) is None,
    decreases digits.len(),
{
    if i < digits.len() - 1 {
        lemma_octal_none(digits.drop_last(), i);
    }
}

/// The character for a Windows-1252 code below 512.
fn win1252_to_unicode(code: u32) -> (r: char)
    requires
        code < 512,
    ensures
        r == win1252_char(code),
{
    if code == 128 { '\u{20ac}' }
    else if code == 130 { '\u{201a}' }
    else if code == 131 { '\u{0192}' }
    else if code == 132 { '\u{201e}' }
    else if code == 133 { '\u{2026}' }
    else if code == 134 { '\u{2020}' }
    else if code == 135 { '\u{2021}' }
    else if code == 136 { '\u{02c6}' }
    else if code == 137 { '\u{2030}' }
    else if code == 138 { '\u{0160}' }
    else if code == 139 { '\u{2039}' }
    else if code == 140 { '\u{0152}' }
    else if code == 142 { '\u{017d}' }
    else if code == 145 { '\u{2018}' }
    else if code == 146 { '\u{2019}' }
    else if code == 147 { '\u{201c}' }
    else if code == 148 { '\u{201d}' }
    else if code == 149 { '\u{2022}' }
    else if code == 150 { '\u{2013}' }
    else if code == 151 { '\u{2014}' }
    else if code == 152 { '\u{02dc}' }
    else if code == 153 { '\u{2122}' }
    else if code == 154 { '\u{0161}' }
    else if code == 155 { '\u{203a}' }
    else if code == 156 { '\u{0153}' }
    else if code == 158 { '\u{017e}' }
    else if code == 159 { '\u{0178}' }
    else { char_from_code(code) }
}

proof fn lemma_peek_shrinks(s: DeState)
    requires
        wf_state(s),
    ensures
        shrinks(s, spec_peek(s).1),
        shrinks(s, spec_next(s).1),
        shrinks(s, spec_discard(s)),
        spec_peek(s).0 is Some ==> spec_discard(spec_peek(s).1).rest.len() < s.rest.len(),
{
}

proof fn lemma_ident_shrinks(s: DeState, ident: Seq<u8>)
    requires
        wf_state(s),
    ensures
        shrinks(s, spec_parse_ident(s, ident).1),
    decreases ident.len(),
{
    if ident.len() > 0 {
        lemma_ident_shrinks(spec_next(s).1, ident.drop_first());
    }
}

proof fn lemma_digits_shrinks(s: DeState, val: u64, max: u64, allow_decimal: bool)
    requires
        wf_state(s),
    ensures
        shrinks(s, spec_digits(s, val, max, allow_decimal).1),
    decreases s.rest.len(),
{
    let (c, s1) = spec_peek(s);
    if let Some(b) = c {
        if is_digit(b) && !(val * 10 > max || val * 10 + (b - 0x30) > max) {
            lemma_digits_shrinks(spec_discard(s1), (val * 10 + (b - 0x30)) as u64, max, allow_decimal);
        }
    }
}

proof fn lemma_unsigned_shrinks(s: DeState, allow_decimal: bool, max: u64)
    requires
        wf_state(s),
    ensures
        shrinks(s, spec_parse_unsigned(s, allow_decimal, max).1),
{
    let (c, s1) = spec_peek(s);
    let s2 = if c == Some(0x2Bu8) { spec_discard(s1) } else { s1 };
    let (d, s3) = spec_peek(s2);
    lemma_digits_shrinks(s3, 0, max, allow_decimal);
}

proof fn lemma_signed_shrinks(s: DeState, allow_decimal: bool, max: u64)
    requires
        wf_state(s),
    ensures
        shrinks(s, spec_parse_signed(s, allow_decimal, max).1),
{
    let (c, s1) = spec_peek(s);
    lemma_unsigned_shrinks(spec_discard(s1), allow_decimal, max);
    lemma_unsigned_shrinks(s1, allow_decimal, max);
}

proof fn lemma_null_bool_shrink(s: DeState)
    requires
        wf_state(s),
    ensures
        shrinks(s, spec_parse_null(s).1),
        shrinks(s, spec_parse_bool(s).1),
{
    let (c, s1) = spec_peek(s);
    lemma_ident_shrinks(spec_discard(s1), seq![0x75u8, 0x6C, 0x6C]);
    lemma_ident_shrinks(spec_discard(s1), seq![0x72u8, 0x75, 0x65]);
    lemma_ident_shrinks(spec_discard(s1), seq![0x61u8, 0x6C, 0x73, 0x65]);
}

/// A value that can be read from PDF object syntax.
pub trait FromPdf: Sized {
    /// The mathematical value of a read value.
    type Val;

    /// The mathematical value of `self`.
    spec fn val(self) -> Self::Val;

    /// What reading a value from the state `s` gives, and the state after it.
    spec fn spec_parse(s: DeState) -> (Result<Self::Val, Error>, DeState);

    /// Reading a value from the state `s` does not panic.
    spec fn defined(s: DeState) -> bool;

    /// Reading never grows the input left to read.
    proof fn lemma_parse_shrinks(s: DeState)
        requires
            wf_state(s),
        ensures
            shrinks(s, Self::spec_parse(s).1),
    ;

    /// Reads a value.
    fn deserialize(de: &mut Deserializer) -> (r: Result<Self, Error>)
        requires
            old(de).wf(),
            Self::defined(old(de)@),
        ensures
            final(de).wf(),
            final(de)@ == Self::spec_parse(old(de)@).1,
            match (r, Self::spec_parse(old(de)@).0) {
                (Ok(x), Ok(v)) => x.val() == v,
                (Err(e), Err(f)) => e == f,
                _ => false,
            },
    ;
}

/// A read number, made a value of another type by `f`.
pub open spec fn number_as<N, T>(r: (Result<N, Error>, DeState), f: spec_fn(N) -> T) -> (Result<T, Error>, DeState) {
    (match r.0 { Ok(v) => Ok(f(v)), Err(e) => Err(e) }, r.1)
}

impl FromPdf for u8 {
    type Val = u8;

    open spec fn val(self) -> u8 {
        self
    }

    open spec fn spec_parse(s: DeState) -> (Result<u8, Error>, DeState) {
        number_as(spec_parse_unsigned(s, false, u8::MAX as u64), |v: u64| v as u8)
    }

    proof fn lemma_parse_shrinks(s: DeState) {
        lemma_unsigned_shrinks(s, false, u8::MAX as u64);
    }

    open spec fn defined(s: DeState) -> bool {
        true
    }

    fn deserialize(de: &mut Deserializer) -> (r: Result<u8, Error>) {
        match de.parse_unsigned(false, u8::MAX as u64) {
            Ok(v) => Ok(v as u8),
            Err(e) => Err(e),
        }
    }
}

impl FromPdf for u16 {
    type Val = u16;

    open spec fn val(self) -> u16 {
        self
    }

    open spec fn spec_parse(s: DeState) -> (Result<u16, Error>, DeState) {
        number_as(spec_parse_unsigned(s, false, u16::MAX as u64), |v: u64| v as u16)
    }

    proof fn lemma_parse_shrinks(s: DeState) {
        lemma_unsigned_shrinks(s, false, u16::MAX as u64);
    }

    open spec fn defined(s: DeState) -> bool {
        true
    }

    fn deserialize(de: &mut Deserializer) -> (r: Result<u16, Error>) {
        match de.parse_unsigned(false, u16::MAX as u64) {
            Ok(v) => Ok(v as u16),
            Err(e) => Err(e),
        }
    }
}

impl FromPdf for u32 {
    type Val = u32;

    open spec fn val(self) -> u32 {
        self
    }

    open spec fn spec_parse(s: DeState) -> (Result<u32, Error>, DeState) {
        number_as(spec_parse_unsigned(s, false, u32::MAX as u64), |v: u64| v as u32)
    }

    proof fn lemma_parse_shrinks(s: DeState) {
        lemma_unsigned_shrinks(s, false, u32::MAX as u64);
    }

    open spec fn defined(s: DeState) -> bool {
        true
    }

    fn deserialize(de: &mut Deserializer) -> (r: Result<u32, Error>) {
        match de.parse_unsigned(false, u32::MAX as u64) {
            Ok(v) => Ok(v as u32),
            Err(e) => Err(e),
        }
    }
}

impl FromPdf for u64 {
    type Val = u64;

    open spec fn val(self) -> u64 {
        self
    }

    open spec fn spec_parse(s: DeState) -> (Result<u64, Error>, DeState) {
        number_as(spec_parse_unsigned(s, false, u64::MAX as u64), |v: u64| v as u64)
    }

    proof fn lemma_parse_shrinks(s: DeState) {
        lemma_unsigned_shrinks(s, false, u64::MAX as u64);
    }

    open spec fn defined(s: DeState) -> bool {
        true
    }

    fn deserialize(de: &mut Deserializer) -> (r: Result<u64, Error>) {
        match de.parse_unsigned(false, u64::MAX as u64) {
            Ok(v) => Ok(v as u64),
            Err(e) => Err(e),
        }
    }
}

impl FromPdf for i8 {
    type Val = i8;

    open spec fn val(self) -> i8 {
        self
    }

    open spec fn spec_parse(s: DeState) -> (Result<i8, Error>, DeState) {
        number_as(spec_parse_signed(s, false, i8::MAX as u64), |v: i64| v as i8)
    }

    proof fn lemma_parse_shrinks(s: DeState) {
        lemma_signed_shrinks(s, false, i8::MAX as u64);
    }

    open spec fn defined(s: DeState) -> bool {
        true
    }

    fn deserialize(de: &mut Deserializer) -> (r: Result<i8, Error>) {
        match de.parse_signed(false, i8::MAX as u64) {
            Ok(v) => Ok(v as i8),
            Err(e) => Err(e),
        }
    }
}

impl FromPdf for i16 {
    type Val = i16;

    open spec fn val(self) -> i16 {
        self
    }

    open spec fn spec_parse(s: DeState) -> (Result<i16, Error>, DeState) {
        number_as(spec_parse_signed(s, false, i16::MAX as u64), |v: i64| v as i16)
    }

    proof fn lemma_parse_shrinks(s: DeState) {
        lemma_signed_shrinks(s, false, i16::MAX as u64);
    }

    open spec fn defined(s: DeState) -> bool {
        true
    }

    fn deserialize(de: &mut Deserializer) -> (r: Result<i16, Error>) {
        match de.parse_signed(false, i16::MAX as u64) {
            Ok(v) => Ok(v as i16),
            Err(e) => Err(e),
        }
    }
}

impl FromPdf for i32 {
    type Val = i32;

    open spec fn val(self) -> i32 {
        self
    }

    open spec fn spec_parse(s: DeState) -> (Result<i32, Error>, DeState) {
        number_as(spec_parse_signed(s, false, i32::MAX as u64), |v: i64| v as i32)
    }

    proof fn lemma_parse_shrinks(s: DeState) {
        lemma_signed_shrinks(s, false, i32::MAX as u64);
    }

    open spec fn defined(s: DeState) -> bool {
        true
    }

    fn deserialize(de: &mut Deserializer) -> (r: Result<i32, Error>) {
        match de.parse_signed(false, i32::MAX as u64) {
            Ok(v) => Ok(v as i32),
            Err(e) => Err(e),
        }
    }
}

impl FromPdf for i64 {
    type Val = i64;

    open spec fn val(self) -> i64 {
        self
    }

    open spec fn spec_parse(s: DeState) -> (Result<i64, Error>, DeState) {
        number_as(spec_parse_signed(s, false, i64::MAX as u64), |v: i64| v as i64)
    }

    proof fn lemma_parse_shrinks(s: DeState) {
        lemma_signed_shrinks(s, false, i64::MAX as u64);
    }

    open spec fn defined(s: DeState) -> bool {
        true
    }

    fn deserialize(de: &mut Deserializer) -> (r: Result<i64, Error>) {
        match de.parse_signed(false, i64::MAX as u64) {
            Ok(v) => Ok(v as i64),
            Err(e) => Err(e),
        }
    }
}

impl FromPdf for bool {
    type Val = bool;

    open spec fn val(self) -> bool {
        self
    }

    open spec fn spec_parse(s: DeState) -> (Result<bool, Error>, DeState) {
        spec_parse_bool(s)
    }

    proof fn lemma_parse_shrinks(s: DeState) {
        lemma_null_bool_shrink(s);
    }

    open spec fn defined(s: DeState) -> bool {
        true
    }

    fn deserialize(de: &mut Deserializer) -> (r: Result<bool, Error>) {
        de.parse_bool()
    }
}

impl FromPdf for () {
    type Val = ();

    open spec fn val(self) -> () {
        ()
    }

    open spec fn spec_parse(s: DeState) -> (Result<(), Error>, DeState) {
        spec_parse_null(s)
    }

    proof fn lemma_parse_shrinks(s: DeState) {
        lemma_null_bool_shrink(s);
    }

    open spec fn defined(s: DeState) -> bool {
        true
    }

    fn deserialize(de: &mut Deserializer) -> (r: Result<(), Error>) {
        de.parse_null()
    }
}

impl<T: FromPdf> FromPdf for Option<T> {
    type Val = Option<T::Val>;

    open spec fn val(self) -> Option<T::Val> {
        match self {
            Some(x) => Some(x.val()),
            None => None,
        }
    }

    open spec fn spec_parse(s: DeState) -> (Result<Option<T::Val>, Error>, DeState) {
        let (c, s1) = spec_peek(s);
        if c == Some(0x6Eu8) {
            let (r, s2) = spec_parse_null(s1);
            (match r { Ok(()) => Ok(None), Err(e) => Err(e) }, s2)
        } else {
            let (r, s2) = T::spec_parse(s1);
            (match r { Ok(v) => Ok(Some(v)), Err(e) => Err(e) }, s2)
        }
    }

    proof fn lemma_parse_shrinks(s: DeState) {
        let (c, s1) = spec_peek(s);
        lemma_null_bool_shrink(s1);
        T::lemma_parse_shrinks(s1);
    }

    open spec fn defined(s: DeState) -> bool {
        let (c, s1) = spec_peek(s);
        c == Some(0x6Eu8) || T::defined(s1)
    }

    fn deserialize(de: &mut Deserializer) -> (r: Result<Option<T>, Error>) {
        if de.peek_char() == Some(0x6Eu8) {
            match de.parse_null() {
                Ok(()) => Ok(None),
                Err(e) => Err(e),
            }
        } else {
            match T::deserialize(de) {
                Ok(v) => Ok(Some(v)),
                Err(e) => Err(e),
            }
        }
    }
}

/// Reading the elements of an array after `acc`, with `fuel` steps left: an element follows
/// a space, except the first; the elements end before `]`.
pub open spec fn spec_elements<T: FromPdf>(s: DeState, first: bool, acc: Seq<T::Val>, fuel: nat) -> (
    Result<Seq<T::Val>, Error>,
    DeState,
)
    decreases fuel,
{
    if fuel == 0 {
        (Err(Error::Eof), s)
    } else {
        let (c, s1) = spec_peek(s);
        if c == Some(0x5Du8) {
            (Ok(acc), s1)
        } else {
            let (sep, s2) = if first {
                (true, s1)
            } else {
                let (n, t) = spec_next(s1);
                (n == Some(0x20u8), t)
            };
            if !sep {
                (Err(Error::ExpectedArrayComma), s2)
            } else {
                let (r, s3) = T::spec_parse(s2);
                match r {
                    Err(e) => (Err(e), s3),
                    Ok(v) => spec_elements::<T>(s3, false, acc.push(v), (fuel - 1) as nat),
                }
            }
        }
    }
}

/// Reading the elements of an array does not panic.
pub open spec fn elements_defined<T: FromPdf>(s: DeState, first: bool, fuel: nat) -> bool
    decreases fuel,
{
    if fuel == 0 {
        true
    } else {
        let (c, s1) = spec_peek(s);
        if c == Some(0x5Du8) {
            true
        } else {
            let (sep, s2) = if first {
                (true, s1)
            } else {
                let (n, t) = spec_next(s1);
                (n == Some(0x20u8), t)
            };
            if !sep {
                true
            } else {
                &&& T::defined(s2)
                &&& match T::spec_parse(s2).0 {
                    Err(_) => true,
                    Ok(_) => elements_defined::<T>(T::spec_parse(s2).1, false, (fuel - 1) as nat),
                }
            }
        }
    }
}

/// Enough steps to read the elements from `s`: one per byte left, one more for the first
/// element, which may read no byte, and one for the end.
pub open spec fn element_fuel(s: DeState, first: bool) -> nat {
    s.rest.len() + if first { 2nat } else { 1nat }
}

/// After the elements of an array, its closing `]`.
pub open spec fn close_array<T: FromPdf>(r: (Result<Seq<T::Val>, Error>, DeState)) -> (
    Result<Seq<T::Val>, Error>,
    DeState,
) {
    match r.0 {
        Err(e) => (Err(e), r.1),
        Ok(v) => {
            let (n, s4) = spec_next(r.1);
            if n == Some(0x5Du8) {
                (Ok(v), s4)
            } else {
                (Err(Error::ExpectedArrayEnd), s4)
            }
        },
    }
}

impl<T: FromPdf> FromPdf for Vec<T> {
    type Val = Seq<T::Val>;

    open spec fn val(self) -> Seq<T::Val> {
        self@.map_values(|x: T| x.val())
    }

    open spec fn spec_parse(s: DeState) -> (Result<Seq<T::Val>, Error>, DeState) {
        let (c, s1) = spec_peek(s);
        if c == Some(0x5Bu8) {
            let s2 = spec_discard(s1);
            close_array::<T>(spec_elements::<T>(s2, true, Seq::empty(), element_fuel(s2, true)))
        } else {
            (Err(Error::ExpectedArray), s1)
        }
    }

    proof fn lemma_parse_shrinks(s: DeState) {
        let (c, s1) = spec_peek(s);
        if c == Some(0x5Bu8) {
            let s2 = spec_discard(s1);
            lemma_elements_shrink::<T>(s2, true, Seq::empty(), element_fuel(s2, true));
        }
    }

    open spec fn defined(s: DeState) -> bool {
        let (c, s1) = spec_peek(s);
        let s2 = spec_discard(s1);
        c == Some(0x5Bu8) ==> elements_defined::<T>(s2, true, element_fuel(s2, true))
    }

    fn deserialize(de: &mut Deserializer) -> (r: Result<Vec<T>, Error>) {
        if de.peek_char() != Some(0x5Bu8) {
            return Err(Error::ExpectedArray);
        }
        de.discard_char();
        let ghost s2 = de@;
        let mut v: Vec<T> = Vec::new();
        let mut first = true;
        let ghost mut fuel: nat = element_fuel(s2, true);
        assert(v@.map_values(|x: T| x.val()) =~= Seq::<T::Val>::empty());
        assert(Self::spec_parse(old(de)@) == close_array::<T>(
            spec_elements::<T>(s2, true, Seq::empty(), element_fuel(s2, true)),
        ));
        loop
            invariant_except_break
                Self::spec_parse(old(de)@) == close_array::<T>(
                    spec_elements::<T>(s2, true, Seq::empty(), element_fuel(s2, true)),
                ),
                spec_elements::<T>(s2, true, Seq::empty(), element_fuel(s2, true)) == spec_elements::<T>(
                    de@,
                    first,
                    v@.map_values(|x: T| x.val()),
                    fuel,
                ),
                fuel >= element_fuel(de@, first),
                elements_defined::<T>(de@, first, fuel),
            invariant
                de.wf(),
            ensures
                Self::spec_parse(old(de)@) == close_array::<T>(
                    spec_elements::<T>(s2, true, Seq::empty(), element_fuel(s2, true)),
                ),
                spec_elements::<T>(s2, true, Seq::empty(), element_fuel(s2, true)) == (
                    Ok::<Seq<T::Val>, Error>(v@.map_values(|x: T| x.val())),
                    de@,
                ),
            decreases fuel,
        {
            proof {
                Deserializer::lemma_wf_state(*de);
            }
            let ghost before = de@;
            if de.peek_char() == Some(0x5Du8) {
                break;
            }
            if !first {
                if de.next_char() != Some(0x20u8) {
                    assert(spec_elements::<T>(before, first, v@.map_values(|x: T| x.val()), fuel) == (
                        Err::<Seq<T::Val>, Error>(Error::ExpectedArrayComma),
                        de@,
                    ));
                    return Err(Error::ExpectedArrayComma);
                }
            }
            let ghost s_elem = de@;
            proof {
                lemma_peek_shrinks(before);
                lemma_peek_shrinks(spec_peek(before).1);
                T::lemma_parse_shrinks(s_elem);
            }
            match T::deserialize(de) {
                Ok(x) => {
                    let ghost prev = v@;
                    v.push(x);
                    assert(v@.map_values(|x: T| x.val()) =~= prev.map_values(|x: T| x.val()).push(x.val()));
                },
                Err(e) => {
                    assert(spec_elements::<T>(before, first, v@.map_values(|x: T| x.val()), fuel) == (
                        Err::<Seq<T::Val>, Error>(e),
                        de@,
                    ));
                    return Err(e);
                },
            }
            first = false;
            proof {
                fuel = (fuel - 1) as nat;
            }
        }
        if de.next_char() == Some(0x5Du8) {
            Ok(v)
        } else {
            Err(Error::ExpectedArrayEnd)
        }
    }
}

proof fn lemma_elements_shrink<T: FromPdf>(s: DeState, first: bool, acc: Seq<T::Val>, fuel: nat)
    requires
        wf_state(s),
    ensures
        shrinks(s, spec_elements::<T>(s, first, acc, fuel).1),
    decreases fuel,
{
    if fuel > 0 {
        let (c, s1) = spec_peek(s);
        if c != Some(0x5Du8) {
            let (sep, s2) = if first {
                (true, s1)
            } else {
                let (n, t) = spec_next(s1);
                (n == Some(0x20u8), t)
            };
            if sep {
                T::lemma_parse_shrinks(s2);
                let (r, s3) = T::spec_parse(s2);
                if let Ok(v) = r {
                    lemma_elements_shrink::<T>(s3, false, acc.push(v), (fuel - 1) as nat);
                }
            }
        }
    }
}

/// Reading a name never grows the input left.
proof fn lemma_name_chars_shrink(s: DeState, acc: Seq<char>)
    requires
        wf_state(s),
        spec_name_chars(s, acc) is Some,
    ensures
        shrinks(s, spec_name_chars(s, acc)->Some_0.1),
    decreases s.rest.len(),
{
    let (c, s1) = spec_peek(s);
    if let Some(b) = c {
        if b == 0x23 {
            let s2 = spec_discard(s1);
            let (n1, s3) = spec_next(s2);
            let (n2, s4) = spec_next(s3);
            if let (Some(x), Some(y)) = (n1, n2) {
                lemma_name_chars_shrink(s4, acc.push(hex_escape(x, y)->Some_0 as char));
            }
        } else if 0x21 <= b <= 0x7E {
            lemma_name_chars_shrink(spec_discard(s1), acc.push(b as char));
        }
    }
}

/// Reading a literal string never grows the input left.
proof fn lemma_string_body_shrink(s: DeState, depth: nat, acc: Seq<char>)
    requires
        wf_state(s),
        spec_string_body(s, depth, acc) is Some,
    ensures
        shrinks(s, spec_string_body(s, depth, acc)->Some_0.1),
    decreases s.rest.len(),
{
    let (c, s1) = spec_next(s);
    if let Some(b) = c {
        if b == 0x28 {
            lemma_string_body_shrink(s1, depth + 1, acc.push('('));
        } else if b == 0x29 {
            if depth > 0 {
                lemma_string_body_shrink(s1, (depth - 1) as nat, acc.push(')'));
            }
        } else if b == 0x5C {
            let (e, s2) = spec_next(s1);
            if let Some(x) = e {
                match simple_escape(x) {
                    Some(ch) => lemma_string_body_shrink(s2, depth, acc.push(ch)),
                    None => if x == 0x0A {
                        lemma_string_body_shrink(s2, depth, acc);
                    } else if is_digit(x) {
                        let (digits, s3) = spec_octal_tail(s2, seq![x], 2);
                        lemma_octal_tail_shrinks(s2, seq![x], 2);
                        lemma_octal_tail_wf(s2, seq![x], 2);
                        if let Some(code) = octal_value(digits) {
                            lemma_string_body_shrink(s3, depth, acc.push(win1252_char(code)));
                        }
                    },
                }
            }
        } else {
            lemma_string_body_shrink(s1, depth, acc.push(b as char));
        }
    }
}

/// Reading octal digits keeps the state consistent.
proof fn lemma_octal_tail_wf(s: DeState, digits: Seq<u8>, k: nat)
    requires
        wf_state(s),
    ensures
        wf_state(spec_octal_tail(s, digits, k).1),
    decreases k,
{
    if k > 0 {
        let (c, s1) = spec_peek(s);
        if let Some(d) = c {
            if is_digit(d) {
                lemma_octal_tail_wf(spec_next(s1).1, digits.push(d), (k - 1) as nat);
            }
        }
    }
}

/// Reading a string never grows the input left.
proof fn lemma_parse_string_shrinks(s: DeState)
    requires
        wf_state(s),
    ensures
        spec_parse_string(s) is Some ==> shrinks(s, spec_parse_string(s)->Some_0.1),
{
    let (c, s1) = spec_peek(s);
    if spec_parse_string(s) is Some {
        if c == Some(0x2Fu8) {
            let (c2, t1) = spec_peek(s1);
            if c2 == Some(0x2Fu8) {
                lemma_name_chars_shrink(spec_discard(t1), Seq::empty());
            }
        } else if c == Some(0x28u8) {
            lemma_string_body_shrink(spec_discard(s1), 0, Seq::empty());
        }
    }
}

impl FromPdf for String {
    type Val = Seq<char>;

    open spec fn val(self) -> Seq<char> {
        self@
    }

    open spec fn spec_parse(s: DeState) -> (Result<Seq<char>, Error>, DeState) {
        match spec_parse_string(s) {
            Some(r) => r,
            None => (Err(Error::Syntax), s),
        }
    }

    open spec fn defined(s: DeState) -> bool {
        spec_parse_string(s) is Some
    }

    proof fn lemma_parse_shrinks(s: DeState) {
        lemma_parse_string_shrinks(s);
    }

    fn deserialize(de: &mut Deserializer) -> (r: Result<String, Error>) {
        de.parse_string()
    }
}

impl FromPdf for char {
    type Val = char;

    open spec fn val(self) -> char {
        self
    }

    /// A string of a single one-byte character.
    open spec fn spec_parse(s: DeState) -> (Result<char, Error>, DeState) {
        let (r, t) = String::spec_parse(s);
        (
            match r {
                Ok(v) => if utf8_len(v) == 1 {
                    Ok(v[0])
                } else {
                    Err(Error::ExpectedChar)
                },
                Err(e) => Err(e),
            },
            t,
        )
    }

    open spec fn defined(s: DeState) -> bool {
        spec_parse_string(s) is Some
    }

    proof fn lemma_parse_shrinks(s: DeState) {
        lemma_parse_string_shrinks(s);
    }

    fn deserialize(de: &mut Deserializer) -> (r: Result<char, Error>) {
        let s = de.parse_string()?;
        let st = s.as_str();
        let n = st.unicode_len();
        if n != 1 {
            proof {
                lemma_utf8_len_one(s@);
            }
            return Err(Error::ExpectedChar);
        }
        let c = st.get_char(0);
        if char_utf8_width(c) != 1 {
            proof {
                lemma_utf8_len_one(s@);
            }
            return Err(Error::ExpectedChar);
        }
        proof {
            lemma_utf8_len_one(s@);
        }
        Ok(c)
    }
}

/// A text is one byte long in UTF-8 exactly where it is one character of width one.
proof fn lemma_utf8_len_one(cs: Seq<char>)
    ensures
        (utf8_len(cs) == 1) == (cs.len() == 1 && utf8_width(cs[0]) == 1),
    decreases cs.len(),
{
    if cs.len() > 0 {
        lemma_utf8_len_one(cs.drop_last());
        if cs.len() == 1 {
            assert(cs.drop_last().len() == 0);
            assert(cs.last() == cs[0]);
        } else {
            lemma_utf8_len_positive(cs.drop_last());
        }
    }
}

/// A nonempty text has some UTF-8 bytes.
proof fn lemma_utf8_len_positive(cs: Seq<char>)
    requires
        cs.len() > 0,
    ensures
        utf8_len(cs) >= 1,
{
}

/// The number that the decimal digits `d` give after the digits of `v`.
pub open spec fn digits_value(v: int, d: Seq<u8>) -> int
    decreases d.len(),
{
    if d.len() == 0 {
        v
    } else {
        digits_value(v * 10 + (d[0] - 0x30), d.drop_first())
    }
}

/// Reading digits after digits.
proof fn lemma_digits_value_concat(v: int, a: Seq<u8>, b: Seq<u8>)
    ensures
        digits_value(v, a + b) == digits_value(digits_value(v, a), b),
    decreases a.len(),
{
    if a.len() > 0 {
        assert((a + b).drop_first() =~= a.drop_first() + b);
        assert((a + b)[0] == a[0]);
        lemma_digits_value_concat(v * 10 + (a[0] - 0x30), a.drop_first(), b);
    } else {
        assert(a + b =~= b);
    }
}

/// More digits never give less.
proof fn lemma_digits_value_grows(v: int, d: Seq<u8>)
    requires
        v >= 0,
        forall|i: int| 0 <= i < d.len() ==> is_digit(#[trigger] d[i]),
    ensures
        digits_value(v, d) >= v,
    decreases d.len(),
{
    if d.len() > 0 {
        assert(forall|i: int| 0 <= i < d.drop_first().len() ==> d.drop_first()[i] == d[i + 1]);
        assert(is_digit(d[0]));
        lemma_digits_value_grows(v * 10 + (d[0] - 0x30), d.drop_first());
    }
}

/// The decimal digits of `n` give `n`.
proof fn lemma_decimal_value(n: nat)
    ensures
        digits_value(0, decimal(n)) == n,
        forall|i: int| 0 <= i < decimal(n).len() ==> is_digit(#[trigger] decimal(n)[i]),
    decreases n,
{
    lemma_decimal_digits(n);
    if n >= 10 {
        lemma_decimal_value(n / 10);
        let one = seq![(n % 10 + 48) as u8];
        lemma_digits_value_concat(0, decimal(n / 10), one);
        assert(decimal(n) == decimal(n / 10) + one);
        assert(one[0] == (n % 10 + 48) as u8);
        assert(one.drop_first() =~= Seq::<u8>::empty());
        assert(one[0] - 0x30 == n % 10);
        let x: int = ((n / 10) * 10 + (n % 10)) as int;
        assert(digits_value(x, Seq::<u8>::empty()) == x);
        assert(digits_value((n / 10) as int, one) == (n / 10) * 10 + (n % 10));
        assert(n == (n / 10) * 10 + n % 10) by (nonlinear_arith);
    } else {
        let one = seq![(n + 48) as u8];
        assert(one[0] == (n + 48) as u8);
        assert(one.drop_first() =~= Seq::<u8>::empty());
        assert(one[0] - 0x30 == n);
        assert(digits_value(n as int, Seq::<u8>::empty()) == n);
        assert(digits_value(0, one) == n);
    }
}

/// Reading the digits `d`, which end the input, from `val` on.
proof fn lemma_read_digits(s: DeState, d: Seq<u8>, val: u64, max: u64, allow_decimal: bool)
    requires
        s.rest == d,
        wf_state(s),
        forall|i: int| 0 <= i < d.len() ==> is_digit(#[trigger] d[i]),
        digits_value(val as int, d) <= max,
    ensures
        spec_digits(s, val, max, allow_decimal) == (
            Ok::<u64, Error>(digits_value(val as int, d) as u64),
            DeState { rest: Seq::empty(), peeked: false },
        ),
    decreases d.len(),
{
    if d.len() > 0 {
        let (c, s1) = spec_peek(s);
        let b = d[0];
        assert(c == Some(b));
        assert(forall|i: int| 0 <= i < d.drop_first().len() ==> d.drop_first()[i] == d[i + 1]);
        let next = val * 10 + (b - 0x30);
        lemma_digits_value_grows(next, d.drop_first());
        lemma_read_digits(spec_discard(s1), d.drop_first(), next as u64, max, allow_decimal);
    } else {
        assert(d =~= Seq::<u8>::empty());
    }
}

/// Reading the decimal digits of `n` as an unsigned number of at most `max` (the largest value
/// of an integer type) gives `n` where `n` is at most `max`, and reads them all.
pub proof fn law_unsigned_parse(n: u64, max: u64)
    requires
        n <= max,
    ensures
        spec_parse_unsigned(DeState { rest: decimal(n as nat), peeked: false }, false, max) == (
            Ok::<u64, Error>(n),
            DeState { rest: Seq::empty(), peeked: false },
        ),
{
    lemma_decimal_value(n as nat);
    let d = decimal(n as nat);
    let s = DeState { rest: d, peeked: false };
    let (c, s1) = spec_peek(s);
    assert(c == Some(d[0]));
    assert(is_digit(d[0]));
    lemma_read_digits(s1, d, 0, max, false);
}

/// Reading digits `d` that end the input, from `val` on, whose value exceeds `max`, stops at
/// the digit that makes the number exceed it.
proof fn lemma_digits_overflow(s: DeState, d: Seq<u8>, val: u64, max: u64, allow_decimal: bool)
    requires
        s.rest == d,
        wf_state(s),
        forall|i: int| 0 <= i < d.len() ==> is_digit(#[trigger] d[i]),
        val <= max,
        digits_value(val as int, d) > max,
    ensures
        spec_digits(s, val, max, allow_decimal).0 == Err::<u64, Error>(Error::NumberOverflow),
    decreases d.len(),
{
    if d.len() > 0 {
        let (c, s1) = spec_peek(s);
        let b = d[0];
        assert(c == Some(b));
        assert(forall|i: int| 0 <= i < d.drop_first().len() ==> d.drop_first()[i] == d[i + 1]);
        let next = val * 10 + (b - 0x30);
        if !(val * 10 > max || next > max) {
            lemma_digits_overflow(spec_discard(s1), d.drop_first(), next as u64, max, allow_decimal);
        }
    } else {
        assert(digits_value(val as int, d) == val);
    }
}

/// Reading an unsigned number of at most `max` (the largest value of an integer type) from a
/// `+` or not, then any decimal digits, leading zeros among them, that end the input: their
/// value where it is at most `max`, with the whole input read; else `NumberOverflow`.
pub proof fn law_unsigned_digits(plus: bool, d: Seq<u8>, max: u64)
    requires
        d.len() > 0,
        forall|i: int| 0 <= i < d.len() ==> is_digit(#[trigger] d[i]),
    ensures
        ({
            let input = if plus { seq![0x2Bu8] + d } else { d };
            let (r, rest) = spec_parse_unsigned(DeState { rest: input, peeked: false }, false, max);
            if digits_value(0, d) <= max {
                r == Ok::<u64, Error>(digits_value(0, d) as u64) && rest == DeState { rest: Seq::empty(), peeked: false }
            } else {
                r == Err::<u64, Error>(Error::NumberOverflow)
            }
        }),
{
    let input = if plus { seq![0x2Bu8] + d } else { d };
    let s = DeState { rest: input, peeked: false };
    let (c, s1) = spec_peek(s);
    if plus {
        assert(c == Some(0x2Bu8));
        assert(spec_discard(s1).rest =~= d);
    } else {
        assert(c == Some(d[0]));
        assert(is_digit(d[0]));
    }
    let s2 = if c == Some(0x2Bu8) { spec_discard(s1) } else { s1 };
    assert(s2.rest == d);
    let (e, s3) = spec_peek(s2);
    assert(e == Some(d[0]));
    assert(is_digit(d[0]));
    if digits_value(0, d) <= max {
        lemma_read_digits(s3, d, 0, max, false);
    } else {
        lemma_digits_overflow(s3, d, 0, max, false);
    }
}

/// Reading back a written `u8`, `u16` or `u32` gives the number: its decimal digits, as the
/// whole input, read as that type, give it.
pub proof fn law_small_unsigned_round_trip(a: u8, b: u16, c: u32)
    ensures
        spec_from_str::<u8>(decimal(a as nat)) == Ok::<u8, Error>(a),
        spec_from_str::<u16>(decimal(b as nat)) == Ok::<u16, Error>(b),
        spec_from_str::<u32>(decimal(c as nat)) == Ok::<u32, Error>(c),
{
    law_unsigned_parse(a as u64, u8::MAX as u64);
    law_unsigned_parse(b as u64, u16::MAX as u64);
    law_unsigned_parse(c as u64, u32::MAX as u64);
}

/// Reading back a written unsigned number gives the number: the decimal digits of `n`, as the
/// whole input, read as a `u64`, give `n`.
pub proof fn law_u64_round_trip(n: u64)
    ensures
        spec_from_str::<u64>(decimal(n as nat)) == Ok::<u64, Error>(n),
{
    lemma_decimal_value(n as nat);
    let d = decimal(n as nat);
    let s = DeState { rest: d, peeked: false };
    let (c, s1) = spec_peek(s);
    assert(c == Some(d[0]));
    assert(is_digit(d[0]));
    lemma_read_digits(s1, d, 0, u64::MAX as u64, false);
}

/// Reading back a written signed number gives the number: its decimal digits after a minus
/// sign where it is negative, as the whole input, read as an `i64`, give it; except the
/// smallest `i64`, whose digits exceed the largest one.
pub proof fn law_i64_round_trip(v: i64)
    requires
        v != i64::MIN,
    ensures
        spec_from_str::<i64>(signed_decimal(v as int)) == Ok::<i64, Error>(v),
{
    let m: nat = if v < 0 { (-v) as nat } else { v as nat };
    lemma_decimal_value(m);
    let d = decimal(m);
    let bytes = signed_decimal(v as int);
    let s = DeState { rest: bytes, peeked: false };
    let (c, s1) = spec_peek(s);
    if v < 0 {
        assert(bytes == seq![0x2Du8] + d);
        assert(c == Some(0x2Du8));
        let s2 = spec_discard(s1);
        assert(s2.rest =~= d);
        let (c2, t1) = spec_peek(s2);
        assert(c2 == Some(d[0]));
        assert(is_digit(d[0]));
        lemma_read_digits(t1, d, 0, i64::MAX as u64, false);
    } else {
        assert(bytes == d);
        assert(c == Some(d[0]));
        assert(is_digit(d[0]));
        lemma_read_digits(s1, d, 0, i64::MAX as u64, false);
    }
}

/// What reading a whole input of type `T` gives: the value, where nothing follows it but at
/// most the one byte looked at.
pub open spec fn spec_from_str<T: FromPdf>(bytes: Seq<u8>) -> Result<T::Val, Error> {
    let (r, s) = T::spec_parse(DeState { rest: bytes, peeked: false });
    match r {
        Err(e) => Err(e),
        Ok(v) => if s.rest.len() == (if s.peeked { 1nat } else { 0nat }) {
            Ok(v)
        } else {
            Err(Error::TrailingCharacters)
        },
    }
}

/// Reads a value of type `T` from the whole of `s`.
pub fn from_str<T: FromPdf>(s: &str) -> (r: Result<T, Error>)
    requires
        T::defined(DeState { rest: s.spec_bytes(), peeked: false }),
    ensures
        match (r, spec_from_str::<T>(s.spec_bytes())) {
            (Ok(x), Ok(v)) => x.val() == v,
            (Err(e), Err(f)) => e == f,
            _ => false,
        },
{
    let bytes = s.as_bytes();
    let mut de = Deserializer::new(bytes);
    proof {
        assert(de.wf());
    }
    let t = match T::deserialize(&mut de) {
        Ok(t) => t,
        Err(e) => return Err(e),
    };
    proof {
        de.lemma_input_done();
    }
    if de.is_input_done() {
        Ok(t)
    } else {
        Err(Error::TrailingCharacters)
    }
}

} // verus!

verus! {

/// The state of a reader before the bytes `rest`, nothing looked at.
pub open spec fn fresh(rest: Seq<u8>) -> DeState {
    DeState { rest: rest, peeked: false }
}

/// A literal string's escapes: after a backslash, `n`, `r`, `t`, `b` and `f` stand for the
/// line feed (U+000A), the carriage return (U+000D), the tab (U+0009), the backspace (U+0008)
/// and the form feed (U+000C); `(`, `)` and `\` for themselves; a line feed for nothing (the
/// line continues). Reading then goes on after the escape with the character read.
pub proof fn law_literal_escapes(r: Seq<u8>, depth: nat, acc: Seq<char>)
    ensures
        spec_string_body(fresh(seq![0x5Cu8, 0x6Eu8] + r), depth, acc) == spec_string_body(fresh(r), depth, acc.push('\u{000A}')),
        spec_string_body(fresh(seq![0x5Cu8, 0x72u8] + r), depth, acc) == spec_string_body(fresh(r), depth, acc.push('\u{000D}')),
        spec_string_body(fresh(seq![0x5Cu8, 0x74u8] + r), depth, acc) == spec_string_body(fresh(r), depth, acc.push('\u{0009}')),
        spec_string_body(fresh(seq![0x5Cu8, 0x62u8] + r), depth, acc) == spec_string_body(fresh(r), depth, acc.push('\u{0008}')),
        spec_string_body(fresh(seq![0x5Cu8, 0x66u8] + r), depth, acc) == spec_string_body(fresh(r), depth, acc.push('\u{000C}')),
        spec_string_body(fresh(seq![0x5Cu8, 0x28u8] + r), depth, acc) == spec_string_body(fresh(r), depth, acc.push('\u{0028}')),
        spec_string_body(fresh(seq![0x5Cu8, 0x29u8] + r), depth, acc) == spec_string_body(fresh(r), depth, acc.push('\u{0029}')),
        spec_string_body(fresh(seq![0x5Cu8, 0x5Cu8] + r), depth, acc) == spec_string_body(fresh(r), depth, acc.push('\u{005C}')),
        spec_string_body(fresh(seq![0x5Cu8, 0x0Au8] + r), depth, acc) == spec_string_body(fresh(r), depth, acc),
{
    let xs: Seq<u8> = seq![0x6Eu8, 0x72u8, 0x74u8, 0x62u8, 0x66u8, 0x28u8, 0x29u8, 0x5Cu8, 0x0Au8];
    assert forall|i: int| 0 <= i < xs.len() implies (seq![0x5Cu8, #[trigger] xs[i]] + r).drop_first().drop_first() == r
        && (seq![0x5Cu8, xs[i]] + r)[0] == 0x5Cu8 && (seq![0x5Cu8, xs[i]] + r).drop_first()[0] == xs[i] by {
        assert((seq![0x5Cu8, xs[i]] + r).drop_first().drop_first() =~= r);
    }
    assert(xs[0] == 0x6Eu8);
    assert(xs[1] == 0x72u8);
    assert(xs[2] == 0x74u8);
    assert(xs[3] == 0x62u8);
    assert(xs[4] == 0x66u8);
    assert(xs[5] == 0x28u8);
    assert(xs[6] == 0x29u8);
    assert(xs[7] == 0x5Cu8);
    assert(xs[8] == 0x0Au8);
}

/// In a literal string, a byte other than `(`, `)` and `\` stands for the character with its
/// number; `(` opens a nested pair, which stands for itself; `)` closes one, or, where none is
/// open, ends the string with the characters read, the reader after the `)`.
pub proof fn law_literal_plain(b: u8, r: Seq<u8>, depth: nat, acc: Seq<char>)
    ensures
        b != 0x28 && b != 0x29 && b != 0x5C ==> spec_string_body(fresh(seq![b] + r), depth, acc) == spec_string_body(
            fresh(r),
            depth,
            acc.push(b as char),
        ),
        depth < MAX_NESTING ==> spec_string_body(fresh(seq![0x28u8] + r), depth, acc) == spec_string_body(
            fresh(r),
            depth + 1,
            acc.push('\u{0028}'),
        ),
        depth > 0 ==> spec_string_body(fresh(seq![0x29u8] + r), depth, acc) == spec_string_body(
            fresh(r),
            (depth - 1) as nat,
            acc.push('\u{0029}'),
        ),
        spec_string_body(fresh(seq![0x29u8] + r), 0, acc) == Some(
            (Ok::<Seq<char>, Error>(acc), fresh(r)),
        ),
        spec_string_body(fresh(Seq::empty()), depth, acc) == Some(
            (Err::<Seq<char>, Error>(Error::Eof), fresh(Seq::empty())),
        ),
{
    assert((seq![b] + r).drop_first() =~= r);
    assert((seq![0x28u8] + r).drop_first() =~= r);
    assert((seq![0x29u8] + r).drop_first() =~= r);
}

/// A literal string's three-digit octal escape of a code below 128 stands for the character
/// with that code: a backslash, then the digits `a`, `b`, `c` from 0 to 7, give the character
/// numbered 64 a + 8 b + c.
pub proof fn law_literal_octal_escape(a: u8, b: u8, c: u8, r: Seq<u8>, depth: nat, acc: Seq<char>)
    requires
        0x30 <= a <= 0x37,
        0x30 <= b <= 0x37,
        0x30 <= c <= 0x37,
        (a - 0x30) * 64 + (b - 0x30) * 8 + (c - 0x30) < 128,
    ensures
        spec_string_body(fresh(seq![0x5Cu8, a, b, c] + r), depth, acc) == spec_string_body(
            fresh(r),
            depth,
            acc.push((((a - 0x30) * 64 + (b - 0x30) * 8 + (c - 0x30)) as u32) as char),
        ),
{
    let x = seq![0x5Cu8, a, b, c] + r;
    assert(x.drop_first() =~= seq![a, b, c] + r);
    assert(x.drop_first().drop_first() =~= seq![b, c] + r);
    assert(x.drop_first().drop_first().drop_first() =~= seq![c] + r);
    assert(x.drop_first().drop_first().drop_first().drop_first() =~= r);
    let s2 = fresh(seq![b, c] + r);
    let (digits, s3) = spec_octal_tail(s2, seq![a], 2);
    reveal_with_fuel(spec_octal_tail, 3);
    assert(digits =~= seq![a, b, c]);
    assert(s3 == fresh(r));
    reveal_with_fuel(octal_value, 4);
    assert(seq![a, b, c].drop_last() =~= seq![a, b]);
    assert(seq![a, b].drop_last() =~= seq![a]);
    assert(seq![a].drop_last() =~= Seq::<u8>::empty());
    lemma_octal_tail_shrinks(s2, seq![a], 2);
}

/// A literal string begins with `(`; what follows is read as its body, outside any nested
/// pair, with no character read yet.
pub proof fn law_literal_start(r: Seq<u8>)
    ensures
        spec_parse_string(fresh(seq![0x28u8] + r)) == spec_string_body(fresh(r), 0, Seq::empty()),
{
    assert((seq![0x28u8] + r).drop_first() =~= r);
}

} // verus!

verus! {

/// The value of a hexadecimal digit `0`-`9`, `A`-`F` or `a`-`f`.
pub open spec fn name_hex_digit(b: u8) -> int {
    if 0x30 <= b <= 0x39 {
        b - 0x30
    } else if 0x41 <= b <= 0x46 {
        b - 0x41 + 10
    } else {
        b - 0x61 + 10
    }
}

/// The byte is a hexadecimal digit `0`-`9`, `A`-`F` or `a`-`f`.
pub open spec fn is_name_hex_digit(b: u8) -> bool {
    (0x30 <= b <= 0x39) || (0x41 <= b <= 0x46) || (0x61 <= b <= 0x66)
}

/// A name's characters: `#` and two hexadecimal digits stand for the character with the number
/// they give in base 16; any other byte from `!` to `~` stands for itself; any other byte, or
/// the end, ends the name with the characters read (the byte is looked at, not taken).
pub proof fn law_name_chars(b: u8, h1: u8, h2: u8, r: Seq<u8>, acc: Seq<char>)
    ensures
        is_name_hex_digit(h1) && is_name_hex_digit(h2) ==> spec_name_chars(fresh(seq![0x23u8, h1, h2] + r), acc)
            == spec_name_chars(fresh(r), acc.push(((name_hex_digit(h1) * 16 + name_hex_digit(h2)) as u32) as char)),
        0x21 <= b <= 0x7E && b != 0x23 ==> spec_name_chars(fresh(seq![b] + r), acc) == spec_name_chars(
            fresh(r),
            acc.push(b as char),
        ),
        !(0x21 <= b <= 0x7E) ==> spec_name_chars(fresh(seq![b] + r), acc) == Some(
            (Ok::<Seq<char>, Error>(acc), DeState { rest: seq![b] + r, peeked: true }),
        ),
        spec_name_chars(fresh(Seq::empty()), acc) == Some((Ok::<Seq<char>, Error>(acc), fresh(Seq::empty()))),
{
    let x = seq![0x23u8, h1, h2] + r;
    assert(x.drop_first() =~= seq![h1, h2] + r);
    assert(x.drop_first().drop_first() =~= seq![h2] + r);
    assert(x.drop_first().drop_first().drop_first() =~= r);
    assert((seq![b] + r).drop_first() =~= r);
}

/// A name begins with `/`; what follows is read as its characters, none read yet; a string
/// that begins with `/` is such a name.
pub proof fn law_name_start(r: Seq<u8>)
    ensures
        spec_parse_name(fresh(seq![0x2Fu8] + r)) == spec_name_chars(fresh(r), Seq::empty()),
        spec_parse_string(fresh(seq![0x2Fu8] + r)) == spec_name_chars(fresh(r), Seq::empty()),
{
    assert((seq![0x2Fu8] + r).drop_first() =~= r);
}

/// `true` reads as true and `false` as false, `null` as null, whatever follows them, which is
/// left to read.
pub proof fn law_keywords(r: Seq<u8>)
    ensures
        spec_parse_bool(fresh(seq![0x74u8, 0x72u8, 0x75u8, 0x65u8] + r)) == (Ok::<bool, Error>(true), fresh(r)),
        spec_parse_bool(fresh(seq![0x66u8, 0x61u8, 0x6Cu8, 0x73u8, 0x65u8] + r)) == (
            Ok::<bool, Error>(false),
            fresh(r),
        ),
        spec_parse_null(fresh(seq![0x6Eu8, 0x75u8, 0x6Cu8, 0x6Cu8] + r)) == (Ok::<(), Error>(()), fresh(r)),
{
    let t = seq![0x74u8, 0x72u8, 0x75u8, 0x65u8] + r;
    assert(t.drop_first() =~= seq![0x72u8, 0x75u8, 0x65u8] + r);
    assert(t.drop_first().drop_first() =~= seq![0x75u8, 0x65u8] + r);
    assert(t.drop_first().drop_first().drop_first() =~= seq![0x65u8] + r);
    assert(t.drop_first().drop_first().drop_first().drop_first() =~= r);
    assert(seq![0x72u8, 0x75u8, 0x65u8].drop_first() =~= seq![0x75u8, 0x65u8]);
    assert(seq![0x75u8, 0x65u8].drop_first() =~= seq![0x65u8]);
    assert(seq![0x65u8].drop_first() =~= Seq::<u8>::empty());
    let f = seq![0x66u8, 0x61u8, 0x6Cu8, 0x73u8, 0x65u8] + r;
    assert(f.drop_first() =~= seq![0x61u8, 0x6Cu8, 0x73u8, 0x65u8] + r);
    assert(f.drop_first().drop_first() =~= seq![0x6Cu8, 0x73u8, 0x65u8] + r);
    assert(f.drop_first().drop_first().drop_first() =~= seq![0x73u8, 0x65u8] + r);
    assert(f.drop_first().drop_first().drop_first().drop_first() =~= seq![0x65u8] + r);
    assert(f.drop_first().drop_first().drop_first().drop_first().drop_first() =~= r);
    assert(seq![0x61u8, 0x6Cu8, 0x73u8, 0x65u8].drop_first() =~= seq![0x6Cu8, 0x73u8, 0x65u8]);
    assert(seq![0x6Cu8, 0x73u8, 0x65u8].drop_first() =~= seq![0x73u8, 0x65u8]);
    assert(seq![0x73u8, 0x65u8].drop_first() =~= seq![0x65u8]);
    let n = seq![0x6Eu8, 0x75u8, 0x6Cu8, 0x6Cu8] + r;
    assert(n.drop_first() =~= seq![0x75u8, 0x6Cu8, 0x6Cu8] + r);
    assert(n.drop_first().drop_first() =~= seq![0x6Cu8, 0x6Cu8] + r);
    assert(n.drop_first().drop_first().drop_first() =~= seq![0x6Cu8] + r);
    assert(n.drop_first().drop_first().drop_first().drop_first() =~= r);
    assert(seq![0x75u8, 0x6Cu8, 0x6Cu8].drop_first() =~= seq![0x6Cu8, 0x6Cu8]);
    assert(seq![0x6Cu8, 0x6Cu8].drop_first() =~= seq![0x6Cu8]);
    assert(seq![0x6Cu8].drop_first() =~= Seq::<u8>::empty());
    reveal_with_fuel(spec_parse_ident, 5);
}

} // verus!

verus! {

/// A minus sign before decimal digits that end the input reads as the negated value of the
/// digits, where it is at most `max`, and as `NumberOverflow` where it is larger.
pub proof fn law_negative_digits(d: Seq<u8>, max: u64)
    requires
        d.len() > 0,
        forall|i: int| 0 <= i < d.len() ==> is_digit(#[trigger] d[i]),
        max <= i64::MAX,
    ensures
        ({
            let r = spec_parse_signed(fresh(seq![0x2Du8] + d), false, max).0;
            if digits_value(0, d) <= max {
                r == Ok::<i64, Error>((-digits_value(0, d)) as i64)
            } else {
                r == Err::<i64, Error>(Error::NumberOverflow)
            }
        }),
{
    assert((seq![0x2Du8] + d).drop_first() =~= d);
    law_unsigned_digits(false, d, max);
    lemma_digits_value_grows(0, d);
    assert(spec_discard(spec_peek(fresh(seq![0x2Du8] + d)).1) == fresh(d));
}

} // verus!

verus! {

/// Zeros in front of digits do not change their value.
proof fn lemma_zeros_value(k: nat)
    ensures
        digits_value(0, Seq::new(k, |i: int| 48u8)) == 0,
    decreases k,
{
    if k > 0 {
        let z = Seq::new(k, |i: int| 48u8);
        assert(z.drop_first() =~= Seq::new((k - 1) as nat, |i: int| 48u8));
        lemma_zeros_value((k - 1) as nat);
    }
}

/// The decimal digits of `n` with zeros in front to `width` digits are digits, and read in base
/// 10 they give `n`.
pub proof fn law_zero_padded_value(n: nat, width: nat)
    ensures
        digits_value(0, zero_padded(decimal(n), width)) == n,
        forall|i: int| 0 <= i < zero_padded(decimal(n), width).len() ==> 0x30 <= #[trigger] zero_padded(decimal(n), width)[i] <= 0x39,
        zero_padded(decimal(n), width).len() == if decimal(n).len() >= width { decimal(n).len() } else { width },
{
    lemma_decimal_value(n);
    lemma_decimal_digits(n);
    if decimal(n).len() < width {
        let z = Seq::new((width - decimal(n).len()) as nat, |i: int| 48u8);
        lemma_zeros_value((width - decimal(n).len()) as nat);
        lemma_digits_value_concat(0, z, decimal(n));
        let p = zero_padded(decimal(n), width);
        assert forall|i: int| 0 <= i < p.len() implies 0x30 <= #[trigger] p[i] <= 0x39 by {
            if i >= z.len() {
                assert(p[i] == decimal(n)[i - z.len()]);
            }
        }
    }
}

} // verus!

verus! {

/// A dictionary opens with the two bytes `<<` and closes with `>>`: reading the opening
/// succeeds exactly where the first two bytes are `<<`, the closing exactly where they are
/// `>>`, and both take the two bytes.
pub proof fn law_dictionary_brackets(a: u8, b: u8, r: Seq<u8>)
    ensures
        spec_begin_map(fresh(seq![a, b] + r)).0 is Ok <==> (a == 0x3C && b == 0x3C),
        spec_end_map(fresh(seq![a, b] + r)).0 is Ok <==> (a == 0x3E && b == 0x3E),
        spec_end_map(fresh(seq![a, b] + r)).1 == fresh(r),
{
    assert((seq![a, b] + r).drop_first() =~= seq![b] + r);
    assert((seq![a, b] + r).drop_first().drop_first() =~= r);
}

/// White space in the sense of PDF is the bytes 0, 9, 10, 12, 13 and 32: skipping white space
/// before a byte that is none of them finds some exactly where the first byte is one of them.
pub proof fn law_whitespace(b: u8, r: Seq<u8>)
    ensures
        !(b == 0x00 || b == 0x09 || b == 0x0A || b == 0x0C || b == 0x0D || b == 0x20) ==> spec_discard_whitespace(
            fresh(seq![b] + r),
        ).0 == false,
        (b == 0x00 || b == 0x09 || b == 0x0A || b == 0x0C || b == 0x0D || b == 0x20) ==> spec_discard_whitespace(
            fresh(seq![b] + r),
        ) == (true, spec_discard_whitespace(fresh(r)).1),
{
    assert((seq![b] + r).drop_first() =~= r);
}

/// The first byte of a value tells its kind: `n` null, `t` and `f` a boolean, `(` and `/` a
/// string, a digit or `+` an unsigned number, `-` a signed one, `.` a real one, `[` an array,
/// `<` a dictionary; any other byte, or none, is a syntax error.
pub proof fn law_value_kinds(b: u8)
    ensures
        spec_kind(Some(b)) == if b == 0x6E {
            Ok::<ValueKind, Error>(ValueKind::Null)
        } else if b == 0x74 || b == 0x66 {
            Ok(ValueKind::Bool)
        } else if b == 0x28 || b == 0x2F {
            Ok(ValueKind::Str)
        } else if 0x30 <= b <= 0x39 || b == 0x2B {
            Ok(ValueKind::Unsigned)
        } else if b == 0x2D {
            Ok(ValueKind::Signed)
        } else if b == 0x2E {
            Ok(ValueKind::Float)
        } else if b == 0x5B {
            Ok(ValueKind::Array)
        } else if b == 0x3C {
            Ok(ValueKind::Dictionary)
        } else {
            Err(Error::Syntax)
        },
        spec_kind(None) == Err::<ValueKind, Error>(Error::Syntax),
{
}

} // verus!
