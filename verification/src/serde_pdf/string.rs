//! Text as PDF strings: hexadecimal strings and literal strings.
use vstd::prelude::*;
use vstd::string::{StrSliceExecFns, StringSliceAdditionalSpecFns};
use crate::serde_pdf::ser::Serializer;
use crate::unicode::string_from_chars;

verus! {

/// A string to be written as a PDF hexadecimal or literal string.
pub enum PdfString {
    Hex(String),
    Literal(String),
}

/// A borrowed string to be written as a PDF hexadecimal or literal string.
pub enum PdfStr<'a> {
    Hex(&'a str),
    Literal(&'a str),
}

/// An uppercase hexadecimal digit.
pub open spec fn hex_upper(v: int) -> char {
    if v < 10 {
        (v + 0x30) as char
    } else {
        (v + 0x37) as char
    }
}

/// The hexadecimal digits of the bytes, each taken less 31.
pub open spec fn hex_chars(b: Seq<u8>) -> Seq<char>
    decreases b.len(),
{
    if b.len() == 0 {
        Seq::empty()
    } else {
        let d = b.last() - 31;
        hex_chars(b.drop_last()) + seq![hex_upper(d / 16), hex_upper(d % 16)]
    }
}

/// A hexadecimal string: `<`, the digits, `>`.
pub open spec fn spec_to_hex(b: Seq<u8>) -> Seq<char> {
    seq!['<'] + hex_chars(b) + seq!['>']
}

/// The Windows-1252 code of a character outside ASCII, where the code page differs from
/// Latin-1 in it.
pub open spec fn win1252_code(c: char) -> Option<u32> {
    if c == '\u{20ac}' { Some(128) }
    else if c == '\u{201a}' { Some(130) }
    else if c == '\u{0192}' { Some(131) }
    else if c == '\u{201e}' { Some(132) }
    else if c == '\u{2026}' { Some(133) }
    else if c == '\u{2020}' { Some(134) }
    else if c == '\u{2021}' { Some(135) }
    else if c == '\u{02c6}' { Some(136) }
    else if c == '\u{2030}' { Some(137) }
    else if c == '\u{0160}' { Some(138) }
    else if c == '\u{2039}' { Some(139) }
    else if c == '\u{0152}' { Some(140) }
    else if c == '\u{017d}' { Some(142) }
    else if c == '\u{2018}' { Some(145) }
    else if c == '\u{2019}' { Some(146) }
    else if c == '\u{201c}' { Some(147) }
    else if c == '\u{201d}' { Some(148) }
    else if c == '\u{2022}' { Some(149) }
    else if c == '\u{2013}' { Some(150) }
    else if c == '\u{2014}' { Some(151) }
    else if c == '\u{02dc}' { Some(152) }
    else if c == '\u{2122}' { Some(153) }
    else if c == '\u{0161}' { Some(154) }
    else if c == '\u{203a}' { Some(155) }
    else if c == '\u{0153}' { Some(156) }
    else if c == '\u{017e}' { Some(158) }
    else if c == '\u{0178}' { Some(159) }
    else { None }
}

/// The octal digits of a code from 64 to 511.
pub open spec fn octal3(d: u32) -> Seq<char> {
    seq![((d / 64) + 0x30) as char, ((d / 8) % 8 + 0x30) as char, (d % 8 + 0x30) as char]
}

/// How a character is written inside a literal string: `\`, `(` and `)` after a backslash;
/// a character outside ASCII that Windows-1252 codes differently from Latin-1 as a
/// backslash and the octal code; anything else as itself.
pub open spec fn literal_char(c: char) -> Seq<char> {
    if c == '\\' || c == '(' || c == ')' {
        seq!['\\', c]
    } else if (c as u32) >= 128 && win1252_code(c) is Some {
        seq!['\\'] + octal3(win1252_code(c)->Some_0)
    } else {
        seq![c]
    }
}

/// The characters of a literal string, without its parentheses.
pub open spec fn literal_chars(cs: Seq<char>) -> Seq<char>
    decreases cs.len(),
{
    if cs.len() == 0 {
        Seq::empty()
    } else {
        literal_chars(cs.drop_last()) + literal_char(cs.last())
    }
}

/// A literal string: `(`, the characters, `)`.
pub open spec fn spec_to_literal(cs: Seq<char>) -> Seq<char> {
    seq!['('] + literal_chars(cs) + seq![')']
}

/// No byte is below 31, which the hexadecimal form subtracts.
pub open spec fn hex_encodable(b: Seq<u8>) -> bool {
    forall|i: int| 0 <= i < b.len() ==> #[trigger] b[i] >= 31
}

/// Writes the bytes of `s` as a hexadecimal string, each byte less 31.
pub fn to_hex(s: &str) -> (r: String)
    requires
        hex_encodable(s.spec_bytes()),
    ensures
        r@ == spec_to_hex(s.spec_bytes()),
{
    let b = s.as_bytes();
    let mut out: Vec<char> = Vec::new();
    out.push('<');
    let mut i: usize = 0;
    while i < b.len()
        invariant
            i <= b@.len(),
            b@ == s.spec_bytes(),
            forall|j: int| 0 <= j < b@.len() ==> #[trigger] b@[j] >= 31,
            out@ == seq!['<'] + hex_chars(b@.take(i as int)),
        decreases b@.len() - i,
    {
        let ch = b[i] - 31;
        out.push(hex_from_digit(ch / 16));
        out.push(hex_from_digit(ch % 16));
        proof {
            assert(b@.take(i + 1).drop_last() =~= b@.take(i as int));
            assert(out@ =~= seq!['<'] + hex_chars(b@.take(i + 1)));
        }
        i = i + 1;
    }
    out.push('>');
    assert(b@.take(i as int) =~= b@);
    string_from_chars(&out)
}

/// An uppercase hexadecimal digit.
fn hex_from_digit(num: u8) -> (r: char)
    requires
        num < 16,
    ensures
        r == hex_upper(num as int),
{
    if num < 10 {
        (0x30 + num) as char
    } else {
        (0x37 + num) as char
    }
}

/// The Windows-1252 code of a character outside ASCII, where the code page differs from
/// Latin-1 in it.
fn unicode_to_win1252(c: char) -> (r: Option<u32>)
    ensures
        r == win1252_code(c),
{
    if c == '\u{20ac}' { Some(128) }
    else if c == '\u{201a}' { Some(130) }
    else if c == '\u{0192}' { Some(131) }
    else if c == '\u{201e}' { Some(132) }
    else if c == '\u{2026}' { Some(133) }
    else if c == '\u{2020}' { Some(134) }
    else if c == '\u{2021}' { Some(135) }
    else if c == '\u{02c6}' { Some(136) }
    else if c == '\u{2030}' { Some(137) }
    else if c == '\u{0160}' { Some(138) }
    else if c == '\u{2039}' { Some(139) }
    else if c == '\u{0152}' { Some(140) }
    else if c == '\u{017d}' { Some(142) }
    else if c == '\u{2018}' { Some(145) }
    else if c == '\u{2019}' { Some(146) }
    else if c == '\u{201c}' { Some(147) }
    else if c == '\u{201d}' { Some(148) }
    else if c == '\u{2022}' { Some(149) }
    else if c == '\u{2013}' { Some(150) }
    else if c == '\u{2014}' { Some(151) }
    else if c == '\u{02dc}' { Some(152) }
    else if c == '\u{2122}' { Some(153) }
    else if c == '\u{0161}' { Some(154) }
    else if c == '\u{203a}' { Some(155) }
    else if c == '\u{0153}' { Some(156) }
    else if c == '\u{017e}' { Some(158) }
    else if c == '\u{0178}' { Some(159) }
    else { None }
}

/// Writes `s` as a literal string.
pub fn to_literal(s: &str) -> (r: String)
    ensures
        r@ == spec_to_literal(s@),
{
    let n = s.unicode_len();
    let mut out: Vec<char> = Vec::new();
    out.push('(');
    let mut i: usize = 0;
    while i < n
        invariant
            i <= n,
            n == s@.len(),
            out@ == seq!['('] + literal_chars(s@.take(i as int)),
        decreases n - i,
    {
        let c = s.get_char(i);
        let ghost before = out@;
        if c == '\\' || c == '(' || c == ')' {
            out.push('\\');
            out.push(c);
        } else if (c as u32) >= 128 {
            match unicode_to_win1252(c) {
                Some(d) => {
                    out.push('\\');
                    out.push(((d / 64) as u8 + 0x30) as char);
                    out.push((((d / 8) % 8) as u8 + 0x30) as char);
                    out.push(((d % 8) as u8 + 0x30) as char);
                },
                None => {
                    out.push(c);
                },
            }
        } else {
            out.push(c);
        }
        proof {
            assert(s@.take(i + 1).drop_last() =~= s@.take(i as int));
            assert(s@.take(i + 1).last() == c);
            assert(out@ =~= before + literal_char(c));
        }
        i = i + 1;
    }
    out.push(')');
    assert(s@.take(i as int) =~= s@);
    string_from_chars(&out)
}

impl PdfString {
    /// The string in PDF syntax.
    pub fn to_pdf(&self) -> (r: String)
        requires
            self is Hex ==> hex_encodable(vstd::utf8::encode_utf8(self->Hex_0@)),
        ensures
            match self {
                PdfString::Hex(s) => r@ == spec_to_hex(vstd::utf8::encode_utf8(s@)),
                PdfString::Literal(s) => r@ == spec_to_literal(s@),
            },
    {
        match self {
            PdfString::Hex(s) => {
                let st = s.as_str();
                assert(st.spec_bytes() == vstd::utf8::encode_utf8(s@));
                to_hex(st)
            },
            PdfString::Literal(s) => to_literal(s.as_str()),
        }
    }

    /// Writes the string in PDF syntax, as it is.
    pub fn serialize(&self, ser: &mut Serializer)
        requires
            self is Hex ==> hex_encodable(vstd::utf8::encode_utf8(self->Hex_0@)),
        ensures
            final(ser).depth() == old(ser).depth(),
            final(ser).bytes() == old(ser).bytes() + vstd::utf8::encode_utf8(
                match self {
                    PdfString::Hex(s) => spec_to_hex(vstd::utf8::encode_utf8(s@)),
                    PdfString::Literal(s) => spec_to_literal(s@),
                },
            ),
    {
        let s = self.to_pdf();
        ser.serialize_raw(s.as_str());
    }
}

impl<'a> PdfStr<'a> {
    /// The string in PDF syntax.
    pub fn to_pdf(&self) -> (r: String)
        requires
            self is Hex ==> hex_encodable(self->Hex_0.spec_bytes()),
        ensures
            match self {
                PdfStr::Hex(s) => r@ == spec_to_hex(s.spec_bytes()),
                PdfStr::Literal(s) => r@ == spec_to_literal(s@),
            },
    {
        match self {
            PdfStr::Hex(s) => to_hex(s),
            PdfStr::Literal(s) => to_literal(s),
        }
    }

    /// Writes the string in PDF syntax, as it is.
    pub fn serialize(&self, ser: &mut Serializer)
        requires
            self is Hex ==> hex_encodable(self->Hex_0.spec_bytes()),
        ensures
            final(ser).depth() == old(ser).depth(),
            final(ser).bytes() == old(ser).bytes() + vstd::utf8::encode_utf8(
                match self {
                    PdfStr::Hex(s) => spec_to_hex(s.spec_bytes()),
                    PdfStr::Literal(s) => spec_to_literal(s@),
                },
            ),
    {
        let s = self.to_pdf();
        ser.serialize_raw(s.as_str());
    }
}

} // verus!

verus! {

/// The value of a hexadecimal digit `0`-`9` or `A`-`F`; -1 for any other character.
pub open spec fn hex_digit_value(c: char) -> int {
    if '0' <= c <= '9' {
        c as int - '0' as int
    } else if 'A' <= c <= 'F' {
        c as int - 'A' as int + 10
    } else {
        -1
    }
}

proof fn lemma_hex_upper_value(v: int)
    requires
        0 <= v < 16,
    ensures
        hex_digit_value(hex_upper(v)) == v,
{
}

proof fn lemma_hex_chars(b: Seq<u8>)
    requires
        hex_encodable(b),
    ensures
        hex_chars(b).len() == 2 * b.len(),
        forall|i: int|
            0 <= i < b.len() ==> 0 <= hex_digit_value(#[trigger] hex_chars(b)[2 * i]) < 16
                && 0 <= hex_digit_value(hex_chars(b)[2 * i + 1]) < 16 && hex_digit_value(hex_chars(b)[2 * i]) * 16
                + hex_digit_value(hex_chars(b)[2 * i + 1]) == b[i] - 31,
    decreases b.len(),
{
    if b.len() > 0 {
        let d = b.drop_last();
        assert(hex_encodable(d)) by {
            assert forall|i: int| 0 <= i < d.len() implies #[trigger] d[i] >= 31 by {
                assert(d[i] == b[i]);
            }
        }
        lemma_hex_chars(d);
        let x = b.last() - 31;
        assert(b.last() >= 31);
        lemma_hex_upper_value(x / 16);
        lemma_hex_upper_value(x % 16);
        let h = hex_chars(b);
        assert forall|i: int| 0 <= i < b.len() implies 0 <= hex_digit_value(#[trigger] h[2 * i]) < 16
            && 0 <= hex_digit_value(h[2 * i + 1]) < 16 && hex_digit_value(h[2 * i]) * 16 + hex_digit_value(
            h[2 * i + 1],
        ) == b[i] - 31 by {
            if i < d.len() {
                assert(h[2 * i] == hex_chars(d)[2 * i]);
                assert(h[2 * i + 1] == hex_chars(d)[2 * i + 1]);
                assert(d[i] == b[i]);
            } else {
                assert(h[2 * i] == hex_upper(x / 16));
                assert(h[2 * i + 1] == hex_upper(x % 16));
            }
        }
    }
}

/// A hexadecimal string is `<`, two hexadecimal digits (`0`-`9`, `A`-`F`) for each byte, and
/// `>`; the digits of each byte, read back in base 16, give the byte less 31.
pub proof fn law_hex_round_trip(b: Seq<u8>)
    requires
        hex_encodable(b),
    ensures
        spec_to_hex(b).len() == 2 * b.len() + 2,
        spec_to_hex(b)[0] == '<',
        spec_to_hex(b)[2 * b.len() + 1int] == '>',
        forall|i: int|
            0 <= i < b.len() ==> 0 <= hex_digit_value(#[trigger] spec_to_hex(b)[2 * i + 1]) < 16
                && 0 <= hex_digit_value(spec_to_hex(b)[2 * i + 2]) < 16 && hex_digit_value(spec_to_hex(b)[2 * i + 1])
                * 16 + hex_digit_value(spec_to_hex(b)[2 * i + 2]) == b[i] - 31,
{
    lemma_hex_chars(b);
    let h = hex_chars(b);
    assert forall|i: int| 0 <= i < b.len() implies 0 <= hex_digit_value(#[trigger] spec_to_hex(b)[2 * i + 1]) < 16
        && 0 <= hex_digit_value(spec_to_hex(b)[2 * i + 2]) < 16 && hex_digit_value(spec_to_hex(b)[2 * i + 1]) * 16
        + hex_digit_value(spec_to_hex(b)[2 * i + 2]) == b[i] - 31 by {
        assert(spec_to_hex(b)[2 * i + 1] == h[2 * i]);
        assert(spec_to_hex(b)[2 * i + 2] == h[2 * i + 1]);
    }
}

} // verus!
