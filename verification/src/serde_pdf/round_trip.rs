//! What reading gives back of what writing wrote.
use vstd::prelude::*;
use crate::serde_pdf::de::{
    hex_escape, hex_value, is_digit, is_hex, octal_value, simple_escape, spec_discard, spec_name_chars, spec_next, spec_octal_tail,
    spec_parse_name, spec_parse_string, spec_peek, spec_string_body, win1252_char, DeState,
};
use crate::serde_pdf::string::{literal_char, literal_chars, octal3, spec_to_literal, win1252_code};
use crate::serde_pdf::error::Error;
use crate::serde_pdf::ser::{hex_lower, hex_lower_digit, name_out, needs_escape, spec_name};

verus! {

/// How a name writes one byte: `#` and its hexadecimal value where it needs escaping, else
/// the byte.
pub open spec fn escaped_byte(c: u8) -> Seq<u8> {
    if needs_escape(c) {
        seq![0x23u8] + hex_lower(c)
    } else {
        seq![c]
    }
}

/// How a name writes its bytes.
pub open spec fn escaped_bytes(b: Seq<u8>) -> Seq<u8>
    decreases b.len(),
{
    if b.len() == 0 {
        Seq::empty()
    } else {
        escaped_byte(b[0]) + escaped_bytes(b.drop_first())
    }
}

/// A name without zero bytes writes each byte escaped or as it is.
proof fn lemma_name_out(b: Seq<u8>, i: int, from: int)
    requires
        0 <= from <= i <= b.len(),
        forall|j: int| 0 <= j < b.len() ==> #[trigger] b[j] != 0,
    ensures
        name_out(b, i, from) == (b.subrange(from, i) + escaped_bytes(b.subrange(i, b.len() as int)), true),
    decreases b.len() - i,
{
    let rest = b.subrange(i, b.len() as int);
    if i == b.len() {
        assert(rest =~= Seq::<u8>::empty());
        assert(b.subrange(from, i) + escaped_bytes(rest) =~= b.subrange(from, b.len() as int));
    } else {
        assert(rest[0] == b[i]);
        assert(rest.drop_first() =~= b.subrange(i + 1, b.len() as int));
        if needs_escape(b[i]) {
            lemma_name_out(b, i + 1, i + 1);
            assert(b.subrange(i + 1, i + 1) =~= Seq::<u8>::empty());
            assert(b.subrange(from, i) + seq![0x23u8] + hex_lower(b[i]) + escaped_bytes(b.subrange(i + 1, b.len() as int))
                =~= b.subrange(from, i) + escaped_bytes(rest));
        } else {
            lemma_name_out(b, i + 1, from);
            assert(b.subrange(from, i + 1) =~= b.subrange(from, i) + seq![b[i]]);
            assert(b.subrange(from, i + 1) + escaped_bytes(b.subrange(i + 1, b.len() as int))
                =~= b.subrange(from, i) + escaped_bytes(rest));
        }
    }
}

/// The two lowercase hexadecimal digits of a byte from 16 on read back as the byte.
proof fn lemma_hex_lower_back(c: u8)
    requires
        c >= 16,
    ensures
        hex_lower(c).len() == 2,
        hex_escape(hex_lower(c)[0], hex_lower(c)[1]) == Some(c),
{
    let h = hex_lower_digit((c / 16) as int);
    let l = hex_lower_digit((c % 16) as int);
    assert(is_hex(h) && hex_value(h) == c / 16);
    assert(is_hex(l) && hex_value(l) == c % 16);
    assert(c == (c / 16) * 16 + c % 16);
}

/// Reading a written name: the bytes of a name from 16 to 126, escaped, then something that
/// ends a name, read after the characters `acc`, give `acc` and the bytes as characters.
proof fn lemma_read_escaped(b: Seq<u8>, tail: Seq<u8>, acc: Seq<char>)
    requires
        forall|j: int| 0 <= j < b.len() ==> 0x10 <= #[trigger] b[j] <= 0x7E,
        tail.len() == 0 || !(0x21 <= tail[0] <= 0x7E),
    ensures
        spec_name_chars(DeState { rest: escaped_bytes(b) + tail, peeked: false }, acc) == Some(
            (Ok::<Seq<char>, Error>(acc + b.map_values(|x: u8| x as char)), spec_peek(DeState { rest: tail, peeked: false }).1),
        ),
    decreases b.len(),
{
    let s = DeState { rest: escaped_bytes(b) + tail, peeked: false };
    if b.len() == 0 {
        assert(s.rest =~= tail);
        assert(acc + b.map_values(|x: u8| x as char) =~= acc);
    } else {
        let c = b[0];
        let b2 = b.drop_first();
        assert(forall|j: int| 0 <= j < b2.len() ==> b2[j] == b[j + 1]);
        let after = DeState { rest: escaped_bytes(b2) + tail, peeked: false };
        assert(acc.push(c as char) + b2.map_values(|x: u8| x as char) =~= acc + b.map_values(|x: u8| x as char));
        if needs_escape(c) {
            lemma_hex_lower_back(c);
            let h = hex_lower(c);
            assert(s.rest =~= seq![0x23u8, h[0], h[1]] + (escaped_bytes(b2) + tail));
            let (p, s1) = spec_peek(s);
            assert(p == Some(0x23u8));
            let s2 = spec_discard(s1);
            assert(s2.rest =~= seq![h[0], h[1]] + (escaped_bytes(b2) + tail));
            let (n1, s3) = spec_next(s2);
            assert(n1 == Some(h[0]));
            assert(s3.rest =~= seq![h[1]] + (escaped_bytes(b2) + tail));
            let (n2, s4) = spec_next(s3);
            assert(n2 == Some(h[1]));
            assert(s4 == after) by {
                assert(s4.rest =~= after.rest);
            }
            lemma_read_escaped(b2, tail, acc.push(c as char));
        } else {
            assert(s.rest =~= seq![c] + (escaped_bytes(b2) + tail));
            let (p, s1) = spec_peek(s);
            assert(p == Some(c));
            assert(c != 0x23);
            assert(spec_discard(s1) == after) by {
                assert(spec_discard(s1).rest =~= after.rest);
            }
            lemma_read_escaped(b2, tail, acc.push(c as char));
        }
    }
}

/// Reading back a written name gives the name: a name whose bytes lie from 16 to 126 is written
/// whole, and read from what was written, followed by anything that ends a name, gives its
/// bytes as characters.
pub proof fn law_name_round_trip(b: Seq<u8>, tail: Seq<u8>)
    requires
        forall|j: int| 0 <= j < b.len() ==> 0x10 <= #[trigger] b[j] <= 0x7E,
        tail.len() == 0 || !(0x21 <= tail[0] <= 0x7E),
    ensures
        spec_name(b).1,
        spec_parse_name(DeState { rest: spec_name(b).0 + tail, peeked: false }) == Some(
            (Ok::<Seq<char>, Error>(b.map_values(|x: u8| x as char)), spec_peek(DeState { rest: tail, peeked: false }).1),
        ),
{
    lemma_name_out(b, 0, 0);
    assert(b.subrange(0, 0) =~= Seq::<u8>::empty());
    assert(b.subrange(0, b.len() as int) =~= b);
    assert(name_out(b, 0, 0).0 =~= escaped_bytes(b));
    let s = DeState { rest: spec_name(b).0 + tail, peeked: false };
    assert(s.rest =~= seq![0x2Fu8] + (escaped_bytes(b) + tail));
    let (c, s1) = spec_peek(s);
    assert(c == Some(0x2Fu8));
    assert(spec_discard(s1) == DeState { rest: escaped_bytes(b) + tail, peeked: false }) by {
        assert(spec_discard(s1).rest =~= escaped_bytes(b) + tail);
    }
    lemma_read_escaped(b, tail, Seq::empty());
    assert(Seq::<char>::empty() + b.map_values(|x: u8| x as char) =~= b.map_values(|x: u8| x as char));
}

/// A character that a literal string writes so that reading gives it back: an ASCII
/// character, or one that Windows-1252 codes differently from Latin-1.
pub open spec fn literal_safe(c: char) -> bool {
    (c as u32) < 0x80 || win1252_code(c) is Some
}

/// Writing characters one after another.
proof fn lemma_literal_chars_concat(a: Seq<char>, b: Seq<char>)
    ensures
        literal_chars(a + b) == literal_chars(a) + literal_chars(b),
    decreases b.len(),
{
    if b.len() == 0 {
        assert(a + b =~= a);
        assert(literal_chars(a) + literal_chars(b) =~= literal_chars(a));
    } else {
        lemma_literal_chars_concat(a, b.drop_last());
        assert((a + b).drop_last() =~= a + b.drop_last());
        assert((a + b).last() == b.last());
        assert(literal_chars(a) + literal_chars(b.drop_last()) + literal_char(b.last())
            =~= literal_chars(a) + literal_chars(b));
    }
}

/// Writing the first character, then the others.
proof fn lemma_literal_chars_front(cs: Seq<char>)
    requires
        cs.len() > 0,
    ensures
        literal_chars(cs) == literal_char(cs[0]) + literal_chars(cs.drop_first()),
{
    lemma_literal_chars_concat(seq![cs[0]], cs.drop_first());
    assert(seq![cs[0]] + cs.drop_first() =~= cs);
    let one = seq![cs[0]];
    assert(one.drop_last() =~= Seq::<char>::empty());
    assert(literal_chars(Seq::<char>::empty()) == Seq::<char>::empty());
    assert(one.last() == cs[0]);
    assert(literal_chars(one) == literal_chars(one.drop_last()) + literal_char(one.last()));
    assert(literal_chars(one) =~= literal_char(cs[0]));
}

/// What a literal string writes of safe characters is ASCII.
proof fn lemma_literal_ascii(cs: Seq<char>)
    requires
        forall|i: int| 0 <= i < cs.len() ==> literal_safe(#[trigger] cs[i]),
    ensures
        forall|i: int| 0 <= i < literal_chars(cs).len() ==> (#[trigger] literal_chars(cs)[i] as u32) < 0x80,
    decreases cs.len(),
{
    if cs.len() > 0 {
        lemma_literal_ascii(cs.drop_last());
        let c = cs.last();
        assert(literal_safe(cs[cs.len() - 1]));
        let w = literal_char(c);
        if c == '\\' || c == '(' || c == ')' {
        } else if (c as u32) >= 128 && win1252_code(c) is Some {
            let d = win1252_code(c)->Some_0;
            assert(128 <= d <= 159);
            assert(octal3(d)[0] as u32 == d / 64 + 0x30);
            assert(octal3(d)[1] as u32 == (d / 8) % 8 + 0x30);
            assert(octal3(d)[2] as u32 == d % 8 + 0x30);
        }
        assert forall|i: int| 0 <= i < literal_chars(cs).len() implies (#[trigger] literal_chars(cs)[i] as u32) < 0x80 by {
            if i < literal_chars(cs.drop_last()).len() {
                assert(literal_chars(cs)[i] == literal_chars(cs.drop_last())[i]);
            } else {
                assert(literal_chars(cs)[i] == w[i - literal_chars(cs.drop_last()).len()]);
            }
        }
    }
}

/// A character numbered below 128 lies between NUL and DEL.
proof fn lemma_ascii_char_range(c: char)
    requires
        (c as u32) < 0x80,
    ensures
        '\0' <= c <= '\u{7f}',
{
    assert((c as u32) <= ('\u{7f}' as u32));
}

/// An ASCII character is its byte.
proof fn lemma_ascii_byte(c: char)
    requires
        (c as u32) < 0x80,
    ensures
        (c as u8) as char == c,
{
    let u = c as u32;
    assert((u as u8) as u32 == u) by (bit_vector)
        requires
            u < 0x80;
    vstd::utf8::char_u32_cast(c, u);
}

/// Every code that Windows-1252 gives a character reads back as that character.
proof fn lemma_win1252_back(c: char)
    requires
        win1252_code(c) is Some,
    ensures
        win1252_char(win1252_code(c)->Some_0) == c,
        128 <= win1252_code(c)->Some_0 <= 159,
{
}

/// Reading the bytes that a literal string writes for safe characters, then its closing
/// parenthesis, after the characters `acc`.
proof fn lemma_read_literal(cs: Seq<char>, tail: Seq<u8>, acc: Seq<char>)
    requires
        forall|i: int| 0 <= i < cs.len() ==> literal_safe(#[trigger] cs[i]),
    ensures
        spec_string_body(
            DeState {
                rest: literal_chars(cs).map_values(|c: char| c as u8) + seq![0x29u8] + tail,
                peeked: false,
            },
            0,
            acc,
        ) == Some((Ok::<Seq<char>, Error>(acc + cs), DeState { rest: tail, peeked: false })),
    decreases cs.len(),
{
    let s = DeState { rest: literal_chars(cs).map_values(|c: char| c as u8) + seq![0x29u8] + tail, peeked: false };
    if cs.len() == 0 {
        assert(literal_chars(cs) =~= Seq::<char>::empty());
        assert(s.rest =~= seq![0x29u8] + tail);
        assert(acc + cs =~= acc);
        let (c, s1) = spec_next(s);
        assert(s1.rest =~= tail);
    } else {
        let c = cs[0];
        let rest_cs = cs.drop_first();
        assert(forall|i: int| 0 <= i < rest_cs.len() ==> rest_cs[i] == cs[i + 1]);
        assert(literal_safe(cs[0]));
        lemma_literal_chars_front(cs);
        let w = literal_char(c);
        let later = literal_chars(rest_cs).map_values(|x: char| x as u8) + seq![0x29u8] + tail;
        assert(s.rest =~= w.map_values(|x: char| x as u8) + later);
        assert(acc.push(c) + rest_cs =~= acc + cs);
        lemma_read_literal(rest_cs, tail, acc.push(c));
        let (b, s1) = spec_next(s);
        if c == '\\' || c == '(' || c == ')' {
            assert(b == Some(0x5Cu8));
            let (e, s2) = spec_next(s1);
            assert(e == Some(c as u8));
            assert(simple_escape(c as u8) == Some(c));
            assert(s2.rest =~= later);
        } else if (c as u32) >= 128 && win1252_code(c) is Some {
            lemma_win1252_back(c);
            let d = win1252_code(c)->Some_0;
            let o = octal3(d);
            let d1 = (d / 64 + 0x30) as u8;
            let d2 = ((d / 8) % 8 + 0x30) as u8;
            let d3 = (d % 8 + 0x30) as u8;
            assert(w.map_values(|x: char| x as u8) =~= seq![0x5Cu8, d1, d2, d3]);
            assert(b == Some(0x5Cu8));
            let (e, s2) = spec_next(s1);
            assert(e == Some(d1));
            assert(d1 == 0x32);
            assert(simple_escape(d1) is None);
            let (p1, t1) = spec_peek(s2);
            assert(p1 == Some(d2));
            let (q1, u1) = spec_next(t1);
            let (p2, t2) = spec_peek(u1);
            assert(p2 == Some(d3));
            let (q2, u2) = spec_next(t2);
            assert(u2.rest =~= later);
            assert(is_digit(d2) && is_digit(d3));
            assert(seq![d1, d2].push(d3) =~= seq![d1, d2, d3]);
            assert(seq![d1].push(d2) =~= seq![d1, d2]);
            assert(spec_octal_tail(u2, seq![d1, d2, d3], 0) == (seq![d1, d2, d3], u2));
            assert(spec_octal_tail(u1, seq![d1, d2], 1) == (seq![d1, d2, d3], u2));
            assert(spec_octal_tail(s2, seq![d1], 2) == (seq![d1, d2, d3], u2));
            assert(seq![d1, d2, d3].drop_last() =~= seq![d1, d2]);
            assert(seq![d1, d2].drop_last() =~= seq![d1]);
            assert(seq![d1].drop_last() =~= Seq::<u8>::empty());
            assert(octal_value(Seq::<u8>::empty()) == Some(0u32));
            assert(seq![d1].last() == d1);
            assert(octal_value(seq![d1]) == Some(2u32));
            assert(octal_value(seq![d1, d2]) == Some((2 * 8 + (d / 8) % 8) as u32));
            assert(octal_value(seq![d1, d2, d3]) == Some(d));
        } else {
            assert(b == Some(c as u8));
            lemma_ascii_byte(c);
            assert(s1.rest =~= later);
        }
    }
}

/// Reading back a written literal string gives the text: a text of ASCII characters and of
/// characters that Windows-1252 codes differently from Latin-1, written as a literal string
/// and followed by anything, reads back as the text, with the input after the string left.
pub proof fn law_literal_round_trip(cs: Seq<char>, tail: Seq<u8>)
    requires
        forall|i: int| 0 <= i < cs.len() ==> literal_safe(#[trigger] cs[i]),
    ensures
        spec_parse_string(DeState { rest: vstd::utf8::encode_utf8(spec_to_literal(cs)) + tail, peeked: false })
            == Some((Ok::<Seq<char>, Error>(cs), DeState { rest: tail, peeked: false })),
{
    let lit = spec_to_literal(cs);
    lemma_literal_ascii(cs);
    let body = literal_chars(cs).map_values(|c: char| c as u8);
    assert(vstd::utf8::is_ascii_chars(lit)) by {
        assert forall|i: int| 0 <= i < lit.len() implies '\0' <= #[trigger] lit[i] <= '\u{7f}' by {
            if i == 0 {
                assert(lit[i] == '(');
            } else if i == lit.len() - 1 {
                assert(lit[i] == ')');
            } else {
                assert(lit[i] == literal_chars(cs)[i - 1]);
                assert((literal_chars(cs)[i - 1] as u32) < 0x80);
                lemma_ascii_char_range(lit[i]);
            }
        }
    }
    vstd::utf8::is_ascii_chars_encode_utf8(lit);
    let bytes = vstd::utf8::encode_utf8(lit);
    assert(bytes =~= seq![0x28u8] + body + seq![0x29u8]) by {
        assert forall|i: int| 0 <= i < bytes.len() implies bytes[i] == (seq![0x28u8] + body + seq![0x29u8])[i] by {
            assert(lit[i] as u8 == bytes[i]);
            if i > 0 && i < lit.len() - 1 {
                assert(lit[i] == literal_chars(cs)[i - 1]);
            }
        }
    }
    let s = DeState { rest: bytes + tail, peeked: false };
    let (c, s1) = spec_peek(s);
    assert(c == Some(0x28u8));
    assert(spec_discard(s1) == DeState { rest: body + seq![0x29u8] + tail, peeked: false }) by {
        assert(spec_discard(s1).rest =~= body + seq![0x29u8] + tail);
    }
    lemma_read_literal(cs, tail, Seq::empty());
    assert(Seq::<char>::empty() + cs =~= cs);
}

} // verus!
