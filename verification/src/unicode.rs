//! Characters, their UTF-8 widths, and strings built from them.
use vstd::prelude::*;

verus! {

/// The number of bytes that UTF-8 encodes `c` with.
pub open spec fn utf8_width(c: char) -> nat {
    if (c as u32) < 0x80 {
        1
    } else if (c as u32) < 0x800 {
        2
    } else if (c as u32) < 0x10000 {
        3
    } else {
        4
    }
}

/// The number of bytes that UTF-8 encodes `cs` with.
pub open spec fn utf8_len(cs: Seq<char>) -> nat
    decreases cs.len(),
{
    if cs.len() == 0 {
        0
    } else {
        utf8_len(cs.drop_last()) + utf8_width(cs.last())
    }
}

/// The number of bytes that UTF-8 encodes `c` with.
pub fn char_utf8_width(c: char) -> (r: usize)
    ensures
        r == utf8_width(c),
{
    let u = c as u32;
    if u < 0x80 {
        1
    } else if u < 0x800 {
        2
    } else if u < 0x10000 {
        3
    } else {
        4
    }
}

/// The UTF-8 width of `cs` is the length of its UTF-8 encoding.
pub proof fn lemma_utf8_len_encoding(cs: Seq<char>)
    ensures
        utf8_len(cs) == vstd::utf8::encode_utf8(cs).len(),
    decreases cs.len(),
{
    if cs.len() > 0 {
        lemma_utf8_len_front(cs);
        lemma_utf8_len_encoding(cs.drop_first());
        vstd::utf8::char_is_scalar(cs[0]);
        let c = cs[0] as u32;
        assert(vstd::utf8::encode_scalar(c).len() == utf8_width(cs[0]));
    }
}

/// The UTF-8 encoding of two character sequences one after the other is their encodings one
/// after the other.
pub proof fn lemma_encode_utf8_concat(a: Seq<char>, b: Seq<char>)
    ensures
        vstd::utf8::encode_utf8(a + b) == vstd::utf8::encode_utf8(a) + vstd::utf8::encode_utf8(b),
    decreases a.len(),
{
    if a.len() == 0 {
        assert(a + b =~= b);
        assert(vstd::utf8::encode_utf8(a) =~= Seq::<u8>::empty());
        assert(vstd::utf8::encode_utf8(a + b) =~= vstd::utf8::encode_utf8(a) + vstd::utf8::encode_utf8(b));
    } else {
        assert((a + b)[0] == a[0]);
        assert((a + b).drop_first() =~= a.drop_first() + b);
        lemma_encode_utf8_concat(a.drop_first(), b);
        assert(vstd::utf8::encode_utf8(a + b) =~= vstd::utf8::encode_utf8(a) + vstd::utf8::encode_utf8(b));
    }
}

/// Taking the width of the first character off.
proof fn lemma_utf8_len_front(cs: Seq<char>)
    requires
        cs.len() > 0,
    ensures
        utf8_len(cs) == utf8_width(cs[0]) + utf8_len(cs.drop_first()),
    decreases cs.len(),
{
    if cs.len() > 1 {
        lemma_utf8_len_front(cs.drop_last());
        assert(cs.drop_last().drop_first() =~= cs.drop_first().drop_last());
        assert(cs.drop_last()[0] == cs[0]);
        assert(cs.drop_first().last() == cs.last());
        assert(utf8_len(cs) == utf8_len(cs.drop_last()) + utf8_width(cs.last()));
        assert(utf8_len(cs.drop_first()) == utf8_len(cs.drop_first().drop_last()) + utf8_width(cs.drop_first().last()));
    } else {
        assert(cs.drop_first().len() == 0);
        assert(cs.drop_last().len() == 0);
        assert(cs.last() == cs[0]);
        assert(utf8_len(cs.drop_last()) == 0);
        assert(utf8_len(cs.drop_first()) == 0);
        assert(utf8_len(cs) == utf8_len(cs.drop_last()) + utf8_width(cs.last()));
    }
}

/// The character with the number `code`, for a number below the surrogates.
#[verifier::external_body]
pub(crate) fn char_from_code(code: u32) -> (r: char)
    requires
        code < 0xD800,
    ensures
        r == code as char,
{
    char::from_u32(code).unwrap()
}

/// Appends the UTF-8 encoding of `c` to `out`.
pub fn write_char(out: &mut Vec<u8>, c: char)
    ensures
        final(out)@ == old(out)@ + vstd::utf8::encode_scalar(c as u32),
{
    proof {
        vstd::utf8::char_is_scalar(c);
    }
    let v = c as u32;
    if v <= 0x7F {
        out.push((v & 0x7F) as u8);
    } else if v <= 0x7FF {
        out.push(0xC0 | ((v >> 6) & 0x1F) as u8);
        out.push(0x80 | (v & 0x3F) as u8);
    } else if v <= 0xFFFF {
        out.push(0xE0 | ((v >> 12) & 0x0F) as u8);
        out.push(0x80 | ((v >> 6) & 0x3F) as u8);
        out.push(0x80 | (v & 0x3F) as u8);
    } else {
        out.push(0xF0 | ((v >> 18) & 0x7) as u8);
        out.push(0x80 | ((v >> 12) & 0x3F) as u8);
        out.push(0x80 | ((v >> 6) & 0x3F) as u8);
        out.push(0x80 | (v & 0x3F) as u8);
    }
    assert(out@ =~= old(out)@ + vstd::utf8::encode_scalar(c as u32));
}

/// The text that `String::from_utf8_lossy` makes of `bytes`.
pub uninterp spec fn utf8_lossy(bytes: Seq<u8>) -> Seq<char>;

/// A `String` of the bytes `bytes` (`String::from_utf8_lossy`): their text where they are
/// UTF-8; otherwise invalid sequences become replacement characters, which is what
/// `utf8_lossy` names.
#[verifier::external_body]
pub(crate) fn string_from_utf8_lossy(bytes: &Vec<u8>) -> (r: String)
    ensures
        r@ == utf8_lossy(bytes@),
        vstd::utf8::valid_utf8(bytes@) ==> r@ == vstd::utf8::decode_utf8(bytes@),
{
    String::from_utf8_lossy(bytes.as_slice()).to_string()
}

/// A `String` of the characters `cs`, in order.
#[verifier::external_body]
pub(crate) fn string_from_chars(cs: &Vec<char>) -> (r: String)
    ensures
        r@ == cs@,
{
    cs.iter().collect()
}

} // verus!
