//! Writing values in PDF object syntax.
use vstd::prelude::*;
use crate::big_endian::write_bytes;
use crate::decimal::{decimal, decimal_digits, signed_decimal, write_signed};
use crate::serde_pdf::error::Error;
use crate::unicode::{string_from_utf8_lossy, utf8_lossy, write_char};
use vstd::string::StringSliceAdditionalSpecFns;

verus! {

/// The name of the tuple struct that frames a stream.
pub const NAME_STREAM: &'static str = "$__pdf_stream";
/// The name of the tuple struct that frames an indirect object.
pub const NAME_OBJECT: &'static str = "$__pdf_object";
/// The name of the tuple struct that frames a reference to an object.
pub const NAME_REFERENCE: &'static str = "$__pdf_reference";
/// The name of the newtype struct whose string is written as it is.
pub const NAME_RAW: &'static str = "$__pdf_raw";

/// A writer of PDF object syntax into bytes; `depth` counts the open dictionaries of structs,
/// whose entries are indented by as many tabs.
pub struct Serializer {
    output: Vec<u8>,
    depth: usize,
}

/// A byte that a name writes as `#` and its hexadecimal value: white space and other
/// irregular bytes, and the delimiters `( ) < > [ ] { } / %`, and `#`.
pub open spec fn needs_escape(b: u8) -> bool {
    ||| 0x01 <= b <= 0x20
    ||| 0x7F <= b
    ||| b == 0x28 || b == 0x29 || b == 0x3C || b == 0x3E || b == 0x5B || b == 0x5D
    ||| b == 0x7B || b == 0x7D || b == 0x2F || b == 0x25 || b == 0x23
}

/// A lowercase hexadecimal digit.
pub open spec fn hex_lower_digit(v: int) -> u8 {
    if v < 10 {
        (v + 0x30) as u8
    } else {
        (v + 0x57) as u8
    }
}

/// A byte in lowercase hexadecimal, without leading zeros.
pub open spec fn hex_lower(b: u8) -> Seq<u8> {
    if b < 16 {
        seq![hex_lower_digit(b as int)]
    } else {
        seq![hex_lower_digit((b / 16) as int), hex_lower_digit((b % 16) as int)]
    }
}

/// What writing the bytes of a name from position `i` on gives, where the bytes from `from`
/// to `i` are regular and not written yet: the bytes written, and whether the name had no
/// zero byte.
pub open spec fn name_out(b: Seq<u8>, i: int, from: int) -> (Seq<u8>, bool)
    decreases b.len() - i,
{
    if i < 0 || i >= b.len() || from < 0 || from > i {
        (b.subrange(from, b.len() as int), true)
    } else if b[i] == 0 {
        (Seq::empty(), false)
    } else if needs_escape(b[i]) {
        let (rest, ok) = name_out(b, i + 1, i + 1);
        (b.subrange(from, i) + seq![0x23u8] + hex_lower(b[i]) + rest, ok)
    } else {
        name_out(b, i + 1, from)
    }
}

/// The bytes of a name: `/` and its bytes, irregular ones escaped; and whether the name was
/// written whole (it holds no zero byte).
pub open spec fn spec_name(b: Seq<u8>) -> (Seq<u8>, bool) {
    (seq![0x2Fu8] + name_out(b, 0, 0).0, name_out(b, 0, 0).1)
}

/// `n` tabs.
pub open spec fn tabs(n: nat) -> Seq<u8> {
    Seq::new(n, |i: int| 0x09u8)
}

/// The bytes of a literal.
pub open spec fn lit(s: &str) -> Seq<u8> {
    s.spec_bytes()
}

impl Serializer {
    /// The bytes written so far.
    pub closed spec fn bytes(&self) -> Seq<u8> {
        self.output@
    }

    /// How many dictionaries of structs are open.
    pub closed spec fn depth(&self) -> nat {
        self.depth as nat
    }

    /// A writer with nothing written.
    pub fn new() -> (r: Serializer)
        ensures
            r.bytes() == Seq::<u8>::empty(),
            r.depth() == 0,
    {
        Serializer { output: Vec::new(), depth: 0 }
    }

    /// The bytes written.
    pub fn into_bytes(self) -> (r: Vec<u8>)
        ensures
            r@ == self.bytes(),
    {
        self.output
    }

    /// The bytes written, as text; bytes that are no UTF-8 become replacement characters.
    pub fn into_string(self) -> (r: String)
        ensures
            r@ == utf8_lossy(self.bytes()),
            vstd::utf8::valid_utf8(self.bytes()) ==> r@ == vstd::utf8::decode_utf8(self.bytes()),
    {
        string_from_utf8_lossy(&self.output)
    }

    /// Appends `bytes`.
    fn put(&mut self, bytes: &[u8])
        ensures
            final(self).bytes() == old(self).bytes() + bytes@,
            final(self).depth() == old(self).depth(),
    {
        write_bytes(&mut self.output, bytes);
    }

    /// Appends the text `s`.
    pub fn write_str(&mut self, s: &str)
        ensures
            final(self).bytes() == old(self).bytes() + s.spec_bytes(),
            final(self).depth() == old(self).depth(),
    {
        self.put(s.as_bytes());
    }

    /// Appends `depth` tabs.
    fn put_tabs(&mut self)
        ensures
            final(self).bytes() == old(self).bytes() + tabs(old(self).depth()),
            final(self).depth() == old(self).depth(),
    {
        let mut i: usize = 0;
        let ghost start = self.output@;
        while i < self.depth
            invariant
                i <= self.depth,
                self.depth == old(self).depth,
                start == old(self).output@,
                self.output@ == start + tabs(i as nat),
            decreases self.depth - i,
        {
            self.output.push(0x09u8);
            proof {
                assert(self.output@ =~= start + tabs((i + 1) as nat));
            }
            i = i + 1;
        }
    }

    /// Writes a name: `/`, then its bytes, where a byte that is irregular, white space or a
    /// delimiter is written as `#` and its hexadecimal value. Fails at a zero byte, which no
    /// name can hold, after writing the bytes before the last escape.
    pub fn serialize_name(&mut self, name: &str) -> (r: Result<(), Error>)
        ensures
            final(self).bytes() == old(self).bytes() + spec_name(name.spec_bytes()).0,
            final(self).depth() == old(self).depth(),
            r is Ok <==> spec_name(name.spec_bytes()).1,
            r matches Err(e) ==> e == Error::Eof,
    {
        let b = name.as_bytes();
        let ghost bs = b@;
        let ghost start = self.output@;
        self.output.push(0x2Fu8);
        let mut from: usize = 0;
        let mut i: usize = 0;
        let n = b.len();
        while i < n
            invariant
                n == bs.len(),
                bs == b@,
                bs == name.spec_bytes(),
                start == old(self).output@,
                from <= i <= n,
                self.depth == old(self).depth,
                ({
                    let (tail, ok) = name_out(bs, i as int, from as int);
                    spec_name(bs) == (self.output@.subrange(start.len() as int, self.output@.len() as int) + tail, ok)
                }),
                self.output@.subrange(0, start.len() as int) == start,
                self.output@.len() >= start.len(),
            decreases n - i,
        {
            let ch = b[i];
            if ch == 0 {
                proof {
                    assert(bs[i as int] == 0);
                    assert(name_out(bs, i as int, from as int) == (Seq::<u8>::empty(), false));
                    let mid = self.output@.subrange(start.len() as int, self.output@.len() as int);
                    assert(mid + Seq::<u8>::empty() =~= mid);
                    assert(self.output@ =~= self.output@.subrange(0, start.len() as int) + mid);
                }
                return Err(Error::Eof);
            }
            if (0x01 <= ch && ch <= 0x20) || 0x7F <= ch || ch == 0x28 || ch == 0x29 || ch == 0x3C
                || ch == 0x3E || ch == 0x5B || ch == 0x5D || ch == 0x7B || ch == 0x7D || ch == 0x2F
                || ch == 0x25 || ch == 0x23 {
                let ghost before = self.output@;
                let mut k = from;
                while k < i
                    invariant
                        from <= k <= i < n,
                        self.depth == old(self).depth,
                        bs == b@,
                        n == bs.len(),
                        self.output@ == before + bs.subrange(from as int, k as int),
                    decreases i - k,
                {
                    self.output.push(b[k]);
                    proof {
                        assert(self.output@ =~= before + bs.subrange(from as int, k + 1));
                    }
                    k = k + 1;
                }
                self.output.push(0x23u8);
                write_hex_lower(&mut self.output, ch);
                proof {
                    let mid = self.output@.subrange(start.len() as int, self.output@.len() as int);
                    assert(mid =~= before.subrange(start.len() as int, before.len() as int)
                        + bs.subrange(from as int, i as int) + seq![0x23u8] + hex_lower(ch));
                    assert(self.output@.subrange(0, start.len() as int) =~= start);
                }
                from = i + 1;
            }
            i = i + 1;
        }
        let ghost before = self.output@;
        let mut k = from;
        while k < n
            invariant
                from <= k <= n,
                self.depth == old(self).depth,
                bs == b@,
                n == bs.len(),
                self.output@ == before + bs.subrange(from as int, k as int),
            decreases n - k,
        {
            self.output.push(b[k]);
            proof {
                assert(self.output@ =~= before + bs.subrange(from as int, k + 1));
            }
            k = k + 1;
        }
        proof {
            assert(self.output@ =~= start + spec_name(bs).0);
        }
        Ok(())
    }

    /// Writes `true` or `false`.
    pub fn serialize_bool(&mut self, v: bool)
        ensures
            final(self).bytes() == old(self).bytes() + (if v { lit("true") } else { lit("false") }),
            final(self).depth() == old(self).depth(),
    {
        if v {
            self.write_str("true");
        } else {
            self.write_str("false");
        }
    }

    /// Writes a signed integer in decimal.
    pub fn serialize_i64(&mut self, v: i64)
        ensures
            final(self).bytes() == old(self).bytes() + signed_decimal(v as int),
            final(self).depth() == old(self).depth(),
    {
        write_signed(&mut self.output, v);
    }

    /// Writes an unsigned integer in decimal.
    pub fn serialize_u64(&mut self, v: u64)
        ensures
            final(self).bytes() == old(self).bytes() + decimal(v as nat),
            final(self).depth() == old(self).depth(),
    {
        let digits = decimal_digits(v);
        write_bytes(&mut self.output, digits.as_slice());
    }

    /// Writes a character as a literal string: `(`, its UTF-8 bytes, `)`.
    pub fn serialize_char(&mut self, v: char)
        ensures
            final(self).bytes() == old(self).bytes() + seq![0x28u8] + vstd::utf8::encode_scalar(v as u32) + seq![0x29u8],
            final(self).depth() == old(self).depth(),
    {
        self.output.push(0x28u8);
        write_char(&mut self.output, v);
        self.output.push(0x29u8);
    }

    /// Writes a string, as a name.
    pub fn serialize_str(&mut self, v: &str) -> (r: Result<(), Error>)
        ensures
            final(self).bytes() == old(self).bytes() + spec_name(v.spec_bytes()).0,
            final(self).depth() == old(self).depth(),
            r is Ok <==> spec_name(v.spec_bytes()).1,
            r matches Err(e) ==> e == Error::Eof,
    {
        self.serialize_name(v)
    }

    /// Writes bytes as a stream: `stream`, a line break, the bytes, a line break, `endstream`.
    pub fn serialize_bytes(&mut self, v: &[u8])
        ensures
            final(self).bytes() == old(self).bytes() + lit("stream\n") + v@ + lit("\nendstream"),
            final(self).depth() == old(self).depth(),
    {
        self.write_str("stream\n");
        self.put(v);
        self.write_str("\nendstream");
    }

    /// Writes `null`, for the unit value, a unit struct or an absent option.
    pub fn serialize_unit(&mut self)
        ensures
            final(self).bytes() == old(self).bytes() + lit("null"),
            final(self).depth() == old(self).depth(),
    {
        self.write_str("null");
    }

    /// Writes a string as it is, for the raw newtype struct.
    pub fn serialize_raw(&mut self, v: &str)
        ensures
            final(self).bytes() == old(self).bytes() + v.spec_bytes(),
            final(self).depth() == old(self).depth(),
    {
        self.write_str(v);
    }

    /// Begins a newtype variant: `<< `, the variant's name, a space.
    pub fn begin_newtype_variant(&mut self, variant: &str) -> (r: Result<(), Error>)
        ensures
            r is Ok <==> spec_name(variant.spec_bytes()).1,
            r is Ok ==> final(self).bytes() == old(self).bytes() + lit("<< ") + spec_name(variant.spec_bytes()).0 + lit(" "),
            final(self).depth() == old(self).depth(),
    {
        self.write_str("<< ");
        self.serialize_name(variant)?;
        self.write_str(" ");
        Ok(())
    }

    /// Ends a newtype variant: ` >>`.
    pub fn end_newtype_variant(&mut self)
        ensures
            final(self).bytes() == old(self).bytes() + lit(" >>"),
            final(self).depth() == old(self).depth(),
    {
        self.write_str(" >>");
    }

    /// Begins an array, for a sequence or a tuple: `[`.
    pub fn serialize_seq(&mut self) -> (r: Compound)
        ensures
            final(self).bytes() == old(self).bytes() + lit("["),
            final(self).depth() == old(self).depth(),
            r.is_first,
    {
        self.write_str("[");
        Compound { is_first: true }
    }

    /// Begins a tuple struct: one of the framings by its name (stream, object, reference),
    /// else an array.
    pub fn serialize_tuple_struct(&mut self, name: &str) -> (r: TupleStruct)
        ensures
            final(self).depth() == old(self).depth(),
            r == tuple_struct_for(name@),
            final(self).bytes() == old(self).bytes() + (if r is Compound { lit("[") } else { Seq::<u8>::empty() }),
    {
        if str_eq(name, NAME_STREAM) {
            TupleStruct::Stream { is_first: true }
        } else if str_eq(name, NAME_OBJECT) {
            TupleStruct::Object { ix: 0 }
        } else if str_eq(name, NAME_REFERENCE) {
            TupleStruct::Reference { is_first: true }
        } else {
            TupleStruct::Compound(self.serialize_seq())
        }
    }

    /// Begins a tuple variant: `<< `, the variant's name, ` [`.
    pub fn serialize_tuple_variant(&mut self, variant: &str) -> (r: Result<Compound, Error>)
        ensures
            r is Ok <==> spec_name(variant.spec_bytes()).1,
            r matches Ok(c) ==> c.is_first && final(self).bytes() == old(self).bytes() + lit("<< ")
                + spec_name(variant.spec_bytes()).0 + lit(" ["),
            final(self).depth() == old(self).depth(),
    {
        self.write_str("<< ");
        self.serialize_name(variant)?;
        self.write_str(" [");
        Ok(Compound { is_first: true })
    }

    /// Begins a dictionary for a map: `<<`.
    pub fn serialize_map(&mut self) -> (r: Compound)
        ensures
            final(self).bytes() == old(self).bytes() + lit("<<"),
            final(self).depth() == old(self).depth(),
            r.is_first,
    {
        self.write_str("<<");
        Compound { is_first: true }
    }

    /// Begins a dictionary for a struct: `<<` and a line break; one level deeper, the entry
    /// `/Type` with the struct's name as a name, unless the name is empty.
    pub fn serialize_struct(&mut self, name: &str) -> (r: Result<Compound, Error>)
        requires
            old(self).depth() < usize::MAX,
        ensures
            final(self).depth() == old(self).depth() + 1,
            r is Ok <==> (name@.len() == 0 || spec_name(name.spec_bytes()).1),
            r matches Ok(c) ==> c.is_first && final(self).bytes() == old(self).bytes() + lit("<<\n") + (if name@.len()
                == 0 {
                Seq::<u8>::empty()
            } else {
                tabs(old(self).depth() + 1) + lit("/Type ") + spec_name(name.spec_bytes()).0
                    + lit("\n")
            }),
    {
        self.write_str("<<\n");
        self.depth = self.depth + 1;
        if !str_is_empty(name) {
            self.put_tabs();
            self.write_str("/Type ");
            self.serialize_name(name)?;
            self.write_str("\n");
        }
        Ok(Compound { is_first: true })
    }

    /// Begins a struct variant: `<< `, the variant's name, ` << `.
    pub fn serialize_struct_variant(&mut self, variant: &str) -> (r: Result<Compound, Error>)
        ensures
            r is Ok <==> spec_name(variant.spec_bytes()).1,
            r matches Ok(c) ==> c.is_first && final(self).bytes() == old(self).bytes() + lit("<< ")
                + spec_name(variant.spec_bytes()).0 + lit(" << "),
            final(self).depth() == old(self).depth(),
    {
        self.write_str("<< ");
        self.serialize_name(variant)?;
        self.write_str(" << ");
        Ok(Compound { is_first: true })
    }
}

/// Whether two strings are equal.
fn str_eq(a: &str, b: &str) -> (r: bool)
    ensures
        r == (a@ == b@),
{
    let x = a.as_bytes();
    let y = b.as_bytes();
    let eq = bytes_eq(x, y);
    proof {
        vstd::utf8::encode_utf8_decode_utf8(a@);
        vstd::utf8::encode_utf8_decode_utf8(b@);
    }
    eq
}

/// Whether two byte strings are equal.
fn bytes_eq(x: &[u8], y: &[u8]) -> (r: bool)
    ensures
        r == (x@ == y@),
{
    if x.len() != y.len() {
        return false;
    }
    let mut i: usize = 0;
    while i < x.len()
        invariant
            i <= x@.len() == y@.len(),
            x@.take(i as int) == y@.take(i as int),
        decreases x@.len() - i,
    {
        if x[i] != y[i] {
            return false;
        }
        assert(x@.take(i + 1) =~= x@.take(i as int).push(x@[i as int]));
        assert(y@.take(i + 1) =~= y@.take(i as int).push(y@[i as int]));
        i = i + 1;
    }
    assert(x@.take(i as int) =~= x@);
    assert(y@.take(i as int) =~= y@);
    true
}

/// Whether a string is empty.
fn str_is_empty(a: &str) -> (r: bool)
    ensures
        r == (a@.len() == 0),
{
    a.is_empty()
}

/// Appends a byte in lowercase hexadecimal, without leading zeros.
fn write_hex_lower(out: &mut Vec<u8>, b: u8)
    ensures
        final(out)@ == old(out)@ + hex_lower(b),
{
    if b >= 16 {
        out.push(hex_lower_digit_exec(b / 16));
    }
    out.push(hex_lower_digit_exec(b % 16));
    assert(out@ =~= old(out)@ + hex_lower(b));
}

fn hex_lower_digit_exec(v: u8) -> (r: u8)
    requires
        v < 16,
    ensures
        r == hex_lower_digit(v as int),
{
    if v < 10 {
        v + 0x30
    } else {
        v + 0x57
    }
}

/// The state of writing the elements of an array or the entries of a dictionary.
#[derive(Debug, Clone, Copy, PartialEq, Eq, Structural)]
pub struct Compound {
    pub is_first: bool,
}

impl Compound {
    /// Before an element of a sequence, tuple or tuple variant: a space, except before the
    /// first.
    pub fn serialize_element(&mut self, ser: &mut Serializer)
        ensures
            !final(self).is_first,
            final(ser).depth() == old(ser).depth(),
            final(ser).bytes() == old(ser).bytes() + (if old(self).is_first { Seq::<u8>::empty() } else { lit(" ") }),
    {
        if self.is_first {
            self.is_first = false;
            assert(ser.bytes() =~= old(ser).bytes() + Seq::<u8>::empty());
        } else {
            ser.write_str(" ");
        }
    }

    /// Ends a sequence or tuple: `]`.
    pub fn end_seq(self, ser: &mut Serializer)
        ensures
            final(ser).bytes() == old(ser).bytes() + lit("]"),
            final(ser).depth() == old(ser).depth(),
    {
        ser.write_str("]");
    }

    /// Ends a tuple variant: `] >>`.
    pub fn end_tuple_variant(self, ser: &mut Serializer)
        ensures
            final(ser).bytes() == old(ser).bytes() + lit("] >>"),
            final(ser).depth() == old(ser).depth(),
    {
        ser.write_str("] >>");
    }

    /// Before the value of a struct's field: the indentation, the key as a name and a space.
    pub fn begin_struct_field(&mut self, ser: &mut Serializer, key: &str) -> (r: Result<(), Error>)
        ensures
            final(ser).depth() == old(ser).depth(),
            r is Ok <==> spec_name(key.spec_bytes()).1,
            r is Ok ==> final(ser).bytes() == old(ser).bytes() + tabs(old(ser).depth()) + spec_name(key.spec_bytes()).0
                + lit(" "),
    {
        ser.put_tabs();
        ser.serialize_name(key)?;
        ser.write_str(" ");
        Ok(())
    }

    /// After the value of a struct's field: a line break.
    pub fn end_struct_field(&mut self, ser: &mut Serializer)
        ensures
            final(ser).bytes() == old(ser).bytes() + lit("\n"),
            final(ser).depth() == old(ser).depth(),
    {
        ser.write_str("\n");
    }

    /// Ends a struct: one level up, the indentation and `>>`.
    pub fn end_struct(self, ser: &mut Serializer)
        requires
            old(ser).depth() > 0,
        ensures
            final(ser).depth() == old(ser).depth() - 1,
            final(ser).bytes() == old(ser).bytes() + tabs((old(ser).depth() - 1) as nat) + lit(">>"),
    {
        ser.depth = ser.depth - 1;
        ser.put_tabs();
        ser.write_str(">>");
    }

    /// Before the value of a struct variant's field: the key as a name and a space.
    pub fn begin_struct_variant_field(&mut self, ser: &mut Serializer, key: &str) -> (r: Result<(), Error>)
        ensures
            final(ser).depth() == old(ser).depth(),
            r is Ok <==> spec_name(key.spec_bytes()).1,
            r is Ok ==> final(ser).bytes() == old(ser).bytes() + spec_name(key.spec_bytes()).0 + lit(" "),
    {
        ser.serialize_name(key)?;
        ser.write_str(" ");
        Ok(())
    }

    /// Ends a struct variant: ` >> >>`.
    pub fn end_struct_variant(self, ser: &mut Serializer)
        ensures
            final(ser).bytes() == old(ser).bytes() + lit(" >> >>"),
            final(ser).depth() == old(ser).depth(),
    {
        ser.write_str(" >> >>");
    }

    /// Before a key or a value of a map: a space.
    pub fn map_separator(&mut self, ser: &mut Serializer)
        ensures
            final(ser).bytes() == old(ser).bytes() + lit(" "),
            final(ser).depth() == old(ser).depth(),
    {
        ser.write_str(" ");
    }

    /// Ends a map: ` >>`.
    pub fn end_map(self, ser: &mut Serializer)
        ensures
            final(ser).bytes() == old(ser).bytes() + lit(" >>"),
            final(ser).depth() == old(ser).depth(),
    {
        ser.write_str(" >>");
    }
}

/// The state of writing the fields of a tuple struct: an array, a stream (fields on lines of
/// their own), an object (`id rev obj`, then its content) or a reference (`id rev R`).
#[derive(Debug, Clone, Copy, PartialEq, Eq, Structural)]
pub enum TupleStruct {
    Compound(Compound),
    Stream { is_first: bool },
    Object { ix: usize },
    Reference { is_first: bool },
}

/// The state that a tuple struct named `name` begins in.
pub open spec fn tuple_struct_for(name: Seq<char>) -> TupleStruct {
    if name == NAME_STREAM@ {
        TupleStruct::Stream { is_first: true }
    } else if name == NAME_OBJECT@ {
        TupleStruct::Object { ix: 0 }
    } else if name == NAME_REFERENCE@ {
        TupleStruct::Reference { is_first: true }
    } else {
        TupleStruct::Compound(Compound { is_first: true })
    }
}

/// What goes before the field of a tuple struct in the state `t`.
pub open spec fn tuple_field_prefix(t: TupleStruct) -> Seq<u8> {
    match t {
        TupleStruct::Compound(c) => if c.is_first { Seq::empty() } else { lit(" ") },
        TupleStruct::Stream { is_first } => if is_first { Seq::empty() } else { lit("\n") },
        TupleStruct::Object { ix } => if ix == 1 { lit(" ") } else if ix == 2 { lit(" obj\n") } else { Seq::empty() },
        TupleStruct::Reference { is_first } => if is_first { Seq::empty() } else { lit(" ") },
    }
}

/// The state after a field of a tuple struct.
pub open spec fn tuple_field_next(t: TupleStruct) -> TupleStruct {
    match t {
        TupleStruct::Compound(c) => TupleStruct::Compound(Compound { is_first: false }),
        TupleStruct::Stream { is_first } => TupleStruct::Stream { is_first: false },
        TupleStruct::Object { ix } => TupleStruct::Object { ix: (ix + 1) as usize },
        TupleStruct::Reference { is_first } => TupleStruct::Reference { is_first: false },
    }
}

/// What ends a tuple struct in the state `t`.
pub open spec fn tuple_end(t: TupleStruct) -> Seq<u8> {
    match t {
        TupleStruct::Compound(_) => lit("]"),
        TupleStruct::Stream { .. } => lit("\n"),
        TupleStruct::Object { .. } => lit("\nendobj\n\n"),
        TupleStruct::Reference { .. } => lit(" R"),
    }
}

impl TupleStruct {
    /// Before a field of the tuple struct.
    pub fn serialize_field(&mut self, ser: &mut Serializer)
        requires
            (*old(self) is Object ==> (*old(self))->ix < usize::MAX),
        ensures
            *final(self) == tuple_field_next(*old(self)),
            final(ser).bytes() == old(ser).bytes() + tuple_field_prefix(*old(self)),
            final(ser).depth() == old(ser).depth(),
    {
        match self {
            TupleStruct::Compound(c) => {
                let mut c2 = *c;
                c2.serialize_element(ser);
                *self = TupleStruct::Compound(c2);
            },
            TupleStruct::Stream { is_first } => {
                if *is_first {
                    assert(ser.bytes() =~= old(ser).bytes() + Seq::<u8>::empty());
                } else {
                    ser.write_str("\n");
                }
                *self = TupleStruct::Stream { is_first: false };
            },
            TupleStruct::Object { ix } => {
                let i = *ix;
                if i == 1 {
                    ser.write_str(" ");
                } else if i == 2 {
                    ser.write_str(" obj\n");
                } else {
                    assert(ser.bytes() =~= old(ser).bytes() + Seq::<u8>::empty());
                }
                *self = TupleStruct::Object { ix: i + 1 };
            },
            TupleStruct::Reference { is_first } => {
                if *is_first {
                    assert(ser.bytes() =~= old(ser).bytes() + Seq::<u8>::empty());
                } else {
                    ser.write_str(" ");
                }
                *self = TupleStruct::Reference { is_first: false };
            },
        }
    }

    /// Ends the tuple struct.
    pub fn end(self, ser: &mut Serializer)
        ensures
            final(ser).bytes() == old(ser).bytes() + tuple_end(self),
            final(ser).depth() == old(ser).depth(),
    {
        match self {
            TupleStruct::Compound(c) => c.end_seq(ser),
            TupleStruct::Stream { .. } => ser.write_str("\n"),
            TupleStruct::Object { .. } => ser.write_str("\nendobj\n\n"),
            TupleStruct::Reference { .. } => ser.write_str(" R"),
        }
    }
}

} // verus!
