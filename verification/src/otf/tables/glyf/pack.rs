//! Writing glyph data, and reading back what was written.
use vstd::prelude::*;
use crate::big_endian::{be16, bei16, get_i16, get_u16, i8_bits, i8_to_bits, lemma_get_i16, lemma_get_u16, lemma_i8_bits, write_bytes, write_i16, write_u16};
use crate::otf::tables::glyf::{align4, args_at, component_at, components_from, components_size, glyph_at, scale_at, Args, Component, DescriptionView, GlyphData, GlyphDescription, GlyphView, Scale, ARGS_ARE_XY_VALUES, ARG_1_AND_2_ARE_WORDS, MORE_COMPONENTS, WE_HAVE_AN_X_AND_Y_SCALE, WE_HAVE_A_SCALE, WE_HAVE_A_TWO_BY_TWO, WE_HAVE_INSTRUCTIONS};
use crate::otf::error::FontError;

verus! {

/// Which scale a component has: 0 none, 1 one scale, 2 x and y scales, 3 a two by two.
pub open spec fn scale_kind(s: Option<Scale>) -> u8 {
    match s {
        None => 0,
        Some(Scale::Simple(_)) => 1,
        Some(Scale::XY { .. }) => 2,
        Some(Scale::TwoByTwo { .. }) => 3,
    }
}

/// The arguments are 16-bit words.
pub open spec fn args_words(a: Args) -> bool {
    a is U16 || a is I16
}

/// The arguments are x and y values.
pub open spec fn args_xy(a: Args) -> bool {
    a is I16 || a is I8
}

/// The flags `f` with the bits set that the arguments, the scale, the position of the component
/// and the presence of instructions call for.
pub open spec fn packed_flags(f: u16, words: bool, xy: bool, kind: u8, last: bool, instr: bool) -> u16 {
    let f1 = if words { f | 0x0001u16 } else { f & !0x0001u16 };
    let f2 = if xy { f1 | 0x0002u16 } else { f1 & !0x0002u16 };
    let f3 = f2 & !0x0008u16 & !0x0040u16 & !0x0080u16;
    let f4 = if kind == 1 {
        f3 | 0x0008u16
    } else if kind == 2 {
        f3 | 0x0040u16
    } else if kind == 3 {
        f3 | 0x0080u16
    } else {
        f3
    };
    let f5 = if !last { f4 | 0x0020u16 } else { f4 };
    if last && instr { f5 | 0x0100u16 } else { f5 & !0x0100u16 }
}

/// The flags that `pack` writes for the component `c`.
pub open spec fn component_flags(c: Component, last: bool, instr: bool) -> u16 {
    packed_flags(c.flags, args_words(c.args), args_xy(c.args), scale_kind(c.scale), last, instr)
}

/// What the written flags say about the component.
pub proof fn lemma_packed_flags(f: u16, words: bool, xy: bool, kind: u8, last: bool, instr: bool)
    requires
        kind <= 3,
    ensures
        ({
            let g = packed_flags(f, words, xy, kind, last, instr);
            &&& (g & 0x0001u16 != 0) == words
            &&& (g & 0x0002u16 != 0) == xy
            &&& (g & 0x0008u16 != 0) == (kind == 1)
            &&& kind != 1 ==> ((g & 0x0040u16 != 0) == (kind == 2))
            &&& kind != 1 && kind != 2 ==> ((g & 0x0080u16 != 0) == (kind == 3))
            &&& !last ==> (g & 0x0020u16 != 0)
            &&& last ==> ((g & 0x0020u16) == (f & 0x0020u16))
            &&& last ==> ((g & 0x0100u16 != 0) == instr)
        }),
{
    let f1 = if words { f | 0x0001u16 } else { f & !0x0001u16 };
    let f2 = if xy { f1 | 0x0002u16 } else { f1 & !0x0002u16 };
    let f3 = f2 & !0x0008u16 & !0x0040u16 & !0x0080u16;
    let f4 = if kind == 1 {
        f3 | 0x0008u16
    } else if kind == 2 {
        f3 | 0x0040u16
    } else if kind == 3 {
        f3 | 0x0080u16
    } else {
        f3
    };
    let f5 = if !last { f4 | 0x0020u16 } else { f4 };
    let g = if last && instr { f5 | 0x0100u16 } else { f5 & !0x0100u16 };
    assert((f | 0x0001u16) & 0x0001u16 != 0 && (f & !0x0001u16) & 0x0001u16 == 0) by (bit_vector);
    assert((f1 | 0x0002u16) & 0x0002u16 != 0 && (f1 & !0x0002u16) & 0x0002u16 == 0) by (bit_vector);
    assert((f1 | 0x0002u16) & 0x0001u16 == f1 & 0x0001u16 && (f1 & !0x0002u16) & 0x0001u16 == f1 & 0x0001u16) by (bit_vector);
    assert(f3 & 0x0008u16 == 0 && f3 & 0x0040u16 == 0 && f3 & 0x0080u16 == 0 && f3 & 0x0003u16 == f2 & 0x0003u16
        && f3 & 0x0020u16 == f2 & 0x0020u16) by (bit_vector)
        requires f3 == f2 & !0x0008u16 & !0x0040u16 & !0x0080u16;
    assert(f2 & 0x0020u16 == f & 0x0020u16) by (bit_vector)
        requires
            f1 == (if words { f | 0x0001u16 } else { f & !0x0001u16 }),
            f2 == (if xy { f1 | 0x0002u16 } else { f1 & !0x0002u16 });
    assert(f2 & 0x0001u16 == f1 & 0x0001u16) by (bit_vector)
        requires f2 == (if xy { f1 | 0x0002u16 } else { f1 & !0x0002u16 });
    assert(f4 & 0x0003u16 == f3 & 0x0003u16 && f4 & 0x0020u16 == f3 & 0x0020u16
        && (f4 & 0x0008u16 != 0) == (kind == 1) && (kind != 1 ==> ((f4 & 0x0040u16 != 0) == (kind == 2)))
        && (kind != 1 && kind != 2 ==> ((f4 & 0x0080u16 != 0) == (kind == 3)))) by (bit_vector)
        requires
            f3 & 0x0008u16 == 0,
            f3 & 0x0040u16 == 0,
            f3 & 0x0080u16 == 0,
            f4 == (if kind == 1 { f3 | 0x0008u16 } else if kind == 2 { f3 | 0x0040u16 } else if kind == 3 { f3 | 0x0080u16 } else { f3 });
    assert(g & 0x00CBu16 == f4 & 0x00CBu16 && (!last ==> (g & 0x0020u16 != 0))
        && (last ==> ((g & 0x0020u16) == (f4 & 0x0020u16))) && (last ==> ((g & 0x0100u16 != 0) == instr))) by (bit_vector)
        requires
            f5 == (if !last { f4 | 0x0020u16 } else { f4 }),
            g == (if last && instr { f5 | 0x0100u16 } else { f5 & !0x0100u16 });
    assert((g & 0x0001u16 != 0) == (f4 & 0x0001u16 != 0) && (g & 0x0002u16 != 0) == (f4 & 0x0002u16 != 0)
        && (g & 0x0008u16 != 0) == (f4 & 0x0008u16 != 0) && (g & 0x0040u16 != 0) == (f4 & 0x0040u16 != 0)
        && (g & 0x0080u16 != 0) == (f4 & 0x0080u16 != 0)) by (bit_vector)
        requires g & 0x00CBu16 == f4 & 0x00CBu16;
    assert((f4 & 0x0001u16 != 0) == (f3 & 0x0001u16 != 0) && (f4 & 0x0002u16 != 0) == (f3 & 0x0002u16 != 0)) by (bit_vector)
        requires f4 & 0x0003u16 == f3 & 0x0003u16;
    assert((f3 & 0x0001u16 != 0) == (f2 & 0x0001u16 != 0) && (f3 & 0x0002u16 != 0) == (f2 & 0x0002u16 != 0)) by (bit_vector)
        requires f3 & 0x0003u16 == f2 & 0x0003u16;
}

/// The bytes of the arguments.
pub open spec fn args_bytes(a: Args) -> Seq<u8> {
    match a {
        Args::U16(x, y) => be16(x) + be16(y),
        Args::I16(x, y) => bei16(x) + bei16(y),
        Args::U8(x, y) => seq![x, y],
        Args::I8(x, y) => seq![i8_bits(x), i8_bits(y)],
    }
}

/// The bytes of an optional scale.
pub open spec fn scale_bytes(s: Option<Scale>) -> Seq<u8> {
    match s {
        None => Seq::empty(),
        Some(Scale::Simple(v)) => bei16(v),
        Some(Scale::XY { x, y }) => bei16(x) + bei16(y),
        Some(Scale::TwoByTwo { x, scale01, scale10, y }) => bei16(x) + bei16(scale01) + bei16(scale10) + bei16(y),
    }
}

/// The bytes that `pack` writes for a component.
pub open spec fn component_bytes(c: Component, last: bool, instr: bool) -> Seq<u8> {
    be16(component_flags(c, last, instr)) + be16(c.glyph_index) + args_bytes(c.args) + scale_bytes(c.scale)
}

/// The bytes of the first `k` of the components `cs`.
pub open spec fn components_bytes(cs: Seq<Component>, k: nat, instr: bool) -> Seq<u8>
    decreases k,
{
    if k == 0 {
        Seq::empty()
    } else {
        components_bytes(cs, (k - 1) as nat, instr) + component_bytes(
            cs[k - 1],
            k - 1 == cs.len() - 1,
            instr,
        )
    }
}

/// The bytes of the instructions: their length, then them.
pub open spec fn instruction_bytes(i: Option<Seq<u8>>) -> Seq<u8> {
    match i {
        Some(v) => be16((v.len() % 65536) as u16) + v,
        None => Seq::empty(),
    }
}

/// The bytes of a description.
pub open spec fn description_bytes(d: DescriptionView) -> Seq<u8> {
    match d {
        DescriptionView::Simple(v) => v,
        DescriptionView::Composite(c, i) => components_bytes(c, c.len(), i is Some) + instruction_bytes(i),
    }
}

/// The bytes of the header of a glyph.
pub open spec fn header_bytes(g: GlyphView) -> Seq<u8> {
    bei16(g.number_of_contours) + bei16(g.x_min) + bei16(g.y_min) + bei16(g.x_max) + bei16(g.y_max)
}

/// The bytes of a glyph before its padding.
pub open spec fn glyph_bytes(g: GlyphView) -> Seq<u8> {
    header_bytes(g) + description_bytes(g.description)
}

/// The bytes that `pack` writes: the glyph, then zeros up to a multiple of 4 bytes.
pub open spec fn spec_pack(g: GlyphView) -> Seq<u8> {
    glyph_bytes(g) + Seq::new((align4(glyph_bytes(g).len()) - glyph_bytes(g).len()) as nat, |i: int| 0u8)
}

proof fn lemma_component_bytes_len(c: Component, last: bool, instr: bool)
    ensures
        component_bytes(c, last, instr).len() == c.spec_size(),
{
}

proof fn lemma_components_bytes_len(cs: Seq<Component>, k: nat, instr: bool)
    requires
        k <= cs.len(),
    ensures
        components_bytes(cs, k, instr).len() == components_size(cs.take(k as int)),
    decreases k,
{
    if k > 0 {
        lemma_components_bytes_len(cs, (k - 1) as nat, instr);
        lemma_component_bytes_len(cs[k - 1], k - 1 == cs.len() - 1, instr);
        assert(cs.take(k as int).drop_last() =~= cs.take(k - 1));
    }
}

/// What `pack` writes is `size_in_byte` bytes long.
pub proof fn lemma_pack_len(g: GlyphView)
    ensures
        spec_pack(g).len() == g.spec_size(),
{
    if let DescriptionView::Composite(c, i) = g.description {
        lemma_components_bytes_len(c, c.len(), i is Some);
        assert(c.take(c.len() as int) =~= c);
    }
}

fn write_args(out: &mut Vec<u8>, a: Args)
    ensures
        final(out)@ == old(out)@ + args_bytes(a),
{
    match a {
        Args::U16(x, y) => {
            write_u16(out, x);
            write_u16(out, y);
        },
        Args::I16(x, y) => {
            write_i16(out, x);
            write_i16(out, y);
        },
        Args::U8(x, y) => {
            out.push(x);
            out.push(y);
        },
        Args::I8(x, y) => {
            out.push(i8_to_bits(x));
            out.push(i8_to_bits(y));
        },
    }
    assert(final(out)@ =~= old(out)@ + args_bytes(a));
}

fn write_scale(out: &mut Vec<u8>, s: Option<Scale>)
    ensures
        final(out)@ == old(out)@ + scale_bytes(s),
{
    match s {
        None => {},
        Some(Scale::Simple(v)) => write_i16(out, v),
        Some(Scale::XY { x, y }) => {
            write_i16(out, x);
            write_i16(out, y);
        },
        Some(Scale::TwoByTwo { x, scale01, scale10, y }) => {
            write_i16(out, x);
            write_i16(out, scale01);
            write_i16(out, scale10);
            write_i16(out, y);
        },
    }
    assert(final(out)@ =~= old(out)@ + scale_bytes(s));
}

fn flags_of(c: &Component, last: bool, instr: bool) -> (r: u16)
    ensures
        r == component_flags(*c, last, instr),
{
    let mut flags = c.flags;
    match c.args {
        Args::I16(_, _) | Args::U16(_, _) => flags = flags | ARG_1_AND_2_ARE_WORDS,
        Args::I8(_, _) | Args::U8(_, _) => flags = flags & !ARG_1_AND_2_ARE_WORDS,
    }
    match c.args {
        Args::I16(_, _) | Args::I8(_, _) => flags = flags | ARGS_ARE_XY_VALUES,
        Args::U16(_, _) | Args::U8(_, _) => flags = flags & !ARGS_ARE_XY_VALUES,
    }
    flags = flags & !WE_HAVE_A_SCALE;
    flags = flags & !WE_HAVE_AN_X_AND_Y_SCALE;
    flags = flags & !WE_HAVE_A_TWO_BY_TWO;
    match c.scale {
        Some(Scale::Simple(_)) => flags = flags | WE_HAVE_A_SCALE,
        Some(Scale::XY { .. }) => flags = flags | WE_HAVE_AN_X_AND_Y_SCALE,
        Some(Scale::TwoByTwo { .. }) => flags = flags | WE_HAVE_A_TWO_BY_TWO,
        None => {},
    }
    if !last {
        flags = flags | MORE_COMPONENTS;
    }
    if last && instr {
        flags = flags | WE_HAVE_INSTRUCTIONS;
    } else {
        flags = flags & !WE_HAVE_INSTRUCTIONS;
    }
    flags
}

impl GlyphData {
    /// Appends the glyph to `out`, padded with zeros to a multiple of 4 bytes; the flags of each
    /// component are set as its arguments, scale and position call for.
    pub fn pack(&self, out: &mut Vec<u8>)
        ensures
            final(out)@ == old(out)@ + spec_pack(self@),
            final(out)@.len() == old(out)@.len() + self@.spec_size(),
    {
        let ghost start = out@;
        let start_len = out.len();
        write_i16(out, self.number_of_contours);
        write_i16(out, self.x_min);
        write_i16(out, self.y_min);
        write_i16(out, self.x_max);
        write_i16(out, self.y_max);
        let ghost header = bei16(self.number_of_contours) + bei16(self.x_min) + bei16(self.y_min) + bei16(
            self.x_max,
        ) + bei16(self.y_max);
        assert(out@ =~= start + header);
        match &self.description {
            GlyphDescription::Simple(desc) => {
                write_bytes(out, desc.as_slice());
            },
            GlyphDescription::Composite(composite) => {
                let components = &composite.components;
                let instr = composite.instructions.is_some();
                let n = components.len();
                let mut k: usize = 0;
                while k < n
                    invariant
                        k <= n == components@.len(),
                        instr == composite.instructions is Some,
                        out@ == start + header + components_bytes(components@, k as nat, instr),
                    decreases n - k,
                {
                    let c = components[k];
                    let flags = flags_of(&c, k + 1 == n, instr);
                    let ghost before = out@;
                    write_u16(out, flags);
                    write_u16(out, c.glyph_index);
                    write_args(out, c.args);
                    write_scale(out, c.scale);
                    assert(out@ =~= before + component_bytes(c, k == n - 1, instr));
                    k = k + 1;
                }
                if let Some(instructions) = &composite.instructions {
                    write_u16(out, (instructions.len() % 65536) as u16);
                    write_bytes(out, instructions.as_slice());
                }
                assert(out@ =~= start + glyph_bytes(self@));
            },
        }
        proof {
            lemma_pack_len(self@);
        }
        let ghost body = out@;
        assert(body =~= start + glyph_bytes(self@));
        let written = out.len() - start_len;
        assert(written == glyph_bytes(self@).len());
        let pad = (4 - written % 4) % 4;
        assert(pad == align4(glyph_bytes(self@).len()) - glyph_bytes(self@).len());
        let mut i: usize = 0;
        while i < pad
            invariant
                i <= pad,
                out@ == body + Seq::new(i as nat, |j: int| 0u8),
            decreases pad - i,
        {
            out.push(0);
            i = i + 1;
            assert(out@ =~= body + Seq::new(i as nat, |j: int| 0u8));
        }
        assert(final(out)@ =~= start + spec_pack(self@));
    }
}

/// A glyph that reading back what `pack` wrote gives again: a simple glyph without padding, or
/// a composite glyph of one to nine components whose flags are those that `pack` writes, with
/// no more components after the last, and with instructions that a `u16` counts.
pub open spec fn is_packable(g: GlyphView) -> bool {
    match g.description {
        DescriptionView::Simple(v) => g.number_of_contours >= 0 && (10 + v.len()) % 4 == 0,
        DescriptionView::Composite(cs, ins) => {
            &&& g.number_of_contours < 0
            &&& 1 <= cs.len() <= 9
            &&& forall|i: int|
                0 <= i < cs.len() ==> (#[trigger] cs[i]).flags == component_flags(
                    cs[i],
                    i == cs.len() - 1,
                    ins is Some,
                )
            &&& cs.last().flags & MORE_COMPONENTS == 0
            &&& match ins {
                Some(v) => v.len() <= 0xFFFF,
                None => true,
            }
        },
    }
}

proof fn lemma_scale_kind(s: Option<Scale>)
    ensures
        scale_kind(s) <= 3,
{
}

/// Where the bytes from `p` on are `x + y`, those from `p` on are `x`, then `y`.
proof fn lemma_split(s: Seq<u8>, p: int, x: Seq<u8>, y: Seq<u8>)
    requires
        0 <= p,
        p + x.len() + y.len() <= s.len(),
        s.subrange(p, p + x.len() + y.len()) == x + y,
    ensures
        s.subrange(p, p + x.len()) == x,
        s.subrange(p + x.len(), p + x.len() + y.len()) == y,
{
    assert(s.subrange(p, p + x.len()) =~= (x + y).subrange(0, x.len() as int));
    assert(s.subrange(p + x.len(), p + x.len() + y.len()) =~= (x + y).subrange(
        x.len() as int,
        (x.len() + y.len()) as int,
    ));
}

proof fn lemma_args_roundtrip(s: Seq<u8>, p: int, a: Args, f: u16)
    requires
        0 <= p,
        p + args_bytes(a).len() <= s.len(),
        s.subrange(p, p + args_bytes(a).len()) == args_bytes(a),
        (f & 0x0001u16 != 0) == args_words(a),
        (f & 0x0002u16 != 0) == args_xy(a),
    ensures
        args_at(s, p, f) == Some((a, p + args_bytes(a).len())),
{
    match a {
        Args::U16(x, y) => {
            lemma_split(s, p, be16(x), be16(y));
            lemma_get_u16(s, p, x);
            lemma_get_u16(s, p + 2, y);
        },
        Args::I16(x, y) => {
            lemma_split(s, p, bei16(x), bei16(y));
            lemma_get_i16(s, p, x);
            lemma_get_i16(s, p + 2, y);
        },
        Args::U8(x, y) => {
            assert(s[p] == s.subrange(p, p + 2)[0]);
            assert(s[p + 1] == s.subrange(p, p + 2)[1]);
        },
        Args::I8(x, y) => {
            assert(s[p] == s.subrange(p, p + 2)[0]);
            assert(s[p + 1] == s.subrange(p, p + 2)[1]);
            lemma_i8_bits(x);
            lemma_i8_bits(y);
        },
    }
}

proof fn lemma_scale_roundtrip(s: Seq<u8>, q: int, sc: Option<Scale>, f: u16)
    requires
        0 <= q,
        q + scale_bytes(sc).len() <= s.len(),
        s.subrange(q, q + scale_bytes(sc).len()) == scale_bytes(sc),
        (f & 0x0008u16 != 0) == (scale_kind(sc) == 1),
        scale_kind(sc) != 1 ==> ((f & 0x0040u16 != 0) == (scale_kind(sc) == 2)),
        scale_kind(sc) != 1 && scale_kind(sc) != 2 ==> ((f & 0x0080u16 != 0) == (scale_kind(sc) == 3)),
    ensures
        scale_at(s, q, f) == Some((sc, q + scale_bytes(sc).len())),
{
    match sc {
        None => {},
        Some(Scale::Simple(v)) => {
            lemma_get_i16(s, q, v);
        },
        Some(Scale::XY { x, y }) => {
            lemma_split(s, q, bei16(x), bei16(y));
            lemma_get_i16(s, q, x);
            lemma_get_i16(s, q + 2, y);
        },
        Some(Scale::TwoByTwo { x, scale01, scale10, y }) => {
            lemma_split(s, q, bei16(x) + bei16(scale01) + bei16(scale10), bei16(y));
            lemma_split(s, q, bei16(x) + bei16(scale01), bei16(scale10));
            lemma_split(s, q, bei16(x), bei16(scale01));
            lemma_get_i16(s, q, x);
            lemma_get_i16(s, q + 2, scale01);
            lemma_get_i16(s, q + 4, scale10);
            lemma_get_i16(s, q + 6, y);
        },
    }
}

/// Reading a component from the bytes that `pack` wrote for it gives it back.
proof fn lemma_component_roundtrip(s: Seq<u8>, p: int, c: Component, last: bool, instr: bool)
    requires
        0 <= p,
        p + component_bytes(c, last, instr).len() <= s.len(),
        s.subrange(p, p + component_bytes(c, last, instr).len()) == component_bytes(c, last, instr),
        c.flags == component_flags(c, last, instr),
        last ==> c.flags & MORE_COMPONENTS == 0,
    ensures
        component_at(s, p) == Some((c, p + component_bytes(c, last, instr).len())),
        (c.flags & MORE_COMPONENTS != 0) == !last,
{
    let f = c.flags;
    lemma_scale_kind(c.scale);
    lemma_packed_flags(f, args_words(c.args), args_xy(c.args), scale_kind(c.scale), last, instr);
    let h = be16(f) + be16(c.glyph_index);
    lemma_split(s, p, h + args_bytes(c.args), scale_bytes(c.scale));
    lemma_split(s, p, h, args_bytes(c.args));
    lemma_split(s, p, be16(f), be16(c.glyph_index));
    lemma_get_u16(s, p, f);
    lemma_get_u16(s, p + 2, c.glyph_index);
    lemma_args_roundtrip(s, p + 4, c.args, f);
    lemma_scale_roundtrip(s, p + 4 + args_bytes(c.args).len(), c.scale, f);
}

/// The number of bytes of an optional scale.
pub open spec fn opt_scale_size_of(s: Option<Scale>) -> int {
    match s {
        None => 0,
        Some(Scale::Simple(_)) => 2,
        Some(Scale::XY { .. }) => 4,
        Some(Scale::TwoByTwo { .. }) => 8,
    }
}

/// The bytes of the first components begin the bytes of more of them.
proof fn lemma_components_prefix(cs: Seq<Component>, i: nat, j: nat, instr: bool)
    requires
        i <= j <= cs.len(),
    ensures
        components_bytes(cs, i, instr).len() <= components_bytes(cs, j, instr).len(),
        components_bytes(cs, j, instr).subrange(0, components_bytes(cs, i, instr).len() as int)
            == components_bytes(cs, i, instr),
    decreases j - i,
{
    if i < j {
        lemma_components_prefix(cs, i, (j - 1) as nat, instr);
        let a = components_bytes(cs, (j - 1) as nat, instr);
        let n = components_bytes(cs, i, instr).len() as int;
        assert(components_bytes(cs, j, instr).subrange(0, n) =~= a.subrange(0, n));
    } else {
        assert(components_bytes(cs, i, instr).subrange(0, components_bytes(cs, i, instr).len() as int)
            =~= components_bytes(cs, i, instr));
    }
}

/// The bytes of the `i`-th component stand where the bytes of the ones before it end.
proof fn lemma_component_slice(s: Seq<u8>, cs: Seq<Component>, instr: bool, i: nat)
    requires
        i < cs.len(),
        10 + components_bytes(cs, cs.len(), instr).len() <= s.len(),
        s.subrange(10, 10 + components_bytes(cs, cs.len(), instr).len() as int) == components_bytes(
            cs,
            cs.len(),
            instr,
        ),
    ensures
        ({
            let a = components_bytes(cs, i, instr);
            let c = component_bytes(cs[i as int], i == cs.len() - 1, instr);
            &&& 10 + a.len() + c.len() <= 10 + components_bytes(cs, cs.len(), instr).len()
            &&& s.subrange(10 + a.len() as int, 10 + a.len() + c.len() as int) == c
            &&& components_bytes(cs, i + 1, instr).len() == a.len() + c.len()
        }),
{
    let n = cs.len();
    let all = components_bytes(cs, n, instr);
    let a = components_bytes(cs, i, instr);
    let c = component_bytes(cs[i as int], i == n - 1, instr);
    let b = components_bytes(cs, i + 1, instr);
    lemma_components_prefix(cs, i + 1, n, instr);
    assert(b == a + c);
    assert(s.subrange(10 + a.len() as int, 10 + a.len() + c.len() as int) =~= all.subrange(a.len() as int, (a.len() + c.len()) as int));
    assert(all.subrange(a.len() as int, (a.len() + c.len()) as int) =~= b.subrange(a.len() as int, b.len() as int));
}

/// Reading the components of a packed composite glyph from the `i`-th on gives them back.
#[verifier::rlimit(30)]
proof fn lemma_components_roundtrip(s: Seq<u8>, cs: Seq<Component>, instr: bool, i: nat)
    requires
        1 <= cs.len() <= 9,
        i < cs.len(),
        forall|k: int|
            0 <= k < cs.len() ==> (#[trigger] cs[k]).flags == component_flags(cs[k], k == cs.len() - 1, instr),
        cs.last().flags & MORE_COMPONENTS == 0,
        10 + components_bytes(cs, cs.len(), instr).len() <= s.len(),
        s.subrange(10, 10 + components_bytes(cs, cs.len(), instr).len() as int) == components_bytes(
            cs,
            cs.len(),
            instr,
        ),
    ensures
        components_from(s, 10 + components_bytes(cs, i, instr).len() as int, i) == Some(
            Ok::<(Seq<Component>, int), FontError>(
                (cs.subrange(i as int, cs.len() as int), 10 + components_bytes(cs, cs.len(), instr).len() as int),
            ),
        ),
    decreases cs.len() - i,
{
    let n = cs.len();
    let p = 10 + components_bytes(cs, i, instr).len() as int;
    let c = cs[i as int];
    let last = i == n - 1;
    lemma_component_slice(s, cs, instr, i);
    assert(c.flags == component_flags(c, last, instr));
    if last {
        assert(c == cs.last());
    }
    lemma_component_roundtrip(s, p, c, last, instr);
    let q = 10 + components_bytes(cs, i + 1, instr).len() as int;
    assert(component_at(s, p) == Some((c, q)));
    if !last {
        lemma_components_roundtrip(s, cs, instr, i + 1);
        assert(seq![c] + cs.subrange(i + 1 as int, n as int) =~= cs.subrange(i as int, n as int));
    } else {
        assert(seq![c] =~= cs.subrange(i as int, n as int));
        assert(q == 10 + components_bytes(cs, cs.len(), instr).len());
    }
}

proof fn lemma_header_roundtrip(s: Seq<u8>, g: GlyphView)
    requires
        10 <= s.len(),
        s.subrange(0, 10) == header_bytes(g),
    ensures
        get_i16(s, 0) == g.number_of_contours,
        get_i16(s, 2) == g.x_min,
        get_i16(s, 4) == g.y_min,
        get_i16(s, 6) == g.x_max,
        get_i16(s, 8) == g.y_max,
{
    let a = bei16(g.number_of_contours);
    let b = bei16(g.x_min);
    let c = bei16(g.y_min);
    let d = bei16(g.x_max);
    let e = bei16(g.y_max);
    lemma_split(s, 0, a + b + c + d, e);
    lemma_split(s, 0, a + b + c, d);
    lemma_split(s, 0, a + b, c);
    lemma_split(s, 0, a, b);
    lemma_get_i16(s, 0, g.number_of_contours);
    lemma_get_i16(s, 2, g.x_min);
    lemma_get_i16(s, 4, g.y_min);
    lemma_get_i16(s, 6, g.x_max);
    lemma_get_i16(s, 8, g.y_max);
}

#[verifier::rlimit(30)]
proof fn lemma_composite_roundtrip(s: Seq<u8>, g: GlyphView, cs: Seq<Component>, ins: Option<Seq<u8>>)
    requires
        is_packable(g),
        g.description == DescriptionView::Composite(cs, ins),
        10 + description_bytes(g.description).len() <= s.len(),
        s.subrange(10, 10 + description_bytes(g.description).len() as int) == description_bytes(g.description),
        s.len() >= 10,
        get_i16(s, 0) == g.number_of_contours,
        get_i16(s, 2) == g.x_min,
        get_i16(s, 4) == g.y_min,
        get_i16(s, 6) == g.x_max,
        get_i16(s, 8) == g.y_max,
    ensures
        glyph_at(s) == Some(Ok::<GlyphView, FontError>(g)),
{
    let instr = ins is Some;
    let n = cs.len();
    let cb = components_bytes(cs, n, instr);
    let ib = instruction_bytes(ins);
    lemma_split(s, 10, cb, ib);
    assert(components_bytes(cs, 0, instr).len() == 0);
    lemma_components_roundtrip(s, cs, instr, 0);
    assert(cs.subrange(0, n as int) =~= cs);
    let p = 10 + cb.len() as int;
    let last = cs.last();
    assert(last == cs[n - 1]);
    lemma_scale_kind(last.scale);
    lemma_packed_flags(last.flags, args_words(last.args), args_xy(last.args), scale_kind(last.scale), true, instr);
    assert((last.flags & WE_HAVE_INSTRUCTIONS != 0) == instr);
    match ins {
        Some(v) => {
            lemma_split(s, p, be16((v.len() % 65536) as u16), v);
            lemma_get_u16(s, p, (v.len() % 65536) as u16);
            assert(get_u16(s, p) == v.len());
        },
        None => {},
    }
    assert(glyph_at(s) =~~= Some(Ok::<GlyphView, FontError>(g)));
}

/// Reading back what `pack` wrote for a glyph gives the glyph again.
pub proof fn lemma_pack_unpack(g: GlyphView)
    requires
        is_packable(g),
    ensures
        glyph_at(spec_pack(g)) == Some(Ok::<GlyphView, FontError>(g)),
{
    let s = spec_pack(g);
    let body = glyph_bytes(g);
    let pad = Seq::new((align4(body.len()) - body.len()) as nat, |i: int| 0u8);
    assert(s.subrange(0, (body.len() + pad.len()) as int) =~= body + pad);
    lemma_split(s, 0, body, pad);
    lemma_split(s, 0, header_bytes(g), description_bytes(g.description));
    lemma_header_roundtrip(s, g);
    match g.description {
        DescriptionView::Simple(v) => {
            assert(s =~= body);
            assert(glyph_at(s) =~~= Some(Ok::<GlyphView, FontError>(g)));
        },
        DescriptionView::Composite(cs, ins) => {
            lemma_composite_roundtrip(s, g, cs, ins);
        },
    }
}

} // verus!
