//! The 'glyf' table: the outlines of the glyphs.
use vstd::prelude::*;
use crate::big_endian::{be_i16_value, be_u16_value, lemma_get_u16_value, get_i16, get_u16, i8_from_bits, i8_of_bits, read_i16_at, read_u16_at};
use crate::otf::error::FontError;

pub mod pack;
pub mod table;

verus! {

/// The component's arguments are 16-bit words.
pub const ARG_1_AND_2_ARE_WORDS: u16 = 0x0001;
/// The component's arguments are x and y offsets, not point numbers.
pub const ARGS_ARE_XY_VALUES: u16 = 0x0002;
/// The component has one scale.
pub const WE_HAVE_A_SCALE: u16 = 0x0008;
/// Another component follows.
pub const MORE_COMPONENTS: u16 = 0x0020;
/// The component has an x and a y scale.
pub const WE_HAVE_AN_X_AND_Y_SCALE: u16 = 0x0040;
/// The component has a two by two transformation.
pub const WE_HAVE_A_TWO_BY_TWO: u16 = 0x0080;
/// Instructions follow the last component.
pub const WE_HAVE_INSTRUCTIONS: u16 = 0x0100;

/// The data of one glyph.
/// See https://docs.microsoft.com/en-us/typography/opentype/spec/glyf
#[derive(Debug, PartialEq, Clone)]
pub struct GlyphData {
    /// Non-negative for a simple glyph, negative for a composite glyph.
    pub number_of_contours: i16,
    /// Minimum x for coordinate data.
    pub x_min: i16,
    /// Minimum y for coordinate data.
    pub y_min: i16,
    /// Maximum x for coordinate data.
    pub x_max: i16,
    /// Maximum y for coordinate data.
    pub y_max: i16,
    /// The glyph description.
    pub description: GlyphDescription,
}

#[derive(Debug, PartialEq, Clone)]
pub enum GlyphDescription {
    /// The unparsed description of a simple glyph.
    Simple(Vec<u8>),
    Composite(CompositeDescription),
}

#[derive(Debug, PartialEq, Clone)]
pub struct CompositeDescription {
    pub components: Vec<Component>,
    pub instructions: Option<Vec<u8>>,
}

#[derive(Debug, PartialEq, Eq, Clone, Copy, Structural)]
pub struct Component {
    pub flags: u16,
    pub glyph_index: u16,
    pub args: Args,
    pub scale: Option<Scale>,
}

#[derive(Debug, PartialEq, Eq, Clone, Copy, Structural)]
pub enum Args {
    U16(u16, u16),
    I16(i16, i16),
    U8(u8, u8),
    I8(i8, i8),
}

/// The scale of a component; the values are F2DOT14 numbers.
#[derive(Debug, PartialEq, Eq, Clone, Copy, Structural)]
pub enum Scale {
    Simple(i16),
    XY { x: i16, y: i16 },
    TwoByTwo { x: i16, scale01: i16, scale10: i16, y: i16 },
}

/// The mathematical value of a glyph description.
#[verifier::ext_equal]
pub enum DescriptionView {
    Simple(Seq<u8>),
    Composite(Seq<Component>, Option<Seq<u8>>),
}

/// The mathematical value of a glyph.
#[verifier::ext_equal]
pub struct GlyphView {
    pub number_of_contours: i16,
    pub x_min: i16,
    pub y_min: i16,
    pub x_max: i16,
    pub y_max: i16,
    pub description: DescriptionView,
}

/// The value of optional bytes.
pub open spec fn opt_bytes(o: Option<Vec<u8>>) -> Option<Seq<u8>> {
    match o {
        Some(v) => Some(v@),
        None => None,
    }
}

impl View for GlyphDescription {
    type V = DescriptionView;

    open spec fn view(&self) -> DescriptionView {
        match self {
            GlyphDescription::Simple(v) => DescriptionView::Simple(v@),
            GlyphDescription::Composite(c) => DescriptionView::Composite(
                c.components@,
                opt_bytes(c.instructions),
            ),
        }
    }
}

impl View for GlyphData {
    type V = GlyphView;

    open spec fn view(&self) -> GlyphView {
        GlyphView {
            number_of_contours: self.number_of_contours,
            x_min: self.x_min,
            y_min: self.y_min,
            x_max: self.x_max,
            y_max: self.y_max,
            description: self.description@,
        }
    }
}

impl Args {
    /// The number of bytes of the arguments.
    pub open spec fn spec_size(self) -> nat {
        match self {
            Args::U16(_, _) | Args::I16(_, _) => 4,
            Args::U8(_, _) | Args::I8(_, _) => 2,
        }
    }

    /// The number of bytes of the arguments.
    pub fn size_in_byte(&self) -> (r: usize)
        ensures
            r == self.spec_size(),
    {
        match self {
            Args::U16(_, _) | Args::I16(_, _) => 4,
            Args::U8(_, _) | Args::I8(_, _) => 2,
        }
    }
}

impl Scale {
    /// The number of bytes of the scale.
    pub open spec fn spec_size(self) -> nat {
        match self {
            Scale::Simple(_) => 2,
            Scale::XY { .. } => 4,
            Scale::TwoByTwo { .. } => 8,
        }
    }

    /// The number of bytes of the scale.
    pub fn size_in_byte(&self) -> (r: usize)
        ensures
            r == self.spec_size(),
    {
        match self {
            Scale::Simple(_) => 2,
            Scale::XY { .. } => 4,
            Scale::TwoByTwo { .. } => 8,
        }
    }
}

/// The number of bytes of an optional scale.
pub open spec fn opt_scale_size(s: Option<Scale>) -> nat {
    match s {
        Some(x) => x.spec_size(),
        None => 0,
    }
}

impl Component {
    /// The number of bytes of the component: flags, glyph index, arguments and scale.
    pub open spec fn spec_size(self) -> nat {
        4 + self.args.spec_size() + opt_scale_size(self.scale)
    }

    /// The number of bytes of the component.
    pub fn size_in_byte(&self) -> (r: usize)
        ensures
            r == self.spec_size(),
    {
        4 + self.args.size_in_byte() + match &self.scale {
            Some(s) => s.size_in_byte(),
            None => 0,
        }
    }
}

/// The number of bytes of the components `c`.
pub open spec fn components_size(c: Seq<Component>) -> nat
    decreases c.len(),
{
    if c.len() == 0 {
        0
    } else {
        components_size(c.drop_last()) + c.last().spec_size()
    }
}

/// The number of bytes of optional instructions, with their length.
pub open spec fn opt_instructions_size(i: Option<Seq<u8>>) -> nat {
    match i {
        Some(v) => v.len() + 2,
        None => 0,
    }
}

impl DescriptionView {
    /// The number of bytes of the description.
    pub open spec fn spec_size(self) -> nat {
        match self {
            DescriptionView::Simple(v) => v.len(),
            DescriptionView::Composite(c, i) => components_size(c) + opt_instructions_size(i),
        }
    }
}

/// `n` rounded up to a multiple of 4.
pub open spec fn align4(n: nat) -> nat {
    if n % 4 != 0 { (n + 4 - n % 4) as nat } else { n }
}

impl GlyphView {
    /// The number of bytes of the glyph without the padding to 4 bytes.
    pub open spec fn unaligned_size(self) -> nat {
        10 + self.description.spec_size()
    }

    /// The number of bytes of the glyph, padded to a multiple of 4.
    pub open spec fn spec_size(self) -> nat {
        align4(self.unaligned_size())
    }
}

/// The components' sizes fit into a `usize`.
pub open spec fn sizes_fit(c: Seq<Component>) -> bool {
    12 * c.len() + 16 <= usize::MAX
}

proof fn lemma_components_size_bound(c: Seq<Component>)
    ensures
        components_size(c) <= 16 * c.len(),
    decreases c.len(),
{
    if c.len() > 0 {
        lemma_components_size_bound(c.drop_last());
    }
}

impl GlyphDescription {
    /// The number of bytes of the description.
    pub fn size_in_byte(&self) -> (r: usize)
        requires
            match self {
                GlyphDescription::Simple(_) => true,
                GlyphDescription::Composite(c) => 16 * c.components@.len() + opt_instructions_size(
                    opt_bytes(c.instructions),
                ) + 16 <= usize::MAX,
            },
        ensures
            r == self@.spec_size(),
    {
        match self {
            GlyphDescription::Simple(v) => v.len(),
            GlyphDescription::Composite(c) => c.size_in_byte(),
        }
    }
}

impl CompositeDescription {
    /// The number of bytes of the components and the instructions.
    pub fn size_in_byte(&self) -> (r: usize)
        requires
            16 * self.components@.len() + opt_instructions_size(opt_bytes(self.instructions)) + 16
                <= usize::MAX,
        ensures
            r == components_size(self.components@) + opt_instructions_size(opt_bytes(self.instructions)),
    {
        let mut total: usize = 0;
        let mut k: usize = 0;
        while k < self.components.len()
            invariant
                k <= self.components@.len(),
                16 * self.components@.len() + 16 <= usize::MAX,
                total == components_size(self.components@.take(k as int)),
            decreases self.components@.len() - k,
        {
            proof {
                lemma_components_size_bound(self.components@.take(k as int));
                assert(self.components@.take(k + 1).drop_last() =~= self.components@.take(k as int));
            }
            total = total + self.components[k].size_in_byte();
            k = k + 1;
        }
        assert(self.components@.take(k as int) =~= self.components@);
        proof {
            lemma_components_size_bound(self.components@);
        }
        match &self.instructions {
            Some(i) => total + i.len() + 2,
            None => total,
        }
    }
}

impl GlyphData {
    /// The number of bytes that `pack` writes: the glyph padded to a multiple of 4 bytes.
    pub fn size_in_byte(&self) -> (r: usize)
        requires
            match self.description {
                GlyphDescription::Simple(v) => v@.len() + 16 <= usize::MAX,
                GlyphDescription::Composite(c) => 16 * c.components@.len() + opt_instructions_size(
                    opt_bytes(c.instructions),
                ) + 32 <= usize::MAX,
            },
        ensures
            r == self@.spec_size(),
    {
        proof {
            if let GlyphDescription::Composite(c) = &self.description {
                lemma_components_size_bound(c.components@);
            }
        }
        let size = 10 + self.description.size_in_byte();
        if size % 4 != 0 {
            size + 4 - size % 4
        } else {
            size
        }
    }
}

/// The arguments stored at `p`, as the flags describe them, and the position after them; `None`
/// where the bytes end too early.
pub open spec fn args_at(s: Seq<u8>, p: int, flags: u16) -> Option<(Args, int)> {
    if flags & ARG_1_AND_2_ARE_WORDS != 0 {
        if p + 4 > s.len() {
            None
        } else if flags & ARGS_ARE_XY_VALUES != 0 {
            Some((Args::I16(get_i16(s, p), get_i16(s, p + 2)), p + 4))
        } else {
            Some((Args::U16(get_u16(s, p), get_u16(s, p + 2)), p + 4))
        }
    } else {
        if p + 2 > s.len() {
            None
        } else if flags & ARGS_ARE_XY_VALUES != 0 {
            Some((Args::I8(i8_of_bits(s[p]), i8_of_bits(s[p + 1])), p + 2))
        } else {
            Some((Args::U8(s[p], s[p + 1]), p + 2))
        }
    }
}

/// The scale stored at `p`, as the flags describe it, and the position after it; `None` where
/// the bytes end too early.
pub open spec fn scale_at(s: Seq<u8>, p: int, flags: u16) -> Option<(Option<Scale>, int)> {
    if flags & WE_HAVE_A_SCALE != 0 {
        if p + 2 > s.len() {
            None
        } else {
            Some((Some(Scale::Simple(get_i16(s, p))), p + 2))
        }
    } else if flags & WE_HAVE_AN_X_AND_Y_SCALE != 0 {
        if p + 4 > s.len() {
            None
        } else {
            Some((Some(Scale::XY { x: get_i16(s, p), y: get_i16(s, p + 2) }), p + 4))
        }
    } else if flags & WE_HAVE_A_TWO_BY_TWO != 0 {
        if p + 8 > s.len() {
            None
        } else {
            Some(
                (
                    Some(
                        Scale::TwoByTwo {
                            x: get_i16(s, p),
                            scale01: get_i16(s, p + 2),
                            scale10: get_i16(s, p + 4),
                            y: get_i16(s, p + 6),
                        },
                    ),
                    p + 8,
                ),
            )
        }
    } else {
        Some((None, p))
    }
}

/// The component stored at `p` and the position after it; `None` where the bytes end too early.
pub open spec fn component_at(s: Seq<u8>, p: int) -> Option<(Component, int)> {
    if p + 4 > s.len() {
        None
    } else {
        let flags = get_u16(s, p);
        match args_at(s, p + 4, flags) {
            None => None,
            Some((a, q)) => match scale_at(s, q, flags) {
                None => None,
                Some((sc, r)) => Some(
                    (Component { flags, glyph_index: get_u16(s, p + 2), args: a, scale: sc }, r),
                ),
            },
        }
    }
}

/// `pre` put in front of the components that `r` holds.
pub open spec fn prepend_components(
    pre: Seq<Component>,
    r: Option<Result<(Seq<Component>, int), FontError>>,
) -> Option<Result<(Seq<Component>, int), FontError>> {
    match r {
        Some(Ok((c, q))) => Some(Ok((pre + c, q))),
        _ => r,
    }
}

/// Reading the components from `p` on, after `done` of them: the components and the position
/// after them, or the error; `None` where a tenth component would be read, which the reader
/// refuses by a failing assertion.
pub open spec fn components_from(s: Seq<u8>, p: int, done: nat) -> Option<
    Result<(Seq<Component>, int), FontError>,
>
    decreases 9 - done,
{
    if done >= 9 {
        None
    } else {
        match component_at(s, p) {
            None => Some(Err(FontError::UnexpectedEof)),
            Some((c, q)) => if c.flags & MORE_COMPONENTS != 0 {
                prepend_components(seq![c], components_from(s, q, done + 1))
            } else {
                Some(Ok((seq![c], q)))
            },
        }
    }
}

/// What reading a glyph from its bytes `s` gives; `None` where the reader fails an assertion.
pub open spec fn glyph_at(s: Seq<u8>) -> Option<Result<GlyphView, FontError>> {
    if s.len() < 10 {
        Some(Err(FontError::UnexpectedEof))
    } else {
        let header = |d: DescriptionView|
            GlyphView {
                number_of_contours: get_i16(s, 0),
                x_min: get_i16(s, 2),
                y_min: get_i16(s, 4),
                x_max: get_i16(s, 6),
                y_max: get_i16(s, 8),
                description: d,
            };
        if get_i16(s, 0) < 0 {
            match components_from(s, 10, 0) {
                None => None,
                Some(Err(e)) => Some(Err(e)),
                Some(Ok((c, p))) => if c.last().flags & WE_HAVE_INSTRUCTIONS != 0 {
                    if p + 2 > s.len() {
                        Some(Err(FontError::UnexpectedEof))
                    } else if p + 2 + get_u16(s, p) > s.len() {
                        Some(Err(FontError::UnexpectedEof))
                    } else {
                        Some(
                            Ok(
                                header(
                                    DescriptionView::Composite(
                                        c,
                                        Some(s.subrange(p + 2, p + 2 + get_u16(s, p))),
                                    ),
                                ),
                            ),
                        )
                    }
                } else {
                    Some(Ok(header(DescriptionView::Composite(c, None))))
                },
            }
        } else {
            Some(Ok(header(DescriptionView::Simple(s.subrange(10, s.len() as int)))))
        }
    }
}

fn read_args(data: &[u8], p: usize, flags: u16) -> (r: Option<(Args, usize)>)
    requires
        p <= data@.len(),
    ensures
        match (r, args_at(data@, p as int, flags)) {
            (Some((a, q)), Some((b, t))) => a == b && q == t,
            (None, None) => true,
            _ => false,
        },
{
    let n = data.len();
    if flags & ARG_1_AND_2_ARE_WORDS != 0 {
        if n - p < 4 {
            None
        } else if flags & ARGS_ARE_XY_VALUES != 0 {
            Some((Args::I16(read_i16_at(data, p), read_i16_at(data, p + 2)), p + 4))
        } else {
            Some((Args::U16(read_u16_at(data, p), read_u16_at(data, p + 2)), p + 4))
        }
    } else {
        if n - p < 2 {
            None
        } else if flags & ARGS_ARE_XY_VALUES != 0 {
            Some((Args::I8(i8_from_bits(data[p]), i8_from_bits(data[p + 1])), p + 2))
        } else {
            Some((Args::U8(data[p], data[p + 1]), p + 2))
        }
    }
}

fn read_scale(data: &[u8], p: usize, flags: u16) -> (r: Option<(Option<Scale>, usize)>)
    requires
        p <= data@.len(),
    ensures
        match (r, scale_at(data@, p as int, flags)) {
            (Some((a, q)), Some((b, t))) => a == b && q == t,
            (None, None) => true,
            _ => false,
        },
{
    let n = data.len();
    if flags & WE_HAVE_A_SCALE != 0 {
        if n - p < 2 {
            None
        } else {
            Some((Some(Scale::Simple(read_i16_at(data, p))), p + 2))
        }
    } else if flags & WE_HAVE_AN_X_AND_Y_SCALE != 0 {
        if n - p < 4 {
            None
        } else {
            Some((Some(Scale::XY { x: read_i16_at(data, p), y: read_i16_at(data, p + 2) }), p + 4))
        }
    } else if flags & WE_HAVE_A_TWO_BY_TWO != 0 {
        if n - p < 8 {
            None
        } else {
            Some(
                (
                    Some(
                        Scale::TwoByTwo {
                            x: read_i16_at(data, p),
                            scale01: read_i16_at(data, p + 2),
                            scale10: read_i16_at(data, p + 4),
                            y: read_i16_at(data, p + 6),
                        },
                    ),
                    p + 8,
                ),
            )
        }
    } else {
        Some((None, p))
    }
}

fn read_component(data: &[u8], p: usize) -> (r: Option<(Component, usize)>)
    requires
        p <= data@.len(),
    ensures
        match (r, component_at(data@, p as int)) {
            (Some((a, q)), Some((b, t))) => a == b && q == t && q <= data@.len(),
            (None, None) => true,
            _ => false,
        },
{
    let n = data.len();
    if n - p < 4 {
        return None;
    }
    let flags = read_u16_at(data, p);
    let glyph_index = read_u16_at(data, p + 2);
    match read_args(data, p + 4, flags) {
        None => None,
        Some((args, q)) => match read_scale(data, q, flags) {
            None => None,
            Some((scale, r)) => Some((Component { flags, glyph_index, args, scale }, r)),
        },
    }
}

proof fn lemma_prepend_assoc(
    a: Seq<Component>,
    b: Seq<Component>,
    r: Option<Result<(Seq<Component>, int), FontError>>,
)
    ensures
        prepend_components(a, prepend_components(b, r)) == prepend_components(a + b, r),
{
    if let Some(Ok((c, q))) = r {
        assert(a + (b + c) =~= (a + b) + c);
    }
}

/// Reading a component moves forward.
proof fn lemma_component_advances(s: Seq<u8>, p: int)
    ensures
        match component_at(s, p) {
            Some((c, q)) => p + 4 <= q <= s.len(),
            None => true,
        },
{
}

impl GlyphData {
    /// Reads a glyph from its bytes: a header, then the components and instructions of a
    /// composite glyph, or else all remaining bytes as the description of a simple glyph.
    pub fn unpack(data: &[u8]) -> (r: Result<GlyphData, FontError>)
        requires
            glyph_at(data@) is Some,
        ensures
            match r {
                Ok(g) => glyph_at(data@) == Some(Ok::<GlyphView, FontError>(g@)),
                Err(e) => glyph_at(data@) == Some(Err::<GlyphView, FontError>(e)),
            },
    {
        match Self::try_unpack(data) {
            Some(r) => r,
            None => {
                proof {
                    assert(false);
                }
                Err(FontError::UnexpectedEof)
            },
        }
    }

    /// Reads a glyph as `unpack` does, or gives `None` where `unpack` may not be called: where a
    /// composite glyph announces a tenth component.
    pub fn try_unpack(data: &[u8]) -> (r: Option<Result<GlyphData, FontError>>)
        ensures
            match glyph_at(data@) {
                None => r is None,
                Some(Ok(v)) => r matches Some(Ok(g)) && g@ == v,
                Some(Err(e)) => r == Some(Err::<GlyphData, FontError>(e)),
            },
    {
        let n = data.len();
        if n < 10 {
            return Some(Err(FontError::UnexpectedEof));
        }
        let number_of_contours = read_i16_at(data, 0);
        let x_min = read_i16_at(data, 2);
        let y_min = read_i16_at(data, 4);
        let x_max = read_i16_at(data, 6);
        let y_max = read_i16_at(data, 8);
        if number_of_contours >= 0 {
            let description = GlyphDescription::Simple(crate::big_endian::copy_range(data, 10, n));
            return Some(Ok(GlyphData { number_of_contours, x_min, y_min, x_max, y_max, description }));
        }
        let mut components: Vec<Component> = Vec::new();
        let mut pos: usize = 10;
        let mut done: usize = 0;
        let mut flags: u16 = 0;
        loop
            invariant_except_break
                components_from(data@, 10, 0) == prepend_components(
                    components@,
                    components_from(data@, pos as int, done as nat),
                ),
            invariant
                n == data@.len(),
                10 <= pos <= n,
                done <= 9,
                components@.len() == done,
                done > 0 ==> flags == components@.last().flags,
                get_i16(data@, 0) < 0,
            ensures
                done > 0,
                components_from(data@, 10, 0) == Some(
                    Ok::<(Seq<Component>, int), FontError>((components@, pos as int)),
                ),
            decreases 9 - done,
        {
            if done >= 9 {
                assert(components_from(data@, pos as int, done as nat) is None);
                return None;
            }
            match read_component(data, pos) {
                None => {
                    assert(components_from(data@, pos as int, done as nat) == Some(
                        Err::<(Seq<Component>, int), FontError>(FontError::UnexpectedEof),
                    ));
                    return Some(Err(FontError::UnexpectedEof));
                },
                Some((c, q)) => {
                    let ghost prev = components@;
                    proof {
                        lemma_prepend_assoc(prev, seq![c], components_from(data@, q as int, (done + 1) as nat));
                        assert(component_at(data@, pos as int) == Some((c, q as int)));
                        assert(components_from(data@, pos as int, done as nat) == if c.flags & MORE_COMPONENTS != 0 {
                            prepend_components(seq![c], components_from(data@, q as int, (done + 1) as nat))
                        } else {
                            Some(Ok::<(Seq<Component>, int), FontError>((seq![c], q as int)))
                        });
                    }
                    components.push(c);
                    assert(components@ =~= prev + seq![c]);
                    pos = q;
                    done = done + 1;
                    flags = c.flags;
                    if c.flags & MORE_COMPONENTS == 0 {
                        break;
                    }
                },
            }
        }
        let instructions = if flags & WE_HAVE_INSTRUCTIONS != 0 {
            if n - pos < 2 {
                return Some(Err(FontError::UnexpectedEof));
            }
            let len = read_u16_at(data, pos) as usize;
            if n - pos - 2 < len {
                return Some(Err(FontError::UnexpectedEof));
            }
            Some(crate::big_endian::copy_range(data, pos + 2, pos + 2 + len))
        } else {
            None
        };
        Some(Ok(
            GlyphData {
                number_of_contours,
                x_min,
                y_min,
                x_max,
                y_max,
                description: GlyphDescription::Composite(CompositeDescription { components, instructions }),
            },
        ))
    }
}

} // verus!

verus! {

/// Reading a glyph: the number of contours and the bounding box (x min, y min, x max, y max)
/// are the big-endian signed values at 0, 2, 4, 6 and 8; a glyph with a number of contours of
/// 0 or more is simple, and its description is the bytes from 10 on; fewer than 10 bytes are
/// an error.
pub proof fn law_glyph_layout(s: Seq<u8>)
    ensures
        s.len() < 10 ==> glyph_at(s) == Some(Err::<GlyphView, FontError>(FontError::UnexpectedEof)),
        glyph_at(s) matches Some(Ok(g)) ==> {
            &&& g.number_of_contours == be_i16_value(s, 0)
            &&& g.x_min == be_i16_value(s, 2)
            &&& g.y_min == be_i16_value(s, 4)
            &&& g.x_max == be_i16_value(s, 6)
            &&& g.y_max == be_i16_value(s, 8)
            &&& (g.number_of_contours >= 0 ==> g.description == DescriptionView::Simple(s.subrange(10, s.len() as int)))
        },
        s.len() >= 10 && be_i16_value(s, 0) >= 0 ==> glyph_at(s) is Some && glyph_at(s)->0 is Ok,
{
    if s.len() >= 10 {
        lemma_get_u16_value(s, 0);
        lemma_get_u16_value(s, 2);
        lemma_get_u16_value(s, 4);
        lemma_get_u16_value(s, 6);
        lemma_get_u16_value(s, 8);
    }
}

/// A component of a composite glyph at `p`: its flags and glyph index are the big-endian values
/// at `p` and `p + 2`; its two arguments follow at `p + 4`, as 16-bit values where flag 0x0001
/// is set (signed where flag 0x0002 is set), else as bytes (signed where flag 0x0002 is set).
pub proof fn law_component_layout(s: Seq<u8>, p: int)
    requires
        0 <= p,
    ensures
        component_at(s, p) matches Some((c, q)) ==> {
            &&& c.flags == be_u16_value(s, p)
            &&& c.glyph_index == be_u16_value(s, p + 2)
            &&& (c.flags & 0x0001 != 0 && c.flags & 0x0002 != 0 ==> (c.args matches Args::I16(a, b) && a
                == be_i16_value(s, p + 4) && b == be_i16_value(s, p + 6)))
            &&& (c.flags & 0x0001 != 0 && c.flags & 0x0002 == 0 ==> (c.args matches Args::U16(a, b) && a
                == be_u16_value(s, p + 4) && b == be_u16_value(s, p + 6)))
            &&& (c.flags & 0x0001 == 0 && c.flags & 0x0002 != 0 ==> (c.args matches Args::I8(a, b) && a
                == s[p + 4] - (if s[p + 4] >= 128 { 256int } else { 0int }) && b == s[p + 5] - (if s[p + 5]
                >= 128 { 256int } else { 0int })))
            &&& (c.flags & 0x0001 == 0 && c.flags & 0x0002 == 0 ==> (c.args matches Args::U8(a, b) && a == s[p
                + 4] && b == s[p + 5]))
        },
{
    if p + 4 <= s.len() {
        lemma_get_u16_value(s, p);
        lemma_get_u16_value(s, p + 2);
        if p + 8 <= s.len() {
            lemma_get_u16_value(s, p + 4);
            lemma_get_u16_value(s, p + 6);
        }
    }
}

} // verus!
