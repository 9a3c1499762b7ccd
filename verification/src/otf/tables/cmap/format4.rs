//! CMAP subtable format 4: segment mapping to delta values (BMP only).
use vstd::prelude::*;
use crate::big_endian::{
    be16, be16s, be_i16_value, be_u16_value, bei16s, get_i16s, get_u16, get_u16s, lemma_be16s, lemma_bei16s,
    lemma_get_i16s_at, lemma_get_u16_value,
    lemma_get_u16, lemma_get_u16s_at, read_i16s_at, read_u16_at, read_u16s_at, write_bytes,
    write_i16s, write_u16, write_u16s,
};
use crate::otf::error::FontError;
use crate::otf::search_range::{floor_log2, is_floor_log2, two_to};
use crate::otf::tables::cmap::code_points::{
    code_points_distinct, collect_code_points, from_glyphs, glyph_code_points, lemma_code_points_bounded,
    lemma_glyph_code_points, lemma_sort_bounded, lemma_sort_sorted, pairs_bounded, sort_by_code_point,
    sort_code_points, strictly_sorted,
};
use crate::otf::tables::Glyph;

verus! {

/// A format 4 CMAP subtable.
#[derive(Debug, PartialEq, Clone)]
pub struct Format4 {
    /// Should always be `0` since this library does not parse Macintosh CMAPs.
    pub language: u16,
    /// 2 × seg_count.
    pub seg_count_x2: u16,
    /// 2 × (2**floor(log2(seg_count)))
    pub search_range: u16,
    /// log2(search_range/2)
    pub entry_selector: u16,
    /// 2 × seg_count - search_range
    pub range_shift: u16,
    /// End characterCode for each segment, last=0xFFFF.
    pub end_code: Vec<u16>,
    /// Set to 0.
    pub reserved_pad: u16,
    /// Start character code for each segment.
    pub start_code: Vec<u16>,
    /// Delta for all character codes in segment.
    pub id_delta: Vec<i16>,
    /// Offsets into glyph_id_array or 0
    pub id_range_offset: Vec<u16>,
    /// Glyph index array (arbitrary length)
    pub glyph_id_array: Vec<u8>,
}

/// The first index at or after `i` whose value is at least `x`, or the length if there is none.
pub open spec fn first_geq_u16(s: Seq<u16>, x: int, i: int) -> int
    decreases s.len() - i,
{
    if i < 0 || i >= s.len() {
        s.len() as int
    } else if s[i] >= x {
        i
    } else {
        first_geq_u16(s, x, i + 1)
    }
}

proof fn lemma_first_geq_u16(s: Seq<u16>, x: int, i: int)
    requires
        0 <= i <= s.len(),
    ensures
        i <= first_geq_u16(s, x, i) <= s.len(),
    decreases s.len() - i,
{
    if i < s.len() && s[i] < x {
        lemma_first_geq_u16(s, x, i + 1);
    }
}

/// Searches for the first segment whose end code is at least `codepoint`.
fn segment_index(end_code: &Vec<u16>, codepoint: u16) -> (ix: usize)
    ensures
        ix == first_geq_u16(end_code@, codepoint as int, 0),
{
    let mut i: usize = 0;
    while i < end_code.len()
        invariant
            i <= end_code@.len(),
            first_geq_u16(end_code@, codepoint as int, 0) == first_geq_u16(end_code@, codepoint as int, i as int),
        decreases end_code@.len() - i,
    {
        if end_code[i] >= codepoint {
            return i;
        }
        i = i + 1;
    }
    i
}

impl Format4 {
    /// The segment of `codepoint` (a BMP code point), if its start code is known.
    pub open spec fn spec_segment(self, cp: int) -> int {
        first_geq_u16(self.end_code@, cp, 0)
    }

    /// The position `id_range_offset + 2 × (cp - start_code) + 2 × ix` computed with `u16`
    /// arithmetic, or `None` where that overflows.
    pub open spec fn range_offset_pos(self, ix: int, cp: int) -> Option<int> {
        let iro = self.id_range_offset@[ix] as int;
        let d2 = (cp - self.start_code@[ix]) * 2;
        if d2 > 0xFFFF || iro + d2 > 0xFFFF || ix > 0xFFFF || 2 * ix > 0xFFFF || iro + d2 + 2 * ix
            > 0xFFFF {
            None
        } else {
            Some(iro + d2 + 2 * ix)
        }
    }

    /// Whether the lookup of `cp` reaches the glyph id array past its end (the lookup is then
    /// undefined).
    pub open spec fn lookup_out_of_bounds(self, codepoint: u32) -> bool {
        let cp = codepoint as int;
        let ix = self.spec_segment(cp);
        &&& codepoint <= 0xFFFF
        &&& ix < self.start_code@.len()
        &&& self.start_code@[ix] <= cp
        &&& ix < self.id_range_offset@.len()
        &&& ix < self.id_delta@.len()
        &&& self.id_range_offset@[ix] != 0
        &&& self.range_offset_pos(ix, cp) matches Some(pos)
        &&& pos / 2 >= self.id_range_offset@.len()
        &&& pos - 2 * self.id_range_offset@.len() > self.glyph_id_array@.len()
    }

    /// The glyph id that the lookup finds before the segment's delta is added.
    pub open spec fn raw_glyph_id(self, ix: int, cp: int) -> Option<int> {
        if self.id_range_offset@[ix] == 0 {
            Some(cp)
        } else {
            match self.range_offset_pos(ix, cp) {
                None => None,
                Some(pos) => {
                    let v = if pos / 2 < self.id_range_offset@.len() {
                        Some(self.id_range_offset@[pos / 2] as int)
                    } else {
                        let offset = pos - 2 * self.id_range_offset@.len();
                        if offset + 2 <= self.glyph_id_array@.len() {
                            Some(get_u16(self.glyph_id_array@, offset) as int)
                        } else {
                            None
                        }
                    };
                    match v {
                        Some(g) => if g != 0 {
                            Some(g)
                        } else {
                            None
                        },
                        None => None,
                    }
                },
            }
        }
    }

    /// The glyph id of `codepoint`, as the format 4 lookup defines it.
    pub open spec fn spec_glyph_id(self, codepoint: u32) -> Option<u16> {
        let cp = codepoint as int;
        let ix = self.spec_segment(cp);
        if codepoint > 0xFFFF || ix >= self.start_code@.len() || self.start_code@[ix] > cp
            || ix >= self.id_range_offset@.len() || ix >= self.id_delta@.len() {
            None
        } else {
            match self.raw_glyph_id(ix, cp) {
                None => None,
                Some(v) => Some(((v + self.id_delta@[ix]) % 0x10000) as u16),
            }
        }
    }

    /// Maps a code point to its glyph id. Code points above `u16::MAX` have none.
    pub fn glyph_id(&self, codepoint: u32) -> (r: Option<u16>)
        requires
            !self.lookup_out_of_bounds(codepoint),
        ensures
            r == self.spec_glyph_id(codepoint),
    {
        if codepoint > 0xFFFF {
            return None;
        }
        let cp = codepoint as u16;
        let ix = segment_index(&self.end_code, cp);
        proof {
            lemma_first_geq_u16(self.end_code@, cp as int, 0);
        }
        if ix >= self.start_code.len() {
            return None;
        }
        let start_code = self.start_code[ix];
        if start_code > cp {
            return None;
        }
        if ix >= self.id_range_offset.len() || ix >= self.id_delta.len() {
            return None;
        }
        let id_range_offset = self.id_range_offset[ix];
        let id_delta = self.id_delta[ix];
        let val: u16 = if id_range_offset == 0 {
            cp
        } else {
            let d = cp - start_code;
            if d > 0x7FFF {
                return None;
            }
            let d2 = d * 2;
            if id_range_offset as u32 + d2 as u32 > 0xFFFF {
                return None;
            }
            if ix > 0x7FFF {
                return None;
            }
            let ix2 = (ix as u16) * 2;
            if id_range_offset as u32 + d2 as u32 + ix2 as u32 > 0xFFFF {
                return None;
            }
            let pos = (id_range_offset + d2 + ix2) as usize;
            let v = if pos / 2 < self.id_range_offset.len() {
                self.id_range_offset[pos / 2]
            } else {
                let offset = pos - self.id_range_offset.len() * 2;
                if offset + 2 <= self.glyph_id_array.len() {
                    read_u16_at(self.glyph_id_array.as_slice(), offset)
                } else {
                    return None;
                }
            };
            if v == 0 {
                return None;
            }
            v
        };
        // the delta is added modulo 65536
        let g: i32 = val as i32 + id_delta as i32;
        let g = if g < 0 {
            g + 0x10000
        } else if g > 0xFFFF {
            g - 0x10000
        } else {
            g
        };
        Some(g as u16)
    }
}

/// The content of a format 4 subtable as plain values.
pub ghost struct Format4View {
    pub language: u16,
    pub seg_count_x2: u16,
    pub search_range: u16,
    pub entry_selector: u16,
    pub range_shift: u16,
    pub end_code: Seq<u16>,
    pub reserved_pad: u16,
    pub start_code: Seq<u16>,
    pub id_delta: Seq<i16>,
    pub id_range_offset: Seq<u16>,
    pub glyph_id_array: Seq<u8>,
}

impl View for Format4 {
    type V = Format4View;

    open spec fn view(&self) -> Format4View {
        Format4View {
            language: self.language,
            seg_count_x2: self.seg_count_x2,
            search_range: self.search_range,
            entry_selector: self.entry_selector,
            range_shift: self.range_shift,
            end_code: self.end_code@,
            reserved_pad: self.reserved_pad,
            start_code: self.start_code@,
            id_delta: self.id_delta@,
            id_range_offset: self.id_range_offset@,
            glyph_id_array: self.glyph_id_array@,
        }
    }
}

impl Format4 {
    /// The subtable that the bytes `s` (everything after the format and length header) hold,
    /// or `None` where they end too early.
    pub open spec fn spec_unpack(s: Seq<u8>) -> Option<Format4View> {
        if s.len() < 10 {
            None
        } else {
            let n = (get_u16(s, 2) / 2) as int;
            if s.len() < 12 + 8 * n {
                None
            } else {
                Some(
                    Format4View {
                        language: get_u16(s, 0),
                        seg_count_x2: get_u16(s, 2),
                        search_range: get_u16(s, 4),
                        entry_selector: get_u16(s, 6),
                        range_shift: get_u16(s, 8),
                        end_code: get_u16s(s, 10, n as nat),
                        reserved_pad: get_u16(s, 10 + 2 * n),
                        start_code: get_u16s(s, 12 + 2 * n, n as nat),
                        id_delta: get_i16s(s, 12 + 4 * n, n as nat),
                        id_range_offset: get_u16s(s, 12 + 6 * n, n as nat),
                        glyph_id_array: s.subrange(12 + 8 * n, s.len() as int),
                    },
                )
            }
        }
    }

    /// The bytes that `pack` writes. The reserved pad is always written as zero.
    #[verifier::opaque]
    pub open spec fn spec_pack(self) -> Seq<u8> {
        be16(self.language) + be16(self.seg_count_x2) + be16(self.search_range) + be16(
            self.entry_selector,
        ) + be16(self.range_shift) + be16s(self.end_code@) + be16(0) + be16s(self.start_code@)
            + bei16s(self.id_delta@) + be16s(self.id_range_offset@) + self.glyph_id_array@
    }

    /// Whether the segment count and the four segment arrays agree, and the pad is zero.
    pub open spec fn wf(self) -> bool {
        let n = self.seg_count_x2 / 2;
        &&& self.end_code@.len() == n
        &&& self.start_code@.len() == n
        &&& self.id_delta@.len() == n
        &&& self.id_range_offset@.len() == n
        &&& self.reserved_pad == 0
    }

    /// Reads a format 4 subtable from `data`, which holds the subtable without its format and
    /// length header.
    pub fn unpack(data: &[u8]) -> (r: Result<Format4, FontError>)
        ensures
            match r {
                Ok(t) => Self::spec_unpack(data@) == Some(t@),
                Err(e) => Self::spec_unpack(data@) is None && e == FontError::UnexpectedEof,
            },
    {
        let len = data.len();
        if len < 10 {
            return Err(FontError::UnexpectedEof);
        }
        let seg_count_x2 = read_u16_at(data, 2);
        let n = (seg_count_x2 / 2) as usize;
        if len < 12 + 8 * n {
            return Err(FontError::UnexpectedEof);
        }
        let t = Format4 {
            language: read_u16_at(data, 0),
            seg_count_x2,
            search_range: read_u16_at(data, 4),
            entry_selector: read_u16_at(data, 6),
            range_shift: read_u16_at(data, 8),
            end_code: read_u16s_at(data, 10, n),
            reserved_pad: read_u16_at(data, 10 + 2 * n),
            start_code: read_u16s_at(data, 12 + 2 * n, n),
            id_delta: read_i16s_at(data, 12 + 4 * n, n),
            id_range_offset: read_u16s_at(data, 12 + 6 * n, n),
            glyph_id_array: crate::big_endian::copy_range(data, 12 + 8 * n, len),
        };
        Ok(t)
    }

    /// Appends the subtable (without its format and length header) to `out`.
    pub fn pack(&self, out: &mut Vec<u8>)
        ensures
            final(out)@ == old(out)@ + self.spec_pack(),
    {
        reveal(Format4::spec_pack);
        let ghost start = out@;
        write_u16(out, self.language);
        write_u16(out, self.seg_count_x2);
        write_u16(out, self.search_range);
        write_u16(out, self.entry_selector);
        write_u16(out, self.range_shift);
        write_u16s(out, &self.end_code);
        write_u16(out, 0);
        write_u16s(out, &self.start_code);
        write_i16s(out, &self.id_delta);
        write_u16s(out, &self.id_range_offset);
        write_bytes(out, self.glyph_id_array.as_slice());
        assert(final(out)@ =~= start + self.spec_pack());
    }

    /// Reading back what `pack` wrote gives the same subtable.
    pub proof fn lemma_pack_unpack(self)
        requires
            self.wf(),
        ensures
            Self::spec_unpack(self.spec_pack()) == Some(self@),
    {
        reveal(Format4::spec_pack);
        let s = self.spec_pack();
        let n = (self.seg_count_x2 / 2) as int;
        lemma_be16s(self.end_code@);
        lemma_be16s(self.start_code@);
        lemma_bei16s(self.id_delta@);
        lemma_be16s(self.id_range_offset@);
        assert(s.len() == 12 + 8 * n + self.glyph_id_array@.len());
        assert(s.subrange(0, 2) =~= be16(self.language));
        lemma_get_u16(s, 0, self.language);
        assert(s.subrange(2, 4) =~= be16(self.seg_count_x2));
        lemma_get_u16(s, 2, self.seg_count_x2);
        assert(s.subrange(4, 6) =~= be16(self.search_range));
        lemma_get_u16(s, 4, self.search_range);
        assert(s.subrange(6, 8) =~= be16(self.entry_selector));
        lemma_get_u16(s, 6, self.entry_selector);
        assert(s.subrange(8, 10) =~= be16(self.range_shift));
        lemma_get_u16(s, 8, self.range_shift);
        assert(s.subrange(10, 10 + 2 * n) =~= be16s(self.end_code@));
        lemma_get_u16s_at(s, 10, self.end_code@);
        assert(s.subrange(10 + 2 * n, 12 + 2 * n) =~= be16(0));
        lemma_get_u16(s, 10 + 2 * n, 0);
        assert(s.subrange(12 + 2 * n, 12 + 4 * n) =~= be16s(self.start_code@));
        lemma_get_u16s_at(s, 12 + 2 * n, self.start_code@);
        assert(s.subrange(12 + 4 * n, 12 + 6 * n) =~= bei16s(self.id_delta@));
        lemma_get_i16s_at(s, 12 + 4 * n, self.id_delta@);
        assert(s.subrange(12 + 6 * n, 12 + 8 * n) =~= be16s(self.id_range_offset@));
        lemma_get_u16s_at(s, 12 + 6 * n, self.id_range_offset@);
        assert(s.subrange(12 + 8 * n, s.len() as int) =~= self.glyph_id_array@);
        assert(Self::spec_unpack(s).unwrap() == self@);
    }
}

/// A segment of consecutive code points that share one glyph id delta.
#[derive(Debug, Clone, Copy, PartialEq, Eq)]
pub struct Segment {
    pub start: u16,
    pub end: u16,
    pub id_delta: i16,
}

/// `x` modulo 65536, as an `i16`.
pub open spec fn wrap16(x: int) -> i16 {
    let m = x % 0x10000;
    if m >= 0x8000 { (m - 0x10000) as i16 } else { m as i16 }
}

/// The delta that maps code point `c` to glyph `i`: their difference modulo 65536, which a
/// lookup adds modulo 65536.
pub open spec fn delta_of(c: int, i: int) -> Option<i16> {
    Some(wrap16(i - c))
}

/// A single-code-point segment for every pair whose delta fits.
pub open spec fn single_segments(p: Seq<(u32, u32)>) -> Seq<Segment>
    decreases p.len(),
{
    if p.len() == 0 {
        Seq::empty()
    } else {
        let rest = single_segments(p.drop_last());
        match delta_of(p.last().0 as int, p.last().1 as int) {
            Some(d) => rest.push(Segment { start: p.last().0 as u16, end: p.last().0 as u16, id_delta: d }),
            None => rest,
        }
    }
}

/// `e + 1`, saturating at `u16::MAX`.
pub open spec fn saturating_inc(e: u16) -> u16 {
    if e == 0xFFFF { 0xFFFF } else { (e + 1) as u16 }
}

/// Appends `x` to the merged segments `m`, extending the last one where `x` continues it.
pub open spec fn merge_step(m: Seq<Segment>, x: Segment) -> Seq<Segment> {
    if m.len() > 0 && m.last().id_delta == x.id_delta && saturating_inc(m.last().end) == x.start {
        m.update(m.len() - 1, Segment { end: x.start, ..m.last() })
    } else {
        m.push(x)
    }
}

/// Merges adjacent segments from left to right.
pub open spec fn merge_segments(s: Seq<Segment>) -> Seq<Segment>
    decreases s.len(),
{
    if s.len() == 0 {
        Seq::empty()
    } else {
        merge_step(merge_segments(s.drop_last()), s.last())
    }
}

/// The segment that closes every format 4 subtable.
pub open spec fn end_segment() -> Segment {
    Segment { start: 0xFFFF, end: 0xFFFF, id_delta: 0 }
}

/// The segments of the subset for `glyphs`.
pub open spec fn subset_segments(glyphs: Seq<Glyph>) -> Seq<Segment> {
    merge_segments(
        single_segments(sort_by_code_point(glyph_code_points(glyphs, 0xFFFF))).push(end_segment()),
    )
}

proof fn lemma_merge_len(s: Seq<Segment>)
    ensures
        s.len() > 0 ==> merge_segments(s).len() > 0,
        merge_segments(s).len() <= s.len(),
    decreases s.len(),
{
    if s.len() > 0 {
        lemma_merge_len(s.drop_last());
    }
}

fn delta_for(c: u32, i: u32) -> (r: Option<i16>)
    requires
        c <= 0xFFFF,
        i <= 0xFFFF,
    ensures
        r == delta_of(c as int, i as int),
{
    let d: i32 = i as i32 - c as i32;
    let w: i32 = if d >= 0x8000 {
        d - 0x10000
    } else if d < -0x8000 {
        d + 0x10000
    } else {
        d
    };
    assert(w == wrap16(d as int));
    Some(w as i16)
}

impl Format4 {
    /// The header values of a subset whose old header says `seg_count_x2`.
    pub open spec fn subset_header_ok(self, r: Format4) -> bool {
        let n = self.seg_count_x2 / 2;
        exists|e: nat|
            is_floor_log2(if n == 0 { 1 } else { n as nat }, e) && r.search_range == 2 * two_to(e)
                && r.entry_selector == e && r.range_shift == self.seg_count_x2 - r.search_range
    }

    /// What `subset` returns for `glyphs`.
    pub open spec fn subset_result(self, glyphs: Seq<Glyph>, r: Format4) -> bool {
        let segs = subset_segments(glyphs);
        &&& r.language == self.language
        &&& r.reserved_pad == self.reserved_pad
        &&& r.end_code@ == segs.map_values(|s: Segment| s.end)
        &&& r.start_code@ == segs.map_values(|s: Segment| s.start)
        &&& r.id_delta@ == segs.map_values(|s: Segment| s.id_delta)
        &&& r.id_range_offset@ == Seq::new(
            segs.len(),
            |k: int| if k == segs.len() - 1 { 2u16 } else { 0u16 },
        )
        &&& r.glyph_id_array@ == seq![0u8, 0u8]
        &&& r.seg_count_x2 == if 2 * segs.len() <= 0xFFFF { 2 * segs.len() } else { 0 }
        &&& self.subset_header_ok(r)
    }

    /// Creates a subset of the subtable for `glyphs`: the glyph at position `k` gets index
    /// `k + 1` (0 is the default glyph). Code points above `u16::MAX` are left out; each
    /// segment's delta is taken modulo 65536. The search header values are derived
    /// from this subtable's segment count.
    pub fn subset(&self, glyphs: &[Glyph]) -> (r: Format4)
        requires
            self.seg_count_x2 >= 2,
        ensures
            self.subset_result(glyphs@, r),
    {
        let pairs = collect_code_points(glyphs, 0xFFFF);
        let sorted = sort_code_points(&pairs);
        proof {
            lemma_code_points_bounded(glyphs@, 0xFFFF);
            lemma_sort_bounded(pairs@, 0xFFFF);
        }
        // single segments
        let mut singles: Vec<Segment> = Vec::new();
        let mut k: usize = 0;
        while k < sorted.len()
            invariant
                k <= sorted@.len(),
                sorted@ == sort_by_code_point(glyph_code_points(glyphs@, 0xFFFF)),
                singles@ == single_segments(sorted@.subrange(0, k as int)),
                crate::otf::tables::cmap::code_points::pairs_bounded(sorted@, 0xFFFF),
            decreases sorted@.len() - k,
        {
            let (c, i) = sorted[k];
            assert(sorted@.subrange(0, k + 1).drop_last() =~= sorted@.subrange(0, k as int));
            match delta_for(c, i) {
                Some(d) => singles.push(Segment { start: c as u16, end: c as u16, id_delta: d }),
                None => {},
            }
            k = k + 1;
        }
        assert(sorted@.subrange(0, k as int) =~= sorted@);
        singles.push(Segment { start: 0xFFFF, end: 0xFFFF, id_delta: 0 });
        // merge adjacent segments
        let mut segments: Vec<Segment> = Vec::new();
        let mut k: usize = 0;
        while k < singles.len()
            invariant
                k <= singles@.len(),
                segments@ == merge_segments(singles@.subrange(0, k as int)),
            decreases singles@.len() - k,
        {
            let s = singles[k];
            assert(singles@.subrange(0, k + 1).drop_last() =~= singles@.subrange(0, k as int));
            let n = segments.len();
            if n > 0 && segments[n - 1].id_delta == s.id_delta && (if segments[n - 1].end
                == 0xFFFF {
                0xFFFF
            } else {
                segments[n - 1].end + 1
            }) == s.start {
                let prev = segments[n - 1];
                segments.set(n - 1, Segment { start: prev.start, end: s.start, id_delta: prev.id_delta });
            } else {
                segments.push(s);
            }
            k = k + 1;
        }
        assert(singles@.subrange(0, k as int) =~= singles@);
        proof {
            lemma_merge_len(singles@);
        }
        let len = segments.len();
        let mut end_code: Vec<u16> = Vec::new();
        let mut start_code: Vec<u16> = Vec::new();
        let mut id_delta: Vec<i16> = Vec::new();
        let mut id_range_offset: Vec<u16> = Vec::new();
        let mut k: usize = 0;
        while k < len
            invariant
                k <= len,
                len == segments@.len(),
                len > 0,
                end_code@ == segments@.subrange(0, k as int).map_values(|s: Segment| s.end),
                start_code@ == segments@.subrange(0, k as int).map_values(|s: Segment| s.start),
                id_delta@ == segments@.subrange(0, k as int).map_values(|s: Segment| s.id_delta),
                id_range_offset@ == Seq::new(
                    k as nat,
                    |j: int| if j == len - 1 { 2u16 } else { 0u16 },
                ),
            decreases len - k,
        {
            let s = segments[k];
            end_code.push(s.end);
            start_code.push(s.start);
            id_delta.push(s.id_delta);
            id_range_offset.push(if k == len - 1 { 2 } else { 0 });
            k = k + 1;
            assert(end_code@ =~= segments@.subrange(0, k as int).map_values(|s: Segment| s.end));
            assert(start_code@ =~= segments@.subrange(0, k as int).map_values(|s: Segment| s.start));
            assert(id_delta@ =~= segments@.subrange(0, k as int).map_values(|s: Segment| s.id_delta));
            assert(id_range_offset@ =~= Seq::new(
                k as nat,
                |j: int| if j == len - 1 { 2u16 } else { 0u16 },
            ));
        }
        assert(segments@.subrange(0, len as int) =~= segments@);
        let mut glyph_id_array: Vec<u8> = Vec::new();
        glyph_id_array.push(0);
        glyph_id_array.push(0);
        assert(glyph_id_array@ =~= seq![0u8, 0u8]);
        let seg_count_x2: u16 = if len <= 0x7FFF { (len * 2) as u16 } else { 0 };
        let n = self.seg_count_x2 / 2;
        let (p, e) = floor_log2(if n == 0 { 1 } else { n as u32 });
        let search_range = (2 * p) as u16;
        let r = Format4 {
            language: self.language,
            seg_count_x2,
            search_range,
            entry_selector: e as u16,
            range_shift: self.seg_count_x2 - search_range,
            end_code,
            reserved_pad: self.reserved_pad,
            start_code,
            id_delta,
            id_range_offset,
            glyph_id_array,
        };
        assert(self.subset_header_ok(r));
        r
    }
}


/// The segment holds the code point `c`.
pub open spec fn seg_covers(g: Segment, c: int) -> bool {
    g.start <= c <= g.end
}

/// The segments are ranges in increasing order, apart from one another.
pub open spec fn segs_ordered(g: Seq<Segment>) -> bool {
    &&& forall|i: int| 0 <= i < g.len() ==> (#[trigger] g[i]).start <= g[i].end
    &&& forall|i: int, j: int| 0 <= i < j < g.len() ==> (#[trigger] g[i]).end < (#[trigger] g[j]).start
}

/// Some segment of `s` is a single code point `x.0` with the delta that maps it to `x.1`.
pub open spec fn has_single(s: Seq<Segment>, x: (u32, u32)) -> bool {
    exists|j: int| 0 <= j < s.len() && s[j].start == x.0 && delta_of(x.0 as int, x.1 as int) == Some(s[j].id_delta)
}

/// Some pair of `q` has the code point `c` and the delta `d` to its glyph.
pub open spec fn pair_with(q: Seq<(u32, u32)>, c: int, d: i16) -> bool {
    exists|i: int| 0 <= i < q.len() && q[i].0 == c && delta_of(q[i].0 as int, q[i].1 as int) == Some(d)
}

/// Some segment of `m` holds the code point of `x` with the delta of `x`.
pub open spec fn covered_with(m: Seq<Segment>, x: Segment) -> bool {
    exists|j: int| 0 <= j < m.len() && seg_covers(m[j], x.start as int) && m[j].id_delta == x.id_delta
}

/// Some segment of `s` starts at `c`.
pub open spec fn starts_at(s: Seq<Segment>, c: int) -> bool {
    exists|i: int| 0 <= i < s.len() && s[i].start == c
}

/// Single segments of strictly sorted pairs start at strictly increasing code points; each
/// pair whose delta fits has its segment, and each segment comes from such a pair.
proof fn lemma_single_segments(q: Seq<(u32, u32)>)
    requires
        strictly_sorted(q),
        pairs_bounded(q, 0xFFFF),
    ensures
        forall|i: int| 0 <= i < single_segments(q).len() ==> (#[trigger] single_segments(q)[i]).start
            == single_segments(q)[i].end,
        forall|i: int, j: int|
            0 <= i < j < single_segments(q).len() ==> (#[trigger] single_segments(q)[i]).start
                < (#[trigger] single_segments(q)[j]).start,
        forall|i: int|
            0 <= i < q.len() && delta_of((#[trigger] q[i]).0 as int, q[i].1 as int) is Some ==> has_single(
                single_segments(q),
                q[i],
            ),
        forall|j: int|
            0 <= j < single_segments(q).len() ==> pair_with(
                q,
                (#[trigger] single_segments(q)[j]).start as int,
                single_segments(q)[j].id_delta,
            ),
    decreases q.len(),
{
    if q.len() > 0 {
        let d = q.drop_last();
        let x = q.last();
        assert(forall|i: int| 0 <= i < d.len() ==> d[i] == q[i]);
        assert(strictly_sorted(d));
        assert(pairs_bounded(d, 0xFFFF)) by {
            assert forall|j: int| 0 <= j < d.len() implies #[trigger] d[j].0 <= 0xFFFF && d[j].1 <= 0xFFFF by {
                assert(d[j] == q[j]);
            }
        }
        lemma_single_segments(d);
        let r = single_segments(d);
        let s = single_segments(q);
        assert(x == q[q.len() - 1]);
        assert(x.0 <= 0xFFFF);
        assert forall|j: int| 0 <= j < r.len() implies (#[trigger] r[j]).start < x.0 by {
            assert(pair_with(d, r[j].start as int, r[j].id_delta));
            let i = choose|i: int|
                0 <= i < d.len() && d[i].0 == r[j].start && delta_of(d[i].0 as int, d[i].1 as int) == Some(
                    r[j].id_delta,
                );
            assert(q[i].0 < q[q.len() - 1].0);
        }
        assert forall|j: int| 0 <= j < r.len() implies pair_with(q, (#[trigger] r[j]).start as int, r[j].id_delta) by {
            assert(pair_with(d, r[j].start as int, r[j].id_delta));
            let i = choose|i: int|
                0 <= i < d.len() && d[i].0 == r[j].start && delta_of(d[i].0 as int, d[i].1 as int) == Some(
                    r[j].id_delta,
                );
            assert(q[i] == d[i]);
        }
        assert forall|i: int| 0 <= i < d.len() && delta_of((#[trigger] q[i]).0 as int, q[i].1 as int) is Some implies has_single(
            r,
            q[i],
        ) by {
            assert(q[i] == d[i]);
            assert(has_single(r, d[i]));
        }
        match delta_of(x.0 as int, x.1 as int) {
            Some(dd) => {
                let y = Segment { start: x.0 as u16, end: x.0 as u16, id_delta: dd };
                assert(s == r.push(y));
                assert forall|i: int| 0 <= i < q.len() && delta_of((#[trigger] q[i]).0 as int, q[i].1 as int) is Some implies has_single(
                    s,
                    q[i],
                ) by {
                    if i < d.len() {
                        assert(has_single(r, q[i]));
                        let j = choose|j: int|
                            0 <= j < r.len() && r[j].start == q[i].0 && delta_of(q[i].0 as int, q[i].1 as int) == Some(
                                r[j].id_delta,
                            );
                        assert(s[j] == r[j]);
                    } else {
                        assert(s[r.len() as int] == y);
                    }
                }
                assert forall|j: int| 0 <= j < s.len() implies pair_with(q, (#[trigger] s[j]).start as int, s[j].id_delta) by {
                    if j < r.len() {
                        assert(s[j] == r[j]);
                    } else {
                        assert(s[j] == y);
                        assert(q[q.len() - 1] == x);
                    }
                }
                assert forall|i: int, j: int| 0 <= i < j < s.len() implies (#[trigger] s[i]).start < (#[trigger] s[j]).start by {
                    if j < r.len() {
                        assert(s[i] == r[i] && s[j] == r[j]);
                    } else {
                        assert(s[i] == r[i]);
                    }
                }
            },
            None => {
                assert(s == r);
            },
        }
    } else {
        assert(single_segments(q) =~= Seq::<Segment>::empty());
    }
}

/// Merging single segments with strictly increasing starts: ordered segments, no more than the
/// singles, the last one ending at the last single with its delta, each single held by a
/// segment with its delta, and each code point of a segment the start of a single.
proof fn lemma_merge_segments(s: Seq<Segment>)
    requires
        forall|i: int| 0 <= i < s.len() ==> (#[trigger] s[i]).start == s[i].end,
        forall|i: int, j: int| 0 <= i < j < s.len() ==> (#[trigger] s[i]).start < (#[trigger] s[j]).start,
    ensures
        segs_ordered(merge_segments(s)),
        merge_segments(s).len() <= s.len(),
        s.len() > 0 ==> merge_segments(s).len() > 0 && merge_segments(s).last().end == s.last().start
            && merge_segments(s).last().id_delta == s.last().id_delta,
        forall|i: int| 0 <= i < s.len() ==> covered_with(merge_segments(s), #[trigger] s[i]),
        forall|j: int, c: int|
            0 <= j < merge_segments(s).len() && #[trigger] seg_covers(merge_segments(s)[j], c) ==> starts_at(
                s,
                c,
            ),
    decreases s.len(),
{
    let g = merge_segments(s);
    if s.len() == 0 {
        assert(g =~= Seq::<Segment>::empty());
    } else {
        let d = s.drop_last();
        let x = s.last();
        assert(forall|i: int| 0 <= i < d.len() ==> d[i] == s[i]);
        lemma_merge_segments(d);
        let m = merge_segments(d);
        assert(g == merge_step(m, x));
        assert(x == s[s.len() - 1]);
        if d.len() > 0 {
            assert(m.last().end == d.last().start);
            assert(d.last().start < x.start) by {
                assert(s[s.len() - 2].start < s[s.len() - 1].start);
            }
        }
        if m.len() > 0 && m.last().id_delta == x.id_delta && saturating_inc(m.last().end) == x.start {
            let l = m.len() - 1;
            assert(m.last().end + 1 == x.start);
            assert(g == m.update(l, Segment { end: x.start, ..m.last() }));
            assert forall|i: int, j: int| 0 <= i < j < g.len() implies (#[trigger] g[i]).end < (#[trigger] g[j]).start by {
                assert(m[i].end < m[j].start);
            }
            assert forall|i: int| 0 <= i < s.len() implies covered_with(g, #[trigger] s[i]) by {
                if i < s.len() - 1 {
                    assert(d[i] == s[i]);
                    assert(covered_with(m, d[i]));
                    let j = choose|j: int|
                        0 <= j < m.len() && seg_covers(m[j], d[i].start as int) && m[j].id_delta == d[i].id_delta;
                    assert(seg_covers(g[j], s[i].start as int));
                } else {
                    assert(seg_covers(g[l], s[i].start as int));
                }
            }
            assert forall|j: int, c: int| 0 <= j < g.len() && #[trigger] seg_covers(g[j], c) implies starts_at(s, c) by {
                if j < l || c <= m[l].end {
                    assert(seg_covers(m[j], c));
                    assert(starts_at(d, c));
                    let i = choose|i: int| 0 <= i < d.len() && d[i].start == c;
                    assert(s[i] == d[i]);
                } else {
                    assert(c == x.start);
                    assert(s[s.len() - 1].start == c);
                }
            }
        } else {
            assert(g == m.push(x));
            assert forall|i: int, j: int| 0 <= i < j < g.len() implies (#[trigger] g[i]).end < (#[trigger] g[j]).start by {
                if j == g.len() - 1 {
                    if i < m.len() - 1 {
                        assert(m[i].end < m[m.len() - 1].start);
                    }
                } else {
                    assert(m[i].end < m[j].start);
                }
            }
            assert forall|i: int| 0 <= i < s.len() implies covered_with(g, #[trigger] s[i]) by {
                if i < s.len() - 1 {
                    assert(d[i] == s[i]);
                    assert(covered_with(m, d[i]));
                    let j = choose|j: int|
                        0 <= j < m.len() && seg_covers(m[j], d[i].start as int) && m[j].id_delta == d[i].id_delta;
                    assert(g[j] == m[j]);
                } else {
                    assert(g[m.len() as int] == x);
                }
            }
            assert forall|j: int, c: int| 0 <= j < g.len() && #[trigger] seg_covers(g[j], c) implies starts_at(s, c) by {
                if j < m.len() {
                    assert(g[j] == m[j]);
                    assert(starts_at(d, c));
                    let i = choose|i: int| 0 <= i < d.len() && d[i].start == c;
                    assert(s[i] == d[i]);
                } else {
                    assert(s[s.len() - 1].start == c);
                }
            }
        }
    }
}


/// The subtable's segments are `f`, closed by one that reads the glyph id array `[0, 0]`.
pub open spec fn laid_out(r: Format4, f: Seq<Segment>) -> bool {
    &&& f.len() > 0
    &&& r.end_code@ == f.map_values(|s: Segment| s.end)
    &&& r.start_code@ == f.map_values(|s: Segment| s.start)
    &&& r.id_delta@ == f.map_values(|s: Segment| s.id_delta)
    &&& r.id_range_offset@ == Seq::new(f.len(), |k: int| if k == f.len() - 1 { 2u16 } else { 0u16 })
    &&& r.glyph_id_array@ == seq![0u8, 0u8]
}

/// Properties of `first_geq_u16`: it stops at a value that is large enough, after values that
/// are all smaller.
proof fn lemma_first_geq_props(s: Seq<u16>, x: int, i: int)
    requires
        0 <= i <= s.len(),
    ensures
        i <= first_geq_u16(s, x, i) <= s.len(),
        first_geq_u16(s, x, i) < s.len() ==> s[first_geq_u16(s, x, i)] >= x,
        forall|t: int| i <= t < first_geq_u16(s, x, i) ==> s[t] < x,
    decreases s.len() - i,
{
    if i < s.len() && s[i] < x {
        lemma_first_geq_props(s, x, i + 1);
    }
}

/// In a subtable laid out as ordered segments closed by the segment of `0xFFFF`, a code point
/// that no segment but the closing one holds has no glyph.
proof fn lemma_lookup_uncovered(r: Format4, m: Seq<Segment>, c: u32)
    requires
        laid_out(r, m.push(end_segment())),
        segs_ordered(m),
        c <= 0xFFFF,
        forall|j: int| 0 <= j < m.len() ==> !seg_covers(#[trigger] m[j], c as int),
    ensures
        r.spec_glyph_id(c) is None,
{
    let f = m.push(end_segment());
    let ix = r.spec_segment(c as int);
    lemma_first_geq_props(r.end_code@, c as int, 0);
    assert(r.end_code@[f.len() - 1] == 0xFFFF);
    assert(ix < f.len()) by {
        if ix >= f.len() {
            assert(r.end_code@[f.len() - 1] < c);
        }
    }
    if ix < m.len() {
        assert(r.end_code@[ix] == m[ix].end);
        assert(!seg_covers(m[ix], c as int));
        assert(r.start_code@[ix] == m[ix].start);
    } else {
        assert(ix == f.len() - 1);
        assert(r.start_code@[ix] == 0xFFFF);
        if c == 0xFFFF {
            assert(r.id_range_offset@[ix] == 2);
            match r.range_offset_pos(ix, c as int) {
                None => {},
                Some(pos) => {
                    assert(pos == 2 + 2 * ix);
                    assert(pos / 2 == ix + 1);
                    assert(get_u16(r.glyph_id_array@, 0) == 0);
                },
            }
        }
    }
}

/// In a subtable laid out as ordered segments closed by the segment of `0xFFFF`, a code point
/// that segment `j` (not the closing one) holds maps by that segment's delta.
proof fn lemma_lookup_covered(r: Format4, m: Seq<Segment>, c: u32, j: int)
    requires
        laid_out(r, m.push(end_segment())),
        segs_ordered(m),
        0 <= j < m.len(),
        seg_covers(m[j], c as int),
    ensures
        r.spec_glyph_id(c) == Some(((c + m[j].id_delta) % 0x10000) as u16),
{
    let f = m.push(end_segment());
    let ix = r.spec_segment(c as int);
    lemma_first_geq_props(r.end_code@, c as int, 0);
    assert(r.end_code@[j] == m[j].end);
    assert(ix == j) by {
        if ix < j {
            assert(r.end_code@[ix] == m[ix].end);
            assert(m[ix].end < m[j].start);
        }
        if ix > j {
            assert(r.end_code@[j] < c);
        }
    }
    assert(r.start_code@[j] == m[j].start);
    assert(r.id_range_offset@[j] == 0);
    assert(r.id_delta@[j] == m[j].id_delta);
}

/// The closing segment of the subset stays apart from the others: the highest code point
/// mapped is not `0xFFFE` or `0xFFFF` mapped to a glyph id equal to itself (the closing segment
/// would absorb it, and the lookup then finds no glyph for it).
pub open spec fn end_segment_apart(glyphs: Seq<Glyph>) -> bool {
    let s = single_segments(sort_by_code_point(glyph_code_points(glyphs, 0xFFFF)));
    s.len() == 0 || s.last().id_delta != 0 || s.last().start < 0xFFFE
}

/// Adding the wrapped difference of `g` and `c` to `c` modulo 65536 gives `g`.
proof fn lemma_wrap16(c: int, g: int)
    requires
        0 <= c <= 0xFFFF,
        0 <= g <= 0xFFFF,
    ensures
        (c + wrap16(g - c)) % 0x10000 == g,
{
    let x = g - c;
    let m = x % 0x10000;
    if x >= 0 {
        assert(m == x);
    } else {
        assert(m == x + 0x10000);
    }
    let w = wrap16(x) as int;
    if m >= 0x8000 {
        assert(w == m - 0x10000);
    } else {
        assert(w == m);
    }
    let y = c + w;
    if y >= 0x10000 {
        assert(y == g + 0x10000);
    } else if y < 0 {
        assert(y == g - 0x10000);
    } else {
        assert(y == g);
    }
}

/// A subset maps the code points of its glyphs to the glyphs' new ids, and no other code
/// point: where no code point belongs to two glyphs and the closing segment stays apart, the
/// subset for `glyphs` maps each code point of the glyph at position `k` to `k + 1` where the
/// code point and `k + 1` fit into a `u16`, and to nothing otherwise; a code point of no glyph
/// maps to nothing; and
/// no lookup reaches past the glyph id array.
pub proof fn law_format4_subset_lookup(t: Format4, glyphs: Seq<Glyph>, r: Format4)
    requires
        t.subset_result(glyphs, r),
        code_points_distinct(glyphs),
        end_segment_apart(glyphs),
    ensures
        forall|k: int, i: int|
            0 <= k < glyphs.len() && 0 <= i < glyphs[k].code_points@.len() ==> r.spec_glyph_id(
                #[trigger] glyphs[k].code_points@[i],
            ) == (if glyphs[k].code_points@[i] <= 0xFFFF && k + 1 <= 0xFFFF {
                Some((k + 1) as u16)
            } else {
                None
            }),
        forall|c: u32|
            (forall|k: int, i: int|
                0 <= k < glyphs.len() && 0 <= i < glyphs[k].code_points@.len()
                    ==> #[trigger] glyphs[k].code_points@[i] != c) ==> r.spec_glyph_id(c) is None,
        forall|c: u32| !r.lookup_out_of_bounds(c),
{
    let p = glyph_code_points(glyphs, 0xFFFF);
    lemma_glyph_code_points(glyphs, 0xFFFF);
    lemma_code_points_bounded(glyphs, 0xFFFF);
    lemma_sort_sorted(p);
    lemma_sort_bounded(p, 0xFFFF);
    let q = sort_by_code_point(p);
    lemma_single_segments(q);
    let s = single_segments(q);
    lemma_merge_segments(s);
    let m = merge_segments(s);
    let f = m.push(end_segment());
    assert(s.push(end_segment()).drop_last() =~= s);
    if s.len() > 0 {
        assert(saturating_inc(m.last().end) != end_segment().start || m.last().id_delta != 0);
    }
    assert(subset_segments(glyphs) == f);
    assert(laid_out(r, f));
    // A code point that is the key of no pair with a fitting delta is held by no segment.
    assert forall|c: u32|
        c <= 0xFFFF && (forall|i: int| 0 <= i < q.len() && (#[trigger] q[i]).0 == c ==> delta_of(
            q[i].0 as int,
            q[i].1 as int,
        ) is None) implies r.spec_glyph_id(c) is None by {
        assert forall|j: int| 0 <= j < m.len() implies !seg_covers(#[trigger] m[j], c as int) by {
            if seg_covers(m[j], c as int) {
                assert(starts_at(s, c as int));
                let i = choose|i: int| 0 <= i < s.len() && s[i].start == c;
                assert(pair_with(q, s[i].start as int, s[i].id_delta));
                let qi = choose|qi: int|
                    0 <= qi < q.len() && q[qi].0 == s[i].start && delta_of(q[qi].0 as int, q[qi].1 as int) == Some(
                        s[i].id_delta,
                    );
                assert(q[qi].0 == c);
            }
        }
        lemma_lookup_uncovered(r, m, c);
    }
    // A code point that no pair has.
    assert forall|c: u32|
        c <= 0xFFFF && (forall|qi: int| 0 <= qi < q.len() ==> (#[trigger] q[qi]).0 != c) implies r.spec_glyph_id(c) is None by {
        assert(forall|i: int| 0 <= i < q.len() && (#[trigger] q[i]).0 == c ==> delta_of(
            q[i].0 as int,
            q[i].1 as int,
        ) is None);
    }
    assert forall|k: int, i: int|
        0 <= k < glyphs.len() && 0 <= i < glyphs[k].code_points@.len() implies r.spec_glyph_id(
            #[trigger] glyphs[k].code_points@[i],
        ) == (if glyphs[k].code_points@[i] <= 0xFFFF && k + 1 <= 0xFFFF {
            Some((k + 1) as u16)
        } else {
            None
        }) by {
        let c = glyphs[k].code_points@[i];
        if c <= 0xFFFF {
            if k + 1 <= 0xFFFF {
                let pair = (c, (k + 1) as u32);
                assert(p.contains(pair));
                assert(q.contains(pair));
                let qi = choose|qi: int| 0 <= qi < q.len() && q[qi] == pair;
                assert(delta_of(q[qi].0 as int, q[qi].1 as int) is Some);
                assert(has_single(s, q[qi]));
                let j = choose|j: int|
                    0 <= j < s.len() && s[j].start == q[qi].0 && delta_of(q[qi].0 as int, q[qi].1 as int) == Some(
                        s[j].id_delta,
                    );
                assert(covered_with(m, s[j]));
                let jm = choose|jm: int|
                    0 <= jm < m.len() && seg_covers(m[jm], s[j].start as int) && m[jm].id_delta == s[j].id_delta;
                lemma_lookup_covered(r, m, c, jm);
                lemma_wrap16(c as int, k + 1);
            } else {
                assert forall|qi: int| 0 <= qi < q.len() implies (#[trigger] q[qi]).0 != c by {
                    assert(q.contains(q[qi]));
                    assert(p.contains(q[qi]));
                    let pj = choose|pj: int| 0 <= pj < p.len() && p[pj] == q[qi];
                    assert(from_glyphs(glyphs, 0xFFFF, p[pj]));
                    let (k2, i2) = choose|k2: int, i2: int|
                        0 <= k2 < glyphs.len() && 0 <= i2 < glyphs[k2].code_points@.len() && k2 + 1 <= 0xFFFF
                            && glyphs[k2].code_points@[i2] <= 0xFFFF && p[pj] == (
                            glyphs[k2].code_points@[i2],
                            (k2 + 1) as u32,
                        );
                    assert(glyphs[k2].code_points@[i2] != glyphs[k].code_points@[i]);
                }
            }
        }
    }
    assert forall|c: u32|
        (forall|k: int, i: int|
            0 <= k < glyphs.len() && 0 <= i < glyphs[k].code_points@.len()
                ==> #[trigger] glyphs[k].code_points@[i] != c) implies r.spec_glyph_id(c) is None by {
        if c <= 0xFFFF {
            assert forall|qi: int| 0 <= qi < q.len() implies (#[trigger] q[qi]).0 != c by {
                assert(q.contains(q[qi]));
                assert(p.contains(q[qi]));
                let pj = choose|pj: int| 0 <= pj < p.len() && p[pj] == q[qi];
                assert(from_glyphs(glyphs, 0xFFFF, p[pj]));
                let (k2, i2) = choose|k2: int, i2: int|
                    0 <= k2 < glyphs.len() && 0 <= i2 < glyphs[k2].code_points@.len() && k2 + 1 <= 0xFFFF
                        && glyphs[k2].code_points@[i2] <= 0xFFFF && p[pj] == (
                        glyphs[k2].code_points@[i2],
                        (k2 + 1) as u32,
                    );
                assert(glyphs[k2].code_points@[i2] != c);
            }
        }
    }
    assert forall|c: u32| !r.lookup_out_of_bounds(c) by {
        let ix = r.spec_segment(c as int);
        lemma_first_geq_props(r.end_code@, c as int, 0);
        if r.lookup_out_of_bounds(c) {
            assert(r.id_range_offset@[ix] == (if ix == f.len() - 1 { 2u16 } else { 0u16 }));
            assert(ix == f.len() - 1);
            assert(r.start_code@[ix] == 0xFFFF);
            let pos = r.range_offset_pos(ix, c as int)->0;
            assert(pos == 2 + 2 * ix);
        }
    }
}

} // verus!

verus! {

/// The layout of a subset: its four arrays hold one entry per segment, as many as its segment
/// count says where that count fits 16 bits; the segments are ranges in increasing order,
/// apart from one another; the last is the closing one at 0xFFFF. This holds where no code
/// point belongs to two glyphs, all of them lie below 0xFFFF, and the closing segment stays
/// apart.
pub proof fn law_format4_subset_shape(t: Format4, glyphs: Seq<Glyph>, r: Format4)
    requires
        t.subset_result(glyphs, r),
        code_points_distinct(glyphs),
        end_segment_apart(glyphs),
        forall|k: int, i: int|
            0 <= k < glyphs.len() && 0 <= i < glyphs[k].code_points@.len() ==> #[trigger] glyphs[k].code_points@[i]
                < 0xFFFF,
    ensures
        r.start_code@.len() == r.end_code@.len() && r.id_delta@.len() == r.end_code@.len()
            && r.id_range_offset@.len() == r.end_code@.len(),
        2 * r.end_code@.len() <= 0xFFFF ==> r.seg_count_x2 == 2 * r.end_code@.len(),
        r.end_code@.len() >= 1,
        r.end_code@.last() == 0xFFFF && r.start_code@.last() == 0xFFFF,
        forall|i: int| 0 <= i < r.end_code@.len() ==> r.start_code@[i] <= #[trigger] r.end_code@[i],
        forall|i: int, j: int|
            0 <= i < j < r.end_code@.len() ==> #[trigger] r.end_code@[i] < #[trigger] r.start_code@[j],
{
    let p = glyph_code_points(glyphs, 0xFFFF);
    lemma_glyph_code_points(glyphs, 0xFFFF);
    lemma_code_points_bounded(glyphs, 0xFFFF);
    lemma_sort_sorted(p);
    lemma_sort_bounded(p, 0xFFFF);
    let q = sort_by_code_point(p);
    lemma_single_segments(q);
    let s = single_segments(q);
    lemma_merge_segments(s);
    let m = merge_segments(s);
    let f = m.push(end_segment());
    assert(s.push(end_segment()).drop_last() =~= s);
    if s.len() > 0 {
        // the last single segment comes from a code point below 0xFFFF
        let j = s.len() - 1;
        assert(pair_with(q, s[j].start as int, s[j].id_delta));
        let qi = choose|qi: int|
            0 <= qi < q.len() && q[qi].0 == s[j].start && delta_of(q[qi].0 as int, q[qi].1 as int) == Some(
                s[j].id_delta,
            );
        assert(q.contains(q[qi]));
        assert(p.contains(q[qi]));
        let pj = choose|pj: int| 0 <= pj < p.len() && p[pj] == q[qi];
        assert(from_glyphs(glyphs, 0xFFFF, p[pj]));
        assert(s.last().start < 0xFFFF);
    }
    assert(subset_segments(glyphs) == f);
    assert(r.end_code@ =~= f.map_values(|g: Segment| g.end));
    assert(r.start_code@ =~= f.map_values(|g: Segment| g.start));
    assert forall|i: int| 0 <= i < r.end_code@.len() implies r.start_code@[i] <= #[trigger] r.end_code@[i] by {
        if i < m.len() {
            assert(f[i] == m[i]);
        }
    }
    assert forall|i: int, j: int|
        0 <= i < j < r.end_code@.len() implies #[trigger] r.end_code@[i] < #[trigger] r.start_code@[j] by {
        assert(f[i] == m[i]);
        if j < m.len() {
            assert(f[j] == m[j]);
        } else {
            assert(m[i].end <= m.last().end);
        }
    }
}

} // verus!

verus! {

/// Reading a format 4 subtable (after its format and length header), with `n` segments, `n`
/// half the big-endian value at 2: the language at 0, the doubled segment count at 2, the
/// search range, entry selector and range shift at 4, 6 and 8; the end codes from 10, the
/// reserved pad at `10 + 2 n`, the start codes from `12 + 2 n`, the signed deltas from
/// `12 + 4 n`, the range offsets from `12 + 6 n`, each a big-endian 16-bit value per segment;
/// the glyph id array is the rest, from `12 + 8 n`.
pub proof fn law_format4_layout_read(s: Seq<u8>)
    ensures
        Format4::spec_unpack(s) matches Some(v) ==> {
            let n = be_u16_value(s, 2) / 2;
            &&& v.language == be_u16_value(s, 0)
            &&& v.seg_count_x2 == be_u16_value(s, 2)
            &&& v.search_range == be_u16_value(s, 4)
            &&& v.entry_selector == be_u16_value(s, 6)
            &&& v.range_shift == be_u16_value(s, 8)
            &&& v.end_code.len() == n && v.start_code.len() == n && v.id_delta.len() == n
                && v.id_range_offset.len() == n
            &&& v.reserved_pad == be_u16_value(s, 10 + 2 * n)
            &&& forall|k: int|
                0 <= k < n ==> #[trigger] v.end_code[k] == be_u16_value(s, 10 + 2 * k) && v.start_code[k]
                    == be_u16_value(s, 12 + 2 * n + 2 * k) && v.id_delta[k] == be_i16_value(s, 12 + 4 * n + 2 * k)
                    && v.id_range_offset[k] == be_u16_value(s, 12 + 6 * n + 2 * k)
            &&& v.glyph_id_array == s.subrange(12 + 8 * n, s.len() as int)
        },
        s.len() >= 10 ==> (Format4::spec_unpack(s) is Some <==> s.len() >= 12 + 8 * (be_u16_value(s, 2) / 2)),
{
    if s.len() >= 10 {
        lemma_get_u16_value(s, 0);
        lemma_get_u16_value(s, 2);
        lemma_get_u16_value(s, 4);
        lemma_get_u16_value(s, 6);
        lemma_get_u16_value(s, 8);
        let n = (get_u16(s, 2) / 2) as int;
        if s.len() >= 12 + 8 * n {
            lemma_get_u16_value(s, 10 + 2 * n);
            assert forall|k: int| 0 <= k < n implies #[trigger] get_u16s(s, 10, n as nat)[k] == be_u16_value(
                s,
                10 + 2 * k,
            ) && get_u16s(s, 12 + 2 * n, n as nat)[k] == be_u16_value(s, 12 + 2 * n + 2 * k) && get_i16s(
                s,
                12 + 4 * n,
                n as nat,
            )[k] == be_i16_value(s, 12 + 4 * n + 2 * k) && get_u16s(s, 12 + 6 * n, n as nat)[k] == be_u16_value(
                s,
                12 + 6 * n + 2 * k,
            ) by {
                lemma_get_u16_value(s, 10 + 2 * k);
                lemma_get_u16_value(s, 12 + 2 * n + 2 * k);
                lemma_get_u16_value(s, 12 + 4 * n + 2 * k);
                lemma_get_u16_value(s, 12 + 6 * n + 2 * k);
            }
        }
    }
}

} // verus!

verus! {

/// Looking up a code point in a format 4 subtable whose four arrays have one entry per segment
/// and whose segments are ranges in increasing order: a code point in segment `j` whose range
/// offset is 0 maps to the code point plus the segment's delta, modulo 65536; a code point up
/// to 0xFFFF in no segment maps to nothing.
pub proof fn law_format4_lookup(t: Format4, c: u32)
    requires
        t.start_code@.len() == t.end_code@.len(),
        t.id_delta@.len() == t.end_code@.len(),
        t.id_range_offset@.len() == t.end_code@.len(),
        forall|i: int| 0 <= i < t.end_code@.len() ==> t.start_code@[i] <= #[trigger] t.end_code@[i],
        forall|i: int, j: int|
            0 <= i < j < t.end_code@.len() ==> #[trigger] t.end_code@[i] < #[trigger] t.start_code@[j],
    ensures
        forall|j: int|
            0 <= j < t.end_code@.len() && t.start_code@[j] <= c <= #[trigger] t.end_code@[j] && t.id_range_offset@[j]
                == 0 ==> t.spec_glyph_id(c) == Some((((c + t.id_delta@[j]) % 0x10000 + 0x10000) % 0x10000) as u16),
        c <= 0xFFFF && (forall|j: int|
            0 <= j < t.end_code@.len() ==> !(t.start_code@[j] <= c <= #[trigger] t.end_code@[j]))
            ==> t.spec_glyph_id(c) is None,
{
    let e = t.end_code@;
    lemma_first_geq_props(e, c as int, 0);
    let ix = first_geq_u16(e, c as int, 0);
    assert forall|j: int|
        0 <= j < e.len() && t.start_code@[j] <= c <= #[trigger] e[j] && t.id_range_offset@[j] == 0 implies t.spec_glyph_id(c)
        == Some((((c + t.id_delta@[j]) % 0x10000 + 0x10000) % 0x10000) as u16) by {
        if ix < j {
            assert(e[ix] < t.start_code@[j]);
        }
        if j < ix {
            assert(e[j] < c);
        }
        assert(ix == j);
    }
    if c <= 0xFFFF && (forall|j: int| 0 <= j < e.len() ==> !(t.start_code@[j] <= c <= #[trigger] e[j])) {
        if ix < e.len() {
            assert(!(t.start_code@[ix] <= c <= e[ix]));
        }
    }
}

} // verus!
