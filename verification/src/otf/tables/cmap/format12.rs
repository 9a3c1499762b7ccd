//! CMAP subtable format 12: segmented coverage.
use vstd::prelude::*;
use crate::big_endian::{be32, be_u32_value, get_u32, lemma_get_u32, lemma_get_u32_value, read_u32_at, write_u32};
use crate::otf::error::FontError;
use crate::otf::tables::cmap::code_points::{
    code_points_distinct, collect_code_points, from_glyphs, glyph_code_points, lemma_glyph_code_points, lemma_sort_sorted,
    sort_by_code_point, sort_code_points, strictly_sorted,
};
use crate::otf::tables::Glyph;

verus! {

/// A format 12 CMAP subtable.
#[derive(Debug, PartialEq, Clone)]
pub struct Format12 {
    pub language: u32,
    pub num_groups: u32,
    pub sequential_map_groups: Vec<SequentialMapGroup>,
}

/// A range of consecutive code points mapped to consecutive glyph ids.
#[derive(Debug, PartialEq, Clone, Copy, Default)]
pub struct SequentialMapGroup {
    pub start_char_code: u32,
    pub end_char_code: u32,
    pub start_glyph_id: u32,
}

/// The first group at or after `i` whose end code is at least `x`, or the length if none is.
pub open spec fn first_group_geq(s: Seq<SequentialMapGroup>, x: int, i: int) -> int
    decreases s.len() - i,
{
    if i < 0 || i >= s.len() {
        s.len() as int
    } else if s[i].end_char_code >= x {
        i
    } else {
        first_group_geq(s, x, i + 1)
    }
}

proof fn lemma_first_group_geq(s: Seq<SequentialMapGroup>, x: int, i: int)
    requires
        0 <= i <= s.len(),
    ensures
        i <= first_group_geq(s, x, i) <= s.len(),
    decreases s.len() - i,
{
    if i < s.len() && s[i].end_char_code < x {
        lemma_first_group_geq(s, x, i + 1);
    }
}

/// The bytes of one group.
pub open spec fn group_bytes(g: SequentialMapGroup) -> Seq<u8> {
    be32(g.start_char_code) + be32(g.end_char_code) + be32(g.start_glyph_id)
}

/// The bytes of all groups.
pub open spec fn groups_bytes(s: Seq<SequentialMapGroup>) -> Seq<u8>
    decreases s.len(),
{
    if s.len() == 0 {
        Seq::empty()
    } else {
        groups_bytes(s.drop_last()) + group_bytes(s.last())
    }
}

/// The group stored at position `i`.
pub open spec fn get_group(s: Seq<u8>, i: int) -> SequentialMapGroup {
    SequentialMapGroup {
        start_char_code: get_u32(s, i),
        end_char_code: get_u32(s, i + 4),
        start_glyph_id: get_u32(s, i + 8),
    }
}

/// The `n` groups stored from position `start` on.
pub open spec fn get_groups(s: Seq<u8>, start: int, n: nat) -> Seq<SequentialMapGroup> {
    Seq::new(n, |k: int| get_group(s, start + 12 * k))
}

proof fn lemma_groups_bytes(v: Seq<SequentialMapGroup>)
    ensures
        groups_bytes(v).len() == 12 * v.len(),
        forall|k: int| 0 <= k < v.len() ==> #[trigger] get_group(groups_bytes(v), 12 * k) == v[k],
    decreases v.len(),
{
    if v.len() > 0 {
        lemma_groups_bytes(v.drop_last());
        let p = groups_bytes(v.drop_last());
        let b = groups_bytes(v);
        assert forall|k: int| 0 <= k < v.len() implies #[trigger] get_group(b, 12 * k) == v[k] by {
            if k < v.len() - 1 {
                assert(get_group(p, 12 * k) == v.drop_last()[k]);
                assert forall|j: int| 0 <= j < 12 implies #[trigger] b[12 * k + j] == p[12 * k + j] by {}
            } else {
                let g = v.last();
                assert(b.subrange(12 * k, 12 * k + 4) =~= be32(g.start_char_code));
                assert(b.subrange(12 * k + 4, 12 * k + 8) =~= be32(g.end_char_code));
                assert(b.subrange(12 * k + 8, 12 * k + 12) =~= be32(g.start_glyph_id));
                lemma_get_u32(b, 12 * k, g.start_char_code);
                lemma_get_u32(b, 12 * k + 4, g.end_char_code);
                lemma_get_u32(b, 12 * k + 8, g.start_glyph_id);
            }
        }
    }
}

/// `e + 1`, saturating at `u32::MAX`.
pub open spec fn saturating_inc32(e: u32) -> u32 {
    if e == 0xFFFF_FFFF { 0xFFFF_FFFF } else { (e + 1) as u32 }
}

/// Appends `x` to the merged groups `m`, extending the last one where `x` continues both its
/// code points and its glyph ids.
pub open spec fn merge_group_step(m: Seq<SequentialMapGroup>, x: SequentialMapGroup) -> Seq<
    SequentialMapGroup,
> {
    if m.len() > 0 && saturating_inc32(m.last().end_char_code) == x.start_char_code
        && m.last().start_glyph_id + (x.start_char_code - m.last().start_char_code)
        == x.start_glyph_id {
        m.update(m.len() - 1, SequentialMapGroup { end_char_code: x.start_char_code, ..m.last() })
    } else {
        m.push(x)
    }
}

/// A single-code-point group for every pair.
pub open spec fn single_groups(p: Seq<(u32, u32)>) -> Seq<SequentialMapGroup> {
    p.map_values(
        |c: (u32, u32)|
            SequentialMapGroup { start_char_code: c.0, end_char_code: c.0, start_glyph_id: c.1 },
    )
}

/// Merges adjacent groups from left to right.
pub open spec fn merge_groups(s: Seq<SequentialMapGroup>) -> Seq<SequentialMapGroup>
    decreases s.len(),
{
    if s.len() == 0 {
        Seq::empty()
    } else {
        merge_group_step(merge_groups(s.drop_last()), s.last())
    }
}

/// The groups of the subset for `glyphs`.
pub open spec fn subset_groups(glyphs: Seq<Glyph>) -> Seq<SequentialMapGroup> {
    merge_groups(single_groups(sort_by_code_point(glyph_code_points(glyphs, 0xFFFF_FFFF))))
}

impl View for Format12 {
    type V = (u32, u32, Seq<SequentialMapGroup>);

    open spec fn view(&self) -> (u32, u32, Seq<SequentialMapGroup>) {
        (self.language, self.num_groups, self.sequential_map_groups@)
    }
}

/// Searches for the first group whose end code is at least `codepoint`.
fn group_index(groups: &Vec<SequentialMapGroup>, codepoint: u32) -> (ix: usize)
    ensures
        ix == first_group_geq(groups@, codepoint as int, 0),
{
    let mut ix: usize = 0;
    while ix < groups.len()
        invariant
            ix <= groups@.len(),
            first_group_geq(groups@, codepoint as int, 0) == first_group_geq(
                groups@,
                codepoint as int,
                ix as int,
            ),
        decreases groups@.len() - ix,
    {
        if groups[ix].end_char_code >= codepoint {
            return ix;
        }
        ix = ix + 1;
    }
    ix
}

impl Format12 {
    /// The glyph id of `codepoint`, as the format 12 lookup defines it.
    pub open spec fn spec_glyph_id(self, codepoint: u32) -> Option<u16> {
        let groups = self.sequential_map_groups@;
        let ix = first_group_geq(groups, codepoint as int, 0);
        if ix >= groups.len() || codepoint < groups[ix].start_char_code || codepoint
            > groups[ix].end_char_code {
            None
        } else {
            let g = groups[ix].start_glyph_id + (codepoint - groups[ix].start_char_code);
            if g > 0xFFFF {
                None
            } else {
                Some(g as u16)
            }
        }
    }

    /// Maps a code point to its glyph id.
    pub fn glyph_id(&self, codepoint: u32) -> (r: Option<u16>)
        ensures
            r == self.spec_glyph_id(codepoint),
    {
        let groups = &self.sequential_map_groups;
        let ix = group_index(groups, codepoint);
        proof {
            lemma_first_group_geq(groups@, codepoint as int, 0);
        }
        if ix >= groups.len() {
            return None;
        }
        let group = groups[ix];
        if codepoint < group.start_char_code || codepoint > group.end_char_code {
            return None;
        }
        let g: u64 = group.start_glyph_id as u64 + (codepoint - group.start_char_code) as u64;
        if g > 0xFFFF {
            None
        } else {
            Some(g as u16)
        }
    }

    /// The subtable that the bytes `s` (everything after the format, reserved and length
    /// header) hold, or `None` where they end too early.
    pub open spec fn spec_unpack(s: Seq<u8>) -> Option<(u32, u32, Seq<SequentialMapGroup>)> {
        if s.len() < 8 || s.len() < 8 + 12 * get_u32(s, 4) {
            None
        } else {
            Some((get_u32(s, 0), get_u32(s, 4), get_groups(s, 8, get_u32(s, 4) as nat)))
        }
    }

    /// The bytes that `pack` writes; the group count is the number of groups (modulo 2^32).
    #[verifier::opaque]
    pub open spec fn spec_pack(self) -> Seq<u8> {
        be32(self.language) + be32((self.sequential_map_groups@.len() % 0x1_0000_0000) as u32)
            + groups_bytes(self.sequential_map_groups@)
    }

    /// Reads a format 12 subtable from `data`, which holds the subtable without its format,
    /// reserved and length header.
    pub fn unpack(data: &[u8]) -> (r: Result<Format12, FontError>)
        ensures
            match r {
                Ok(t) => Self::spec_unpack(data@) == Some(t@),
                Err(e) => Self::spec_unpack(data@) is None && e == FontError::UnexpectedEof,
            },
    {
        let len = data.len();
        if len < 8 {
            return Err(FontError::UnexpectedEof);
        }
        let language = read_u32_at(data, 0);
        let num_groups = read_u32_at(data, 4);
        if (len as u64) < 8 + 12 * (num_groups as u64) {
            return Err(FontError::UnexpectedEof);
        }
        let mut groups: Vec<SequentialMapGroup> = Vec::new();
        let mut k: usize = 0;
        let n = num_groups as usize;
        while k < n
            invariant
                k <= n,
                n == num_groups,
                len == data@.len(),
                8 + 12 * n <= len,
                groups@ == get_groups(data@, 8, k as nat),
            decreases n - k,
        {
            let at = 8 + 12 * k;
            groups.push(
                SequentialMapGroup {
                    start_char_code: read_u32_at(data, at),
                    end_char_code: read_u32_at(data, at + 4),
                    start_glyph_id: read_u32_at(data, at + 8),
                },
            );
            k = k + 1;
            assert(groups@ =~= get_groups(data@, 8, k as nat));
        }
        Ok(Format12 { language, num_groups, sequential_map_groups: groups })
    }

    /// Appends the subtable (without its format, reserved and length header) to `out`.
    pub fn pack(&self, out: &mut Vec<u8>)
        ensures
            final(out)@ == old(out)@ + self.spec_pack(),
    {
        reveal(Format12::spec_pack);
        let ghost start = out@;
        write_u32(out, self.language);
        let len = self.sequential_map_groups.len();
        write_u32(out, (len as u64 % 0x1_0000_0000) as u32);
        let ghost mid = out@;
        let mut k: usize = 0;
        while k < len
            invariant
                k <= len,
                len == self.sequential_map_groups@.len(),
                out@ == mid + groups_bytes(self.sequential_map_groups@.subrange(0, k as int)),
            decreases len - k,
        {
            let g = self.sequential_map_groups[k];
            write_u32(out, g.start_char_code);
            write_u32(out, g.end_char_code);
            write_u32(out, g.start_glyph_id);
            k = k + 1;
            assert(self.sequential_map_groups@.subrange(0, k as int).drop_last()
                =~= self.sequential_map_groups@.subrange(0, k - 1));
            assert(out@ =~= mid + groups_bytes(self.sequential_map_groups@.subrange(0, k as int)));
        }
        assert(self.sequential_map_groups@.subrange(0, len as int) =~= self.sequential_map_groups@);
        assert(final(out)@ =~= start + self.spec_pack());
    }

    /// Reading back what `pack` wrote gives the same subtable, when the group count matches.
    pub proof fn lemma_pack_unpack(self)
        requires
            self.num_groups == self.sequential_map_groups@.len(),
        ensures
            Self::spec_unpack(self.spec_pack()) == Some(self@),
    {
        reveal(Format12::spec_pack);
        let s = self.spec_pack();
        let v = self.sequential_map_groups@;
        lemma_groups_bytes(v);
        assert(s.subrange(0, 4) =~= be32(self.language));
        lemma_get_u32(s, 0, self.language);
        assert(s.subrange(4, 8) =~= be32(self.num_groups));
        lemma_get_u32(s, 4, self.num_groups);
        let b = groups_bytes(v);
        assert forall|k: int| 0 <= k < v.len() implies #[trigger] get_groups(s, 8, v.len())[k]
            == v[k] by {
            assert(get_group(b, 12 * k) == v[k]);
            assert forall|j: int| 0 <= j < 12 implies #[trigger] s[8 + 12 * k + j] == b[12 * k + j] by {}
        }
        assert(get_groups(s, 8, v.len()) =~= v);
    }

    /// What `subset` returns for `glyphs`.
    pub open spec fn subset_result(self, glyphs: Seq<Glyph>, r: Format12) -> bool {
        &&& r.language == self.language
        &&& r.sequential_map_groups@ == if subset_groups(glyphs).len() > 0xFFFF_FFFF {
            subset_groups(glyphs).take(0xFFFF_FFFF)
        } else {
            subset_groups(glyphs)
        }
        &&& r.num_groups == r.sequential_map_groups@.len()
    }

    /// Creates a subset of the subtable for `glyphs`: the glyph at position `k` gets index
    /// `k + 1`.
    pub fn subset(&self, glyphs: &[Glyph]) -> (r: Format12)
        requires
            glyphs@.len() < 0xFFFF_FFFF,
        ensures
            self.subset_result(glyphs@, r),
    {
        let pairs = collect_code_points(glyphs, 0xFFFF_FFFF);
        let sorted = sort_code_points(&pairs);
        let mut segments: Vec<SequentialMapGroup> = Vec::new();
        let mut k: usize = 0;
        while k < sorted.len()
            invariant
                k <= sorted@.len(),
                segments@ == merge_groups(single_groups(sorted@.subrange(0, k as int))),
                forall|j: int|
                    0 <= j < segments@.len() ==> #[trigger] segments@[j].start_char_code
                        <= segments@[j].end_char_code,
            decreases sorted@.len() - k,
        {
            let (c, i) = sorted[k];
            let x = SequentialMapGroup { start_char_code: c, end_char_code: c, start_glyph_id: i };
            let ghost singles = single_groups(sorted@.subrange(0, k + 1));
            assert(singles.drop_last() =~= single_groups(sorted@.subrange(0, k as int)));
            assert(singles.last() == x);
            let n = segments.len();
            if n > 0 {
                let prev = segments[n - 1];
                let next_end: u32 = if prev.end_char_code == 0xFFFF_FFFF {
                    0xFFFF_FFFF
                } else {
                    prev.end_char_code + 1
                };
                if next_end == c && c >= prev.start_char_code && prev.start_glyph_id as u64 + (c
                    - prev.start_char_code) as u64 == i as u64 {
                    segments.set(
                        n - 1,
                        SequentialMapGroup {
                            start_char_code: prev.start_char_code,
                            end_char_code: c,
                            start_glyph_id: prev.start_glyph_id,
                        },
                    );
                } else {
                    segments.push(x);
                }
            } else {
                segments.push(x);
            }
            k = k + 1;
        }
        assert(sorted@.subrange(0, k as int) =~= sorted@);
        assert(segments@ == subset_groups(glyphs@));
        if segments.len() > 0xFFFF_FFFF {
            segments.truncate(0xFFFF_FFFF);
        }
        let num_groups = segments.len() as u32;
        Format12 { language: self.language, num_groups, sequential_map_groups: segments }
    }
}

/// The group holds the code point `c`.
pub open spec fn group_covers(g: SequentialMapGroup, c: int) -> bool {
    g.start_char_code <= c <= g.end_char_code
}

/// The groups are ranges in increasing order, apart from one another.
pub open spec fn groups_ordered(g: Seq<SequentialMapGroup>) -> bool {
    &&& forall|i: int| 0 <= i < g.len() ==> (#[trigger] g[i]).start_char_code <= g[i].end_char_code
    &&& forall|i: int, j: int| 0 <= i < j < g.len() ==> (#[trigger] g[i]).end_char_code < (#[trigger] g[j]).start_char_code
}

/// Merging strictly sorted pairs into groups: ordered groups, no more than the pairs, the
/// last ending at the last code point, each pair held by a group that maps its code point to
/// its glyph, and each code point of a group one of the pairs.
proof fn lemma_merge_groups(q: Seq<(u32, u32)>)
    requires
        strictly_sorted(q),
    ensures
        groups_ordered(merge_groups(single_groups(q))),
        merge_groups(single_groups(q)).len() <= q.len(),
        q.len() > 0 ==> merge_groups(single_groups(q)).len() > 0 && merge_groups(single_groups(q)).last().end_char_code
            == q.last().0,
        forall|i: int|
            0 <= i < q.len() ==> exists|j: int|
                0 <= j < merge_groups(single_groups(q)).len() && group_covers(
                    #[trigger] merge_groups(single_groups(q))[j],
                    (#[trigger] q[i]).0 as int,
                ) && merge_groups(single_groups(q))[j].start_glyph_id + (q[i].0 - merge_groups(
                    single_groups(q),
                )[j].start_char_code) == q[i].1,
        forall|j: int, c: int|
            0 <= j < merge_groups(single_groups(q)).len() && #[trigger] group_covers(
                merge_groups(single_groups(q))[j],
                c,
            ) ==> exists|i: int| 0 <= i < q.len() && (#[trigger] q[i]).0 == c,
    decreases q.len(),
{
    let g = merge_groups(single_groups(q));
    if q.len() == 0 {
        assert(single_groups(q) =~= Seq::<SequentialMapGroup>::empty());
    } else {
        let d = q.drop_last();
        let x = q.last();
        assert(forall|i: int| 0 <= i < d.len() ==> d[i] == q[i]);
        lemma_merge_groups(d);
        assert(single_groups(q).drop_last() =~= single_groups(d));
        let m = merge_groups(single_groups(d));
        let xg = SequentialMapGroup { start_char_code: x.0, end_char_code: x.0, start_glyph_id: x.1 };
        assert(single_groups(q).last() == xg);
        assert(g == merge_group_step(m, xg));
        if d.len() > 0 {
            assert(m.last().end_char_code == d.last().0);
            assert(d.last().0 < x.0) by {
                assert(q[q.len() - 2].0 < q[q.len() - 1].0);
            }
        }
        if m.len() > 0 && saturating_inc32(m.last().end_char_code) == xg.start_char_code
            && m.last().start_glyph_id + (xg.start_char_code - m.last().start_char_code) == xg.start_glyph_id {
            let l = m.len() - 1;
            assert(m.last().end_char_code + 1 == x.0);
            assert(g == m.update(l, SequentialMapGroup { end_char_code: x.0, ..m.last() }));
            assert forall|i: int, j: int| 0 <= i < j < g.len() implies (#[trigger] g[i]).end_char_code < (#[trigger] g[j]).start_char_code by {
                assert(m[i].end_char_code < m[j].start_char_code);
            }
            assert forall|i: int| 0 <= i < q.len() implies exists|j: int|
                0 <= j < g.len() && group_covers(#[trigger] g[j], (#[trigger] q[i]).0 as int) && g[j].start_glyph_id + (q[i].0
                    - g[j].start_char_code) == q[i].1 by {
                if i < q.len() - 1 {
                    assert(d[i] == q[i]);
                    let j = choose|j: int|
                        0 <= j < m.len() && group_covers(#[trigger] m[j], (#[trigger] d[i]).0 as int) && m[j].start_glyph_id + (
                        d[i].0 - m[j].start_char_code) == d[i].1;
                    assert(group_covers(g[j], q[i].0 as int));
                } else {
                    assert(group_covers(g[l], q[i].0 as int));
                }
            }
            assert forall|j: int, c: int| 0 <= j < g.len() && #[trigger] group_covers(g[j], c) implies exists|i: int|
                0 <= i < q.len() && (#[trigger] q[i]).0 == c by {
                if j < l || c <= m[l].end_char_code {
                    assert(group_covers(m[j], c));
                    let i = choose|i: int| 0 <= i < d.len() && (#[trigger] d[i]).0 == c;
                    assert(q[i] == d[i]);
                } else {
                    assert(c == x.0);
                    assert(q[q.len() - 1].0 == c);
                }
            }
        } else {
            assert(g == m.push(xg));
            assert forall|i: int, j: int| 0 <= i < j < g.len() implies (#[trigger] g[i]).end_char_code < (#[trigger] g[j]).start_char_code by {
                if j == g.len() - 1 {
                    if i < m.len() - 1 {
                        assert(m[i].end_char_code < m[m.len() - 1].start_char_code);
                    }
                } else {
                    assert(m[i].end_char_code < m[j].start_char_code);
                }
            }
            assert forall|i: int| 0 <= i < q.len() implies exists|j: int|
                0 <= j < g.len() && group_covers(#[trigger] g[j], (#[trigger] q[i]).0 as int) && g[j].start_glyph_id + (q[i].0
                    - g[j].start_char_code) == q[i].1 by {
                if i < q.len() - 1 {
                    assert(d[i] == q[i]);
                    let j = choose|j: int|
                        0 <= j < m.len() && group_covers(#[trigger] m[j], (#[trigger] d[i]).0 as int) && m[j].start_glyph_id + (
                        d[i].0 - m[j].start_char_code) == d[i].1;
                    assert(g[j] == m[j]);
                } else {
                    assert(g[m.len() as int] == xg);
                }
            }
            assert forall|j: int, c: int| 0 <= j < g.len() && #[trigger] group_covers(g[j], c) implies exists|i: int|
                0 <= i < q.len() && (#[trigger] q[i]).0 == c by {
                if j < m.len() {
                    assert(g[j] == m[j]);
                    let i = choose|i: int| 0 <= i < d.len() && (#[trigger] d[i]).0 == c;
                    assert(q[i] == d[i]);
                } else {
                    assert(q[q.len() - 1].0 == c);
                }
            }
        }
    }
}

/// Looking up a code point in ordered groups finds the group that holds it; where none holds
/// it, the group found starts after it.
proof fn lemma_lookup_ordered(g: Seq<SequentialMapGroup>, c: int, j: int, i: int)
    requires
        groups_ordered(g),
        0 <= i <= j < g.len(),
        group_covers(g[j], c),
    ensures
        first_group_geq(g, c, i) == j,
    decreases j - i,
{
    if i < j {
        assert(g[i].end_char_code < g[j].start_char_code);
        lemma_lookup_ordered(g, c, j, i + 1);
    }
}

proof fn lemma_lookup_missing(g: Seq<SequentialMapGroup>, c: int, i: int)
    requires
        groups_ordered(g),
        0 <= i <= g.len(),
        forall|j: int| 0 <= j < g.len() ==> !group_covers(#[trigger] g[j], c),
    ensures
        first_group_geq(g, c, i) >= g.len() || c < g[first_group_geq(g, c, i)].start_char_code,
    decreases g.len() - i,
{
    if i < g.len() && g[i].end_char_code < c {
        lemma_lookup_missing(g, c, i + 1);
    } else if i < g.len() {
        assert(!group_covers(g[i], c));
    }
}

/// Looking up a code point in a table whose groups are ordered ranges: a code point in group
/// `j` maps to the group's first glyph id plus its distance from the group's first code point,
/// where that fits into a `u16`; a code point in no group maps to nothing.
pub proof fn law_format12_lookup(t: Format12, c: u32)
    requires
        groups_ordered(t.sequential_map_groups@),
    ensures
        forall|j: int|
            0 <= j < t.sequential_map_groups@.len() && #[trigger] group_covers(t.sequential_map_groups@[j], c as int)
                ==> t.spec_glyph_id(c) == ({
                let g = t.sequential_map_groups@[j];
                let id = g.start_glyph_id + (c - g.start_char_code);
                if id <= 0xFFFF { Some(id as u16) } else { None::<u16> }
            }),
        (forall|j: int|
            0 <= j < t.sequential_map_groups@.len() ==> !group_covers(#[trigger] t.sequential_map_groups@[j], c as int))
            ==> t.spec_glyph_id(c) is None,
{
    let g = t.sequential_map_groups@;
    assert forall|j: int|
        0 <= j < g.len() && #[trigger] group_covers(g[j], c as int) implies t.spec_glyph_id(c) == ({
        let gj = g[j];
        let id = gj.start_glyph_id + (c - gj.start_char_code);
        if id <= 0xFFFF { Some(id as u16) } else { None::<u16> }
    }) by {
        lemma_lookup_ordered(g, c as int, j, 0);
    }
    if forall|j: int| 0 <= j < g.len() ==> !group_covers(#[trigger] g[j], c as int) {
        lemma_lookup_missing(g, c as int, 0);
    }
}

/// A subset maps the code points of its glyphs to the glyphs' new ids, and no other code
/// point: where no code point belongs to two glyphs, the subset for `glyphs` maps each code
/// point of the glyph at position `k` to `k + 1`, and a code point of no glyph to nothing.
pub proof fn law_format12_subset_lookup(t: Format12, glyphs: Seq<Glyph>, r: Format12)
    requires
        t.subset_result(glyphs, r),
        glyphs.len() < 0xFFFF,
        code_points_distinct(glyphs),
        glyph_code_points(glyphs, 0xFFFF_FFFF).len() <= 0xFFFF_FFFF,
    ensures
        forall|k: int, i: int|
            0 <= k < glyphs.len() && 0 <= i < glyphs[k].code_points@.len() ==> r.spec_glyph_id(
                #[trigger] glyphs[k].code_points@[i],
            ) == Some((k + 1) as u16),
        forall|c: u32|
            (forall|k: int, i: int| 0 <= k < glyphs.len() && 0 <= i < glyphs[k].code_points@.len() ==> #[trigger] glyphs[k].code_points@[i] != c)
                ==> r.spec_glyph_id(c) is None,
{
    let p = glyph_code_points(glyphs, 0xFFFF_FFFF);
    lemma_glyph_code_points(glyphs, 0xFFFF_FFFF);
    lemma_sort_sorted(p);
    let q = sort_by_code_point(p);
    lemma_merge_groups(q);
    let g = merge_groups(single_groups(q));
    assert(r.sequential_map_groups@ == g);
    assert forall|k: int, i: int| 0 <= k < glyphs.len() && 0 <= i < glyphs[k].code_points@.len() implies r.spec_glyph_id(
        #[trigger] glyphs[k].code_points@[i],
    ) == Some((k + 1) as u16) by {
        let c = glyphs[k].code_points@[i];
        let pair = (c, (k + 1) as u32);
        assert(p.contains(pair));
        assert(q.contains(pair));
        let qi = choose|qi: int| 0 <= qi < q.len() && q[qi] == pair;
        assert(q[qi] == pair);
        let j = choose|j: int|
            0 <= j < g.len() && group_covers(#[trigger] g[j], (#[trigger] q[qi]).0 as int) && g[j].start_glyph_id + (q[qi].0
                - g[j].start_char_code) == q[qi].1;
        lemma_lookup_ordered(g, c as int, j, 0);
    }
    assert forall|c: u32|
        (forall|k: int, i: int| 0 <= k < glyphs.len() && 0 <= i < glyphs[k].code_points@.len() ==> #[trigger] glyphs[k].code_points@[i] != c)
            implies r.spec_glyph_id(c) is None by {
        assert forall|j: int| 0 <= j < g.len() implies !group_covers(#[trigger] g[j], c as int) by {
            if group_covers(g[j], c as int) {
                let qi = choose|qi: int| 0 <= qi < q.len() && (#[trigger] q[qi]).0 == c;
                assert(q.contains(q[qi]));
                assert(p.contains(q[qi]));
                let pj = choose|pj: int| 0 <= pj < p.len() && p[pj] == q[qi];
                assert(from_glyphs(glyphs, 0xFFFF_FFFF, p[pj]));
                let (k, i) = choose|k: int, i: int|
                    0 <= k < glyphs.len() && 0 <= i < glyphs[k].code_points@.len() && #[trigger] p[pj] == (
                        glyphs[k].code_points@[i],
                        (k + 1) as u32,
                    );
                assert(glyphs[k].code_points@[i] == c);
            }
        }
        lemma_lookup_missing(g, c as int, 0);
    }
}

} // verus!

verus! {

/// The layout of a subset: it counts its groups, and they are ranges in increasing order, apart
/// from one another, where no code point belongs to two glyphs.
pub proof fn law_format12_subset_shape(t: Format12, glyphs: Seq<Glyph>, r: Format12)
    requires
        t.subset_result(glyphs, r),
        code_points_distinct(glyphs),
        glyph_code_points(glyphs, 0xFFFF_FFFF).len() <= 0xFFFF_FFFF,
    ensures
        r.num_groups == r.sequential_map_groups@.len(),
        groups_ordered(r.sequential_map_groups@),
{
    let p = glyph_code_points(glyphs, 0xFFFF_FFFF);
    lemma_glyph_code_points(glyphs, 0xFFFF_FFFF);
    lemma_sort_sorted(p);
    let q = sort_by_code_point(p);
    lemma_merge_groups(q);
    assert(r.sequential_map_groups@ == merge_groups(single_groups(q)));
}

} // verus!

verus! {

/// Reading a format 12 subtable (after its format, reserved and length header): the language at
/// 0 and the number of groups at 4 (big-endian, 32 bits); the group `k` at `8 + 12 k`: its
/// first and last character codes and its first glyph id, 32 bits each; it fails where the
/// bytes end before the groups.
pub proof fn law_format12_layout_read(s: Seq<u8>)
    ensures
        s.len() >= 8 ==> (Format12::spec_unpack(s) is Some <==> s.len() >= 8 + 12 * be_u32_value(s, 4)),
        Format12::spec_unpack(s) matches Some((language, n, groups)) ==> {
            &&& language == be_u32_value(s, 0)
            &&& n == be_u32_value(s, 4)
            &&& groups.len() == n
            &&& forall|k: int|
                0 <= k < n ==> (#[trigger] groups[k]).start_char_code == be_u32_value(s, 8 + 12 * k)
                    && groups[k].end_char_code == be_u32_value(s, 12 + 12 * k) && groups[k].start_glyph_id
                    == be_u32_value(s, 16 + 12 * k)
        },
{
    if s.len() >= 8 {
        lemma_get_u32_value(s, 0);
        lemma_get_u32_value(s, 4);
        if s.len() >= 8 + 12 * get_u32(s, 4) {
            let groups = get_groups(s, 8, get_u32(s, 4) as nat);
            assert forall|k: int| 0 <= k < get_u32(s, 4) implies (#[trigger] groups[k]).start_char_code
                == be_u32_value(s, 8 + 12 * k) && groups[k].end_char_code == be_u32_value(s, 12 + 12 * k)
                && groups[k].start_glyph_id == be_u32_value(s, 16 + 12 * k) by {
                lemma_get_u32_value(s, 8 + 12 * k);
                lemma_get_u32_value(s, 8 + 12 * k + 4);
                lemma_get_u32_value(s, 8 + 12 * k + 8);
            }
        }
    }
}

} // verus!
