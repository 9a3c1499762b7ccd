//! The sorted list of (code point, new glyph index) pairs that a CMAP subset is built from.
use vstd::prelude::*;
use crate::otf::tables::Glyph;

verus! {

/// The pairs `(c, index)` for the code points `c <= limit` of `cps`, in order.
pub open spec fn pairs_of(cps: Seq<u32>, index: u32, limit: u32) -> Seq<(u32, u32)>
    decreases cps.len(),
{
    if cps.len() == 0 {
        Seq::empty()
    } else {
        let rest = pairs_of(cps.drop_last(), index, limit);
        if cps.last() <= limit {
            rest.push((cps.last(), index))
        } else {
            rest
        }
    }
}

/// The pairs `(code point, new glyph index)` of all glyphs, in order. The glyph at position `k`
/// gets the new index `k + 1` (index 0 stays reserved for the missing glyph); glyphs whose new
/// index and code points above `limit` are left out.
pub open spec fn glyph_code_points(glyphs: Seq<Glyph>, limit: u32) -> Seq<(u32, u32)>
    decreases glyphs.len(),
{
    if glyphs.len() == 0 {
        Seq::empty()
    } else {
        let rest = glyph_code_points(glyphs.drop_last(), limit);
        if glyphs.len() <= limit {
            rest + pairs_of(glyphs.last().code_points@, glyphs.len() as u32, limit)
        } else {
            rest
        }
    }
}

/// Where a stable insertion puts an element with key `key`: after every element whose key is
/// not greater.
pub open spec fn insert_pos(s: Seq<(u32, u32)>, key: u32) -> nat
    decreases s.len(),
{
    if s.len() == 0 {
        0
    } else if s.last().0 <= key {
        s.len()
    } else {
        insert_pos(s.drop_last(), key)
    }
}

/// The pairs sorted by code point with a stable insertion sort.
pub open spec fn sort_by_code_point(s: Seq<(u32, u32)>) -> Seq<(u32, u32)>
    decreases s.len(),
{
    if s.len() == 0 {
        Seq::empty()
    } else {
        let sorted = sort_by_code_point(s.drop_last());
        sorted.insert(insert_pos(sorted, s.last().0) as int, s.last())
    }
}

proof fn lemma_insert_pos_bound(s: Seq<(u32, u32)>, key: u32)
    ensures
        insert_pos(s, key) <= s.len(),
    decreases s.len(),
{
    if s.len() > 0 && s.last().0 > key {
        lemma_insert_pos_bound(s.drop_last(), key);
    }
}

pub proof fn lemma_sort_len(s: Seq<(u32, u32)>)
    ensures
        sort_by_code_point(s).len() == s.len(),
    decreases s.len(),
{
    if s.len() > 0 {
        lemma_sort_len(s.drop_last());
        lemma_insert_pos_bound(sort_by_code_point(s.drop_last()), s.last().0);
    }
}

/// Collects the pairs of `glyph_code_points(glyphs, limit)`.
pub fn collect_code_points(glyphs: &[Glyph], limit: u32) -> (r: Vec<(u32, u32)>)
    ensures
        r@ == glyph_code_points(glyphs@, limit),
{
    let mut r: Vec<(u32, u32)> = Vec::new();
    let mut k: usize = 0;
    while k < glyphs.len()
        invariant
            k <= glyphs@.len(),
            r@ == glyph_code_points(glyphs@.subrange(0, k as int), limit),
        decreases glyphs@.len() - k,
    {
        let g = &glyphs[k];
        assert(glyphs@.subrange(0, k + 1).drop_last() =~= glyphs@.subrange(0, k as int));
        assert(glyphs@.subrange(0, k + 1).last() == glyphs@[k as int]);
        if k < limit as usize {
            let index = (k + 1) as u32;
            let ghost before = r@;
            let mut j: usize = 0;
            while j < g.code_points.len()
                invariant
                    j <= g.code_points@.len(),
                    k < limit,
                    index == k + 1,
                    r@ == before + pairs_of(g.code_points@.subrange(0, j as int), index, limit),
                decreases g.code_points@.len() - j,
            {
                let c = g.code_points[j];
                assert(g.code_points@.subrange(0, j + 1).drop_last() =~= g.code_points@.subrange(
                    0,
                    j as int,
                ));
                if c <= limit {
                    r.push((c, index));
                }
                j = j + 1;
                assert(r@ =~= before + pairs_of(g.code_points@.subrange(0, j as int), index, limit));
            }
            assert(g.code_points@.subrange(0, j as int) =~= g.code_points@);
        }
        k = k + 1;
    }
    assert(glyphs@.subrange(0, k as int) =~= glyphs@);
    r
}

/// Sorts the pairs by code point, keeping pairs with equal code points in their order.
pub fn sort_code_points(pairs: &Vec<(u32, u32)>) -> (r: Vec<(u32, u32)>)
    ensures
        r@ == sort_by_code_point(pairs@),
{
    let mut sorted: Vec<(u32, u32)> = Vec::new();
    let mut k: usize = 0;
    while k < pairs.len()
        invariant
            k <= pairs@.len(),
            sorted@ == sort_by_code_point(pairs@.subrange(0, k as int)),
        decreases pairs@.len() - k,
    {
        let x = pairs[k];
        proof {
            lemma_sort_len(pairs@.subrange(0, k as int));
        }
        let mut j: usize = sorted.len();
        assert(sorted@.subrange(0, j as int) =~= sorted@);
        while j > 0 && sorted[j - 1].0 > x.0
            invariant
                j <= sorted@.len(),
                insert_pos(sorted@, x.0) == insert_pos(sorted@.subrange(0, j as int), x.0),
            decreases j,
        {
            assert(sorted@.subrange(0, j as int).drop_last() =~= sorted@.subrange(0, j - 1));
            j = j - 1;
        }
        assert(insert_pos(sorted@.subrange(0, j as int), x.0) == j);
        sorted.insert(j, x);
        assert(pairs@.subrange(0, k + 1).drop_last() =~= pairs@.subrange(0, k as int));
        k = k + 1;
    }
    assert(pairs@.subrange(0, k as int) =~= pairs@);
    sorted
}

/// Whether every pair's code point and index are at most `limit`.
pub open spec fn pairs_bounded(s: Seq<(u32, u32)>, limit: u32) -> bool {
    forall|j: int| 0 <= j < s.len() ==> #[trigger] s[j].0 <= limit && s[j].1 <= limit
}

proof fn lemma_pairs_of_bounded(cps: Seq<u32>, index: u32, limit: u32)
    requires
        index <= limit,
    ensures
        pairs_bounded(pairs_of(cps, index, limit), limit),
    decreases cps.len(),
{
    if cps.len() > 0 {
        lemma_pairs_of_bounded(cps.drop_last(), index, limit);
    }
}

pub proof fn lemma_code_points_bounded(glyphs: Seq<Glyph>, limit: u32)
    ensures
        pairs_bounded(glyph_code_points(glyphs, limit), limit),
    decreases glyphs.len(),
{
    if glyphs.len() > 0 {
        lemma_code_points_bounded(glyphs.drop_last(), limit);
        if glyphs.len() <= limit {
            lemma_pairs_of_bounded(glyphs.last().code_points@, glyphs.len() as u32, limit);
            let a = glyph_code_points(glyphs.drop_last(), limit);
            let b = pairs_of(glyphs.last().code_points@, glyphs.len() as u32, limit);
            assert forall|j: int| 0 <= j < (a + b).len() implies #[trigger] (a + b)[j].0 <= limit
                && (a + b)[j].1 <= limit by {
                if j < a.len() {
                    assert((a + b)[j] == a[j]);
                } else {
                    assert((a + b)[j] == b[j - a.len()]);
                }
            }
        }
    }
}

pub proof fn lemma_sort_bounded(s: Seq<(u32, u32)>, limit: u32)
    requires
        pairs_bounded(s, limit),
    ensures
        pairs_bounded(sort_by_code_point(s), limit),
    decreases s.len(),
{
    if s.len() > 0 {
        assert(pairs_bounded(s.drop_last(), limit)) by {
            assert forall|j: int| 0 <= j < s.drop_last().len() implies #[trigger] s.drop_last()[j].0
                <= limit && s.drop_last()[j].1 <= limit by {
                assert(s.drop_last()[j] == s[j]);
            }
        }
        lemma_sort_bounded(s.drop_last(), limit);
        let sorted = sort_by_code_point(s.drop_last());
        lemma_insert_pos_bound(sorted, s.last().0);
        let r = sorted.insert(insert_pos(sorted, s.last().0) as int, s.last());
        assert(s.last() == s[s.len() - 1]);
        assert forall|j: int| 0 <= j < r.len() implies #[trigger] r[j].0 <= limit && r[j].1
            <= limit by {
            let p = insert_pos(sorted, s.last().0) as int;
            if j < p {
                assert(r[j] == sorted[j]);
            } else if j > p {
                assert(r[j] == sorted[j - 1]);
            }
        }
    }
}

/// No two pairs have the same code point.
pub open spec fn keys_distinct(p: Seq<(u32, u32)>) -> bool {
    forall|i: int, j: int| 0 <= i < j < p.len() ==> p[i].0 != p[j].0
}

/// The pairs are ordered by strictly increasing code point.
pub open spec fn strictly_sorted(p: Seq<(u32, u32)>) -> bool {
    forall|i: int, j: int| 0 <= i < j < p.len() ==> p[i].0 < p[j].0
}

/// Where a code point that is not there goes in strictly sorted pairs: after the smaller ones,
/// before the larger ones.
proof fn lemma_insert_pos_sorted(s: Seq<(u32, u32)>, key: u32)
    requires
        strictly_sorted(s),
        forall|i: int| 0 <= i < s.len() ==> (#[trigger] s[i]).0 != key,
    ensures
        insert_pos(s, key) <= s.len(),
        forall|i: int| 0 <= i < insert_pos(s, key) ==> (#[trigger] s[i]).0 < key,
        forall|i: int| insert_pos(s, key) <= i < s.len() ==> (#[trigger] s[i]).0 > key,
    decreases s.len(),
{
    if s.len() > 0 {
        if s.last().0 <= key {
            assert forall|i: int| 0 <= i < s.len() implies (#[trigger] s[i]).0 < key by {
                if i < s.len() - 1 {
                    assert(s[i].0 < s[s.len() - 1].0);
                }
            }
        } else {
            let d = s.drop_last();
            assert(forall|i: int| 0 <= i < d.len() ==> d[i] == s[i]);
            lemma_insert_pos_sorted(d, key);
        }
    }
}

/// Sorting pairs with distinct code points orders them strictly and keeps exactly the pairs.
pub proof fn lemma_sort_sorted(p: Seq<(u32, u32)>)
    requires
        keys_distinct(p),
    ensures
        strictly_sorted(sort_by_code_point(p)),
        sort_by_code_point(p).len() == p.len(),
        forall|x: (u32, u32)| sort_by_code_point(p).contains(x) <==> p.contains(x),
    decreases p.len(),
{
    lemma_sort_len(p);
    if p.len() > 0 {
        let d = p.drop_last();
        let x = p.last();
        assert(forall|i: int| 0 <= i < d.len() ==> d[i] == p[i]);
        lemma_sort_sorted(d);
        let sd = sort_by_code_point(d);
        assert forall|i: int| 0 <= i < sd.len() implies (#[trigger] sd[i]).0 != x.0 by {
            assert(sd.contains(sd[i]));
            assert(d.contains(sd[i]));
            let j = choose|j: int| 0 <= j < d.len() && d[j] == sd[i];
            assert(p[j].0 != p[p.len() - 1].0);
        }
        lemma_insert_pos_sorted(sd, x.0);
        let pos = insert_pos(sd, x.0) as int;
        let r = sd.insert(pos, x);
        assert(r == sort_by_code_point(p));
        assert forall|i: int, j: int| 0 <= i < j < r.len() implies r[i].0 < r[j].0 by {
            if j < pos {
            } else if j == pos {
            } else if i < pos {
                assert(r[j] == sd[j - 1]);
            } else if i == pos {
                assert(r[j] == sd[j - 1]);
            } else {
                assert(r[i] == sd[i - 1]);
                assert(r[j] == sd[j - 1]);
            }
        }
        assert forall|y: (u32, u32)| r.contains(y) <==> p.contains(y) by {
            if r.contains(y) {
                let i = choose|i: int| 0 <= i < r.len() && r[i] == y;
                if i == pos {
                    assert(p[p.len() - 1] == y);
                } else if i < pos {
                    assert(sd.contains(sd[i]));
                    assert(d.contains(sd[i]));
                    let j = choose|j: int| 0 <= j < d.len() && d[j] == sd[i];
                    assert(p[j] == y);
                } else {
                    assert(r[i] == sd[i - 1]);
                    assert(sd.contains(sd[i - 1]));
                    assert(d.contains(sd[i - 1]));
                    let j = choose|j: int| 0 <= j < d.len() && d[j] == sd[i - 1];
                    assert(p[j] == y);
                }
            }
            if p.contains(y) {
                let j = choose|j: int| 0 <= j < p.len() && p[j] == y;
                if j == p.len() - 1 {
                    assert(r[pos] == y);
                } else {
                    assert(d.contains(d[j]));
                    assert(sd.contains(y));
                    let i = choose|i: int| 0 <= i < sd.len() && sd[i] == y;
                    if i < pos {
                        assert(r[i] == y);
                    } else {
                        assert(r[i + 1] == y);
                    }
                }
            }
        }
    }
}

/// No code point occurs twice among the glyphs.
pub open spec fn code_points_distinct(glyphs: Seq<Glyph>) -> bool {
    forall|k1: int, i1: int, k2: int, i2: int|
        0 <= k1 < glyphs.len() && 0 <= k2 < glyphs.len() && 0 <= i1 < glyphs[k1].code_points@.len() && 0 <= i2
            < glyphs[k2].code_points@.len() && (k1 != k2 || i1 != i2) ==> #[trigger] glyphs[k1].code_points@[i1]
            != #[trigger] glyphs[k2].code_points@[i2]
}

/// The pair `x` is a code point up to `limit` of `cps` with the index `index`.
pub open spec fn from_code_points(cps: Seq<u32>, index: u32, limit: u32, x: (u32, u32)) -> bool {
    exists|i: int| 0 <= i < cps.len() && cps[i] <= limit && x == (cps[i], index)
}

/// The pair `x` is a code point up to `limit` of the glyph at a position `k` with `k + 1`,
/// where `k + 1` is at most `limit`.
pub open spec fn from_glyphs(glyphs: Seq<Glyph>, limit: u32, x: (u32, u32)) -> bool {
    exists|k: int, i: int|
        0 <= k < glyphs.len() && 0 <= i < glyphs[k].code_points@.len() && k + 1 <= limit
            && glyphs[k].code_points@[i] <= limit && x == (glyphs[k].code_points@[i], (k + 1) as u32)
}

/// A glyph pairs each of its code points up to `limit` with its index, and each pair comes
/// from such a code point; where its code points differ, so do the pairs' code points.
proof fn lemma_pairs_of(cps: Seq<u32>, index: u32, limit: u32)
    ensures
        forall|i: int|
            0 <= i < cps.len() && #[trigger] cps[i] <= limit ==> pairs_of(cps, index, limit).contains(
                (cps[i], index),
            ),
        forall|j: int|
            0 <= j < pairs_of(cps, index, limit).len() ==> from_code_points(
                cps,
                index,
                limit,
                #[trigger] pairs_of(cps, index, limit)[j],
            ),
        (forall|x: int, y: int| 0 <= x < y < cps.len() ==> cps[x] != cps[y]) ==> keys_distinct(
            pairs_of(cps, index, limit),
        ),
    decreases cps.len(),
{
    if cps.len() > 0 {
        let d = cps.drop_last();
        lemma_pairs_of(d, index, limit);
        let rest = pairs_of(d, index, limit);
        let p = pairs_of(cps, index, limit);
        assert forall|i: int| 0 <= i < cps.len() && #[trigger] cps[i] <= limit implies p.contains(
            (cps[i], index),
        ) by {
            if i < d.len() {
                assert(d[i] == cps[i]);
                assert(rest.contains((d[i], index)));
                let j = choose|j: int| 0 <= j < rest.len() && rest[j] == (d[i], index);
                assert(p[j] == rest[j]);
            } else {
                assert(p.last() == (cps[i], index));
            }
        }
        assert forall|j: int| 0 <= j < pairs_of(cps, index, limit).len() implies from_code_points(
            cps,
            index,
            limit,
            #[trigger] pairs_of(cps, index, limit)[j],
        ) by {
            if j < rest.len() {
                assert(p[j] == rest[j]);
                assert(from_code_points(d, index, limit, rest[j]));
                let i = choose|i: int| 0 <= i < d.len() && d[i] <= limit && rest[j] == (d[i], index);
                assert(cps[i] == d[i]);
            } else {
                assert(p[j] == (cps[cps.len() - 1], index));
            }
        }
        if forall|x: int, y: int| 0 <= x < y < cps.len() ==> cps[x] != cps[y] {
            assert forall|x: int, y: int| 0 <= x < y < d.len() implies d[x] != d[y] by {
                assert(cps[x] != cps[y]);
            }
            assert forall|x: int, y: int| 0 <= x < y < p.len() implies p[x].0 != p[y].0 by {
                if y >= rest.len() {
                    assert(p[x] == rest[x]);
                    assert(from_code_points(d, index, limit, rest[x]));
                    let i = choose|i: int| 0 <= i < d.len() && d[i] <= limit && rest[x] == (d[i], index);
                    assert(cps[i] != cps[cps.len() - 1]);
                } else {
                    assert(p[x] == rest[x] && p[y] == rest[y]);
                }
            }
        }
    } else {
        assert(pairs_of(cps, index, limit) =~= Seq::<(u32, u32)>::empty());
    }
}

/// The pairs of the glyphs are the code points up to `limit` of each glyph whose position
/// plus one is at most `limit`, with that position plus one; no code point occurs twice among
/// them where no glyph shares one.
pub proof fn lemma_glyph_code_points(glyphs: Seq<Glyph>, limit: u32)
    requires
        code_points_distinct(glyphs),
    ensures
        forall|k: int, i: int|
            0 <= k < glyphs.len() && 0 <= i < glyphs[k].code_points@.len() && k + 1 <= limit
                && glyphs[k].code_points@[i] <= limit ==> glyph_code_points(glyphs, limit).contains(
                (#[trigger] glyphs[k].code_points@[i], (k + 1) as u32),
            ),
        forall|j: int|
            0 <= j < glyph_code_points(glyphs, limit).len() ==> from_glyphs(
                glyphs,
                limit,
                #[trigger] glyph_code_points(glyphs, limit)[j],
            ),
        keys_distinct(glyph_code_points(glyphs, limit)),
    decreases glyphs.len(),
{
    if glyphs.len() > 0 {
        let d = glyphs.drop_last();
        let n = glyphs.len() - 1;
        assert(forall|k: int| 0 <= k < d.len() ==> d[k] == glyphs[k]);
        assert(code_points_distinct(d)) by {
            assert forall|k1: int, i1: int, k2: int, i2: int|
                0 <= k1 < d.len() && 0 <= k2 < d.len() && 0 <= i1 < d[k1].code_points@.len() && 0 <= i2
                    < d[k2].code_points@.len() && (k1 != k2 || i1 != i2) implies #[trigger] d[k1].code_points@[i1]
                    != #[trigger] d[k2].code_points@[i2] by {
                assert(glyphs[k1].code_points@[i1] != glyphs[k2].code_points@[i2]);
            }
        }
        lemma_glyph_code_points(d, limit);
        let a = glyph_code_points(d, limit);
        let last = glyphs.last();
        let g = glyph_code_points(glyphs, limit);
        if glyphs.len() <= limit {
            let index = glyphs.len() as u32;
            lemma_pairs_of(last.code_points@, index, limit);
            let b = pairs_of(last.code_points@, index, limit);
            assert(g == a + b);
            assert forall|k: int, i: int|
                0 <= k < glyphs.len() && 0 <= i < glyphs[k].code_points@.len() && k + 1 <= limit
                    && glyphs[k].code_points@[i] <= limit implies g.contains(
                (#[trigger] glyphs[k].code_points@[i], (k + 1) as u32),
            ) by {
                if k < n {
                    assert(d[k].code_points@[i] == glyphs[k].code_points@[i]);
                    assert(a.contains((d[k].code_points@[i], (k + 1) as u32)));
                    let j = choose|j: int| 0 <= j < a.len() && a[j] == (d[k].code_points@[i], (k + 1) as u32);
                    assert(g[j] == a[j]);
                } else {
                    assert(glyphs[k] == last);
                    assert(b.contains((last.code_points@[i], index)));
                    let j = choose|j: int| 0 <= j < b.len() && b[j] == (last.code_points@[i], index);
                    assert(g[a.len() + j] == b[j]);
                }
            }
            assert forall|j: int| 0 <= j < glyph_code_points(glyphs, limit).len() implies from_glyphs(
                glyphs,
                limit,
                #[trigger] glyph_code_points(glyphs, limit)[j],
            ) by {
                if j < a.len() {
                    assert(g[j] == a[j]);
                    assert(from_glyphs(d, limit, a[j]));
                    let (k, i) = choose|k: int, i: int|
                        0 <= k < d.len() && 0 <= i < d[k].code_points@.len() && k + 1 <= limit
                            && d[k].code_points@[i] <= limit && a[j] == (
                            d[k].code_points@[i],
                            (k + 1) as u32,
                        );
                    assert(glyphs[k] == d[k]);
                } else {
                    assert(g[j] == b[j - a.len()]);
                    assert(from_code_points(last.code_points@, index, limit, b[j - a.len()]));
                    let i = choose|i: int|
                        0 <= i < last.code_points@.len() && last.code_points@[i] <= limit && b[j
                            - a.len()] == (last.code_points@[i], index);
                    assert(glyphs[n] == last);
                    assert(g[j] == (glyphs[n].code_points@[i], (n + 1) as u32));
                }
            }
            assert forall|x: int, y: int| 0 <= x < y < last.code_points@.len() implies last.code_points@[x]
                != last.code_points@[y] by {
                assert(glyphs[n].code_points@[x] != glyphs[n].code_points@[y]);
            }
            assert forall|x: int, y: int| 0 <= x < y < g.len() implies g[x].0 != g[y].0 by {
                if y < a.len() {
                    assert(g[x] == a[x] && g[y] == a[y]);
                } else if x >= a.len() {
                    assert(g[x] == b[x - a.len()] && g[y] == b[y - a.len()]);
                } else {
                    assert(g[x] == a[x]);
                    assert(from_glyphs(d, limit, a[x]));
                    let (k, i) = choose|k: int, i: int|
                        0 <= k < d.len() && 0 <= i < d[k].code_points@.len() && k + 1 <= limit
                            && d[k].code_points@[i] <= limit && a[x] == (
                            d[k].code_points@[i],
                            (k + 1) as u32,
                        );
                    assert(g[y] == b[y - a.len()]);
                    assert(from_code_points(last.code_points@, index, limit, b[y - a.len()]));
                    let i2 = choose|i2: int|
                        0 <= i2 < last.code_points@.len() && last.code_points@[i2] <= limit && b[y
                            - a.len()] == (last.code_points@[i2], index);
                    assert(glyphs[k].code_points@[i] != glyphs[n].code_points@[i2]);
                }
            }
        } else {
            assert(g == a);
            assert forall|j: int| 0 <= j < g.len() implies from_glyphs(glyphs, limit, #[trigger] g[j]) by {
                assert(from_glyphs(d, limit, a[j]));
                let (k, i) = choose|k: int, i: int|
                    0 <= k < d.len() && 0 <= i < d[k].code_points@.len() && k + 1 <= limit
                        && d[k].code_points@[i] <= limit && a[j] == (d[k].code_points@[i], (k + 1) as u32);
                assert(glyphs[k] == d[k]);
            }
        }
    }
}

} // verus!
