//! The 'glyf' table as a whole: reading it along the 'loca' offsets, writing, and subsetting.
use vstd::prelude::*;
use crate::big_endian::copy_range;
use crate::otf::error::FontError;
use crate::otf::tables::Glyph;
use crate::otf::tables::glyf::{
    Component, CompositeDescription, DescriptionView, GlyphData, GlyphDescription, GlyphView,
    glyph_at,
};
use crate::otf::tables::glyf::pack::{is_packable, lemma_pack_len, lemma_pack_unpack, spec_pack};
use crate::otf::tables::loca::{glyph_offsets, total_size};

verus! {

/// The glyph data table.
/// See https://docs.microsoft.com/en-us/typography/opentype/spec/glyf
#[derive(Debug, PartialEq, Clone)]
pub struct GlyfTable {
    /// The glyphs, indexed by glyph id; `None` for a glyph without outline.
    pub glyphs: Vec<Option<GlyphData>>,
}

/// The value of an optional glyph.
pub open spec fn opt_glyph(o: Option<GlyphData>) -> Option<GlyphView> {
    match o {
        Some(g) => Some(g@),
        None => None,
    }
}

impl View for GlyfTable {
    type V = Seq<Option<GlyphView>>;

    open spec fn view(&self) -> Seq<Option<GlyphView>> {
        self.glyphs@.map_values(|o: Option<GlyphData>| opt_glyph(o))
    }
}

/// The state after reading the glyphs of the first `k` pairs of consecutive offsets: the glyphs
/// and the end of the last glyph read, or the error; `None` where the reader panics, on a glyph
/// that ends before it starts or after the table.
pub open spec fn glyf_state(data: Seq<u8>, offs: Seq<u32>, k: nat) -> Option<
    Result<(Seq<Option<GlyphView>>, int), FontError>,
>
    decreases k,
{
    if k == 0 {
        Some(Ok((Seq::empty(), 0)))
    } else {
        match glyf_state(data, offs, (k - 1) as nat) {
            Some(Ok((gs, pos))) => {
                let start = offs[k - 1] as int;
                let end = offs[k as int] as int;
                if start == end {
                    Some(Ok((gs.push(None), pos)))
                } else if start > pos {
                    Some(Err(FontError::UnalignedLoca))
                } else if end < start || end > data.len() {
                    None
                } else {
                    match glyph_at(data.subrange(start, end)) {
                        None => None,
                        Some(Err(e)) => Some(Err(e)),
                        Some(Ok(g)) => Some(Ok((gs.push(Some(g)), end))),
                    }
                }
            },
            other => other,
        }
    }
}

/// What reading the table `data` along the offsets `offs` gives; `None` where the reader panics.
pub open spec fn glyf_unpack(data: Seq<u8>, offs: Seq<u32>) -> Option<Result<Seq<Option<GlyphView>>, FontError>> {
    if offs.len() == 0 {
        Some(Ok(Seq::empty()))
    } else {
        match glyf_state(data, offs, (offs.len() - 1) as nat) {
            Some(Ok((gs, _))) => Some(Ok(gs)),
            Some(Err(e)) => Some(Err(e)),
            None => None,
        }
    }
}

/// The bytes that `pack` writes: the packed glyphs one after another.
pub open spec fn glyphs_bytes(gs: Seq<Option<GlyphView>>) -> Seq<u8>
    decreases gs.len(),
{
    if gs.len() == 0 {
        Seq::empty()
    } else {
        glyphs_bytes(gs.drop_last()) + match gs.last() {
            Some(g) => spec_pack(g),
            None => Seq::empty(),
        }
    }
}

/// The position of the last glyph of `indices` with index `idx`.
pub open spec fn last_position(indices: Seq<u16>, idx: u16) -> Option<int>
    decreases indices.len(),
{
    if indices.len() == 0 {
        None
    } else if indices.last() == idx {
        Some(indices.len() - 1)
    } else {
        last_position(indices.drop_last(), idx)
    }
}

/// The index in a subset to `indices` of the glyph with index `idx`: its last position, cut to
/// 16 bits, or 0 where the subset lacks it.
pub open spec fn new_index(indices: Seq<u16>, idx: u16) -> u16 {
    match last_position(indices, idx) {
        Some(i) => (i % 0x10000) as u16,
        None => 0,
    }
}

/// A glyph with the components of a composite glyph pointing to their new indices.
pub open spec fn remap_glyph(g: GlyphView, indices: Seq<u16>) -> GlyphView {
    match g.description {
        DescriptionView::Composite(cs, ins) => GlyphView {
            description: DescriptionView::Composite(
                cs.map_values(|c: Component| Component { glyph_index: new_index(indices, c.glyph_index), ..c }),
                ins,
            ),
            ..g
        },
        DescriptionView::Simple(_) => g,
    }
}

/// The glyph of a subset to `indices` at position `k`.
pub open spec fn subset_glyph(gs: Seq<Option<GlyphView>>, indices: Seq<u16>, k: int) -> Option<GlyphView> {
    let i = indices[k] as int;
    if i < gs.len() {
        match gs[i] {
            Some(g) => Some(remap_glyph(g, indices)),
            None => None,
        }
    } else {
        None
    }
}

/// The indices of glyphs, in order.
pub open spec fn indices_of(glyphs: Seq<Glyph>) -> Seq<u16> {
    glyphs.map_values(|g: Glyph| g.index)
}

fn copy_glyph(g: &GlyphData, map: &Vec<Option<u16>>, Ghost(indices): Ghost<Seq<u16>>) -> (r: GlyphData)
    requires
        map@.len() == 0x10000,
        forall|i: int| 0 <= i < 0x10000 ==> #[trigger] map@[i] == match last_position(indices, i as u16) {
            Some(p) => Some((p % 0x10000) as u16),
            None => None::<u16>,
        },
    ensures
        r@ == remap_glyph(g@, indices),
{
    let description = match &g.description {
        GlyphDescription::Simple(v) => GlyphDescription::Simple(copy_range(v.as_slice(), 0, v.len())),
        GlyphDescription::Composite(c) => {
            let mut components: Vec<Component> = Vec::new();
            let mut k: usize = 0;
            while k < c.components.len()
                invariant
                    k <= c.components@.len(),
                    map@.len() == 0x10000,
                    forall|i: int| 0 <= i < 0x10000 ==> #[trigger] map@[i] == match last_position(indices, i as u16) {
                        Some(p) => Some((p % 0x10000) as u16),
                        None => None::<u16>,
                    },
                    components@ =~= c.components@.take(k as int).map_values(
                        |x: Component| Component { glyph_index: new_index(indices, x.glyph_index), ..x },
                    ),
                decreases c.components@.len() - k,
            {
                let x = c.components[k];
                let gi = match map[x.glyph_index as usize] {
                    Some(n) => n,
                    None => 0,
                };
                assert(map@[x.glyph_index as int] == map@[x.glyph_index as int]);
                components.push(Component { glyph_index: gi, ..x });
                k = k + 1;
            }
            assert(c.components@.take(k as int) =~= c.components@);
            let instructions = match &c.instructions {
                Some(i) => Some(copy_range(i.as_slice(), 0, i.len())),
                None => None,
            };
            GlyphDescription::Composite(CompositeDescription { components, instructions })
        },
    };
    let r = GlyphData {
        number_of_contours: g.number_of_contours,
        x_min: g.x_min,
        y_min: g.y_min,
        x_max: g.x_max,
        y_max: g.y_max,
        description,
    };
    assert(r@ =~~= remap_glyph(g@, indices));
    r
}

impl GlyfTable {
    /// Reads the glyphs of the table `data`: glyph `k` lies between offsets `k` and `k + 1`; a
    /// glyph whose offsets are equal has no outline; a glyph that starts after the end of the
    /// previous one is an error.
    pub fn unpack(data: &[u8], offsets: &Vec<u32>) -> (r: Result<GlyfTable, FontError>)
        requires
            glyf_unpack(data@, offsets@) is Some,
        ensures
            match r {
                Ok(t) => glyf_unpack(data@, offsets@) == Some(Ok::<Seq<Option<GlyphView>>, FontError>(t@)),
                Err(e) => glyf_unpack(data@, offsets@) == Some(Err::<Seq<Option<GlyphView>>, FontError>(e)),
            },
    {
        match Self::try_unpack(data, offsets) {
            Some(r) => r,
            None => {
                proof {
                    assert(false);
                }
                Err(FontError::UnexpectedEof)
            },
        }
    }

    /// Reads the glyphs as `unpack` does, or gives `None` where `unpack` may not be called:
    /// where a glyph ends before it starts or past the table, or cannot be read.
    pub fn try_unpack(data: &[u8], offsets: &Vec<u32>) -> (r: Option<Result<GlyfTable, FontError>>)
        ensures
            match glyf_unpack(data@, offsets@) {
                None => r is None,
                Some(Ok(v)) => r matches Some(Ok(t)) && t@ == v,
                Some(Err(e)) => r == Some(Err::<GlyfTable, FontError>(e)),
            },
    {
        let mut glyphs: Vec<Option<GlyphData>> = Vec::new();
        if offsets.len() == 0 {
            assert(glyphs@.map_values(|o: Option<GlyphData>| opt_glyph(o)) =~= Seq::<Option<GlyphView>>::empty());
            return Some(Ok(GlyfTable { glyphs }));
        }
        let n = offsets.len() - 1;
        let len = data.len();
        let mut pos: usize = 0;
        let mut k: usize = 0;
        assert(glyphs@.map_values(|o: Option<GlyphData>| opt_glyph(o)) =~= Seq::<Option<GlyphView>>::empty());
        while k < n
            invariant
                k <= n,
                n == offsets@.len() - 1,
                len == data@.len(),
                glyf_state(data@, offsets@, k as nat) == Some(
                    Ok::<(Seq<Option<GlyphView>>, int), FontError>(
                        (glyphs@.map_values(|o: Option<GlyphData>| opt_glyph(o)), pos as int),
                    ),
                ),
            decreases n - k,
        {
            let start = offsets[k] as usize;
            let end = offsets[k + 1] as usize;
            let ghost prev = glyphs@;
            if start == end {
                glyphs.push(None);
            } else if start > pos {
                assert(glyf_state(data@, offsets@, (k + 1) as nat) == Some(
                    Err::<(Seq<Option<GlyphView>>, int), FontError>(FontError::UnalignedLoca),
                ));
                proof {
                    lemma_state_err(data@, offsets@, (k + 1) as nat, n as nat);
                }
                return Some(Err(FontError::UnalignedLoca));
            } else if end < start || end > len {
                proof {
                    assert(glyf_state(data@, offsets@, (k + 1) as nat) is None);
                    lemma_state_none(data@, offsets@, (k + 1) as nat, n as nat);
                }
                return None;
            } else {
                let region = copy_range(data, start, end);
                match GlyphData::try_unpack(region.as_slice()) {
                    None => {
                        proof {
                            assert(glyf_state(data@, offsets@, (k + 1) as nat) is None);
                            lemma_state_none(data@, offsets@, (k + 1) as nat, n as nat);
                        }
                        return None;
                    },
                    Some(Ok(g)) => {
                        glyphs.push(Some(g));
                        pos = end;
                    },
                    Some(Err(e)) => {
                        proof {
                            lemma_state_err(data@, offsets@, (k + 1) as nat, n as nat);
                        }
                        return Some(Err(e));
                    },
                }
            }
            assert(glyphs@.map_values(|o: Option<GlyphData>| opt_glyph(o)) =~= prev.map_values(
                |o: Option<GlyphData>| opt_glyph(o),
            ).push(opt_glyph(glyphs@.last())));
            k = k + 1;
        }
        Some(Ok(GlyfTable { glyphs }))
    }

    /// Appends the packed glyphs to `out`, one after another.
    pub fn pack(&self, out: &mut Vec<u8>)
        ensures
            final(out)@ == old(out)@ + glyphs_bytes(self@),
    {
        let mut k: usize = 0;
        while k < self.glyphs.len()
            invariant
                k <= self.glyphs@.len(),
                out@ == old(out)@ + glyphs_bytes(self@.take(k as int)),
            decreases self.glyphs@.len() - k,
        {
            assert(self@.take(k + 1).drop_last() =~= self@.take(k as int));
            match &self.glyphs[k] {
                Some(g) => g.pack(out),
                None => {},
            }
            k = k + 1;
            assert(out@ =~= old(out)@ + glyphs_bytes(self@.take(k as int)));
        }
        assert(self@.take(k as int) =~= self@);
    }

    /// The table of a font subset to `glyphs`: the glyph of each, in order, with the components
    /// of composite glyphs pointing to their new indices.
    pub fn subset(&self, glyphs: &[Glyph]) -> (r: GlyfTable)
        ensures
            r@.len() == glyphs@.len(),
            forall|k: int| 0 <= k < glyphs@.len() ==> #[trigger] r@[k] == subset_glyph(self@, indices_of(glyphs@), k),
    {
        let ghost indices = indices_of(glyphs@);
        let mut map: Vec<Option<u16>> = Vec::new();
        let mut i: usize = 0;
        while i < 0x10000
            invariant
                i <= 0x10000,
                map@.len() == i,
                forall|j: int| 0 <= j < i ==> #[trigger] map@[j] == None::<u16>,
            decreases 0x10000 - i,
        {
            map.push(None);
            i = i + 1;
        }
        let mut k: usize = 0;
        while k < glyphs.len()
            invariant
                k <= glyphs@.len(),
                indices == indices_of(glyphs@),
                map@.len() == 0x10000,
                forall|j: int| 0 <= j < 0x10000 ==> #[trigger] map@[j] == match last_position(indices.take(k as int), j as u16) {
                    Some(p) => Some((p % 0x10000) as u16),
                    None => None::<u16>,
                },
            decreases glyphs@.len() - k,
        {
            let idx = glyphs[k].index;
            map.set(idx as usize, Some((k % 0x10000) as u16));
            k = k + 1;
            assert forall|j: int| 0 <= j < 0x10000 implies #[trigger] map@[j] == match last_position(indices.take(k as int), j as u16) {
                Some(p) => Some((p % 0x10000) as u16),
                None => None::<u16>,
            } by {
                assert(indices.take(k as int).drop_last() =~= indices.take(k - 1));
                assert(indices.take(k as int).last() == idx);
            }
        }
        assert(indices.take(k as int) =~= indices);
        let mut out: Vec<Option<GlyphData>> = Vec::new();
        let mut k: usize = 0;
        while k < glyphs.len()
            invariant
                k <= glyphs@.len(),
                indices == indices_of(glyphs@),
                map@.len() == 0x10000,
                forall|j: int| 0 <= j < 0x10000 ==> #[trigger] map@[j] == match last_position(indices, j as u16) {
                    Some(p) => Some((p % 0x10000) as u16),
                    None => None::<u16>,
                },
                out@.len() == k,
                forall|j: int| 0 <= j < k ==> #[trigger] opt_glyph(out@[j]) == subset_glyph(self@, indices, j),
            decreases glyphs@.len() - k,
        {
            let i = glyphs[k].index as usize;
            let g = if i < self.glyphs.len() {
                match &self.glyphs[i] {
                    Some(g) => Some(copy_glyph(g, &map, Ghost(indices))),
                    None => None,
                }
            } else {
                None
            };
            out.push(g);
            k = k + 1;
        }
        let r = GlyfTable { glyphs: out };
        assert forall|k: int| 0 <= k < glyphs@.len() implies #[trigger] r@[k] == subset_glyph(self@, indices_of(glyphs@), k) by {
            assert(opt_glyph(out@[k]) == subset_glyph(self@, indices, k));
        }
        r
    }
}

/// A panic after `k` pairs stays a panic after all `n` pairs.
proof fn lemma_state_none(data: Seq<u8>, offs: Seq<u32>, k: nat, n: nat)
    requires
        k <= n,
        glyf_state(data, offs, k) is None,
    ensures
        glyf_state(data, offs, n) is None,
    decreases n - k,
{
    if k < n {
        lemma_state_none(data, offs, k, (n - 1) as nat);
    }
}

/// An error after `k` pairs stays the error after all `n` pairs.
proof fn lemma_state_err(data: Seq<u8>, offs: Seq<u32>, k: nat, n: nat)
    requires
        k <= n,
        glyf_state(data, offs, k) is Some,
        glyf_state(data, offs, k)->0 is Err,
    ensures
        glyf_state(data, offs, n) == glyf_state(data, offs, k),
    decreases n - k,
{
    if k < n {
        lemma_state_err(data, offs, k, (n - 1) as nat);
    }
}

/// The state of the search for the glyphs that composite glyphs use: the glyphs visited, in the
/// order of their visit, and the queue of glyphs still to visit.
pub struct Expansion {
    pub visited: Set<u16>,
    pub ordered: Seq<u16>,
    pub queue: Seq<u16>,
}

/// The indices of the components of the glyph `ix`, where it is a composite glyph.
pub open spec fn component_indices(gs: Seq<Option<GlyphView>>, ix: u16) -> Seq<u16> {
    if (ix as int) < gs.len() {
        match gs[ix as int] {
            Some(g) => match g.description {
                DescriptionView::Composite(cs, _) => cs.map_values(|c: Component| c.glyph_index),
                DescriptionView::Simple(_) => Seq::empty(),
            },
            None => Seq::empty(),
        }
    } else {
        Seq::empty()
    }
}

/// The indices of `s` that `visited` lacks, in order.
pub open spec fn not_visited(s: Seq<u16>, visited: Set<u16>) -> Seq<u16>
    decreases s.len(),
{
    if s.len() == 0 {
        Seq::empty()
    } else if visited.contains(s.last()) {
        not_visited(s.drop_last(), visited)
    } else {
        not_visited(s.drop_last(), visited).push(s.last())
    }
}

/// One step of the search: take the first glyph of the queue; where it was not visited yet,
/// visit it and queue its components that were not visited before.
pub open spec fn expansion_step(gs: Seq<Option<GlyphView>>, e: Expansion) -> Expansion {
    if e.queue.len() == 0 {
        e
    } else {
        let ix = e.queue[0];
        let rest = e.queue.drop_first();
        if e.visited.contains(ix) {
            Expansion { queue: rest, ..e }
        } else {
            Expansion {
                visited: e.visited.insert(ix),
                ordered: e.ordered.push(ix),
                queue: rest + not_visited(component_indices(gs, ix), e.visited),
            }
        }
    }
}

/// The search after `n` steps.
pub open spec fn expansion_run(gs: Seq<Option<GlyphView>>, e: Expansion, n: nat) -> Expansion
    decreases n,
{
    if n == 0 {
        e
    } else {
        expansion_run(gs, expansion_step(gs, e), (n - 1) as nat)
    }
}

/// The search starts with glyph 0, then the glyphs of the subset, in the queue.
pub open spec fn expansion_start(indices: Seq<u16>) -> Expansion {
    Expansion { visited: Set::empty(), ordered: Seq::empty(), queue: seq![0u16] + indices }
}

/// The number of `true` values of `s`.
pub open spec fn count_true(s: Seq<bool>) -> nat
    decreases s.len(),
{
    if s.len() == 0 {
        0
    } else {
        count_true(s.drop_last()) + if s.last() { 1nat } else { 0nat }
    }
}

proof fn lemma_count_true_update(s: Seq<bool>, i: int)
    requires
        0 <= i < s.len(),
        !s[i],
    ensures
        count_true(s.update(i, true)) == count_true(s) + 1,
    decreases s.len(),
{
    if i < s.len() - 1 {
        lemma_count_true_update(s.drop_last(), i);
        assert(s.update(i, true).drop_last() =~= s.drop_last().update(i, true));
    } else {
        assert(s.update(i, true).drop_last() =~= s.drop_last());
    }
}

proof fn lemma_count_true_bound(s: Seq<bool>, i: int)
    requires
        0 <= i < s.len(),
        !s[i],
    ensures
        count_true(s) < s.len(),
    decreases s.len(),
{
    lemma_count_true_le(s.drop_last());
    if i < s.len() - 1 {
        lemma_count_true_bound(s.drop_last(), i);
    }
}

proof fn lemma_count_true_le(s: Seq<bool>)
    ensures
        count_true(s) <= s.len(),
    decreases s.len(),
{
    if s.len() > 0 {
        lemma_count_true_le(s.drop_last());
    }
}

/// The position of the first glyph of `glyphs` at or after `from` with the index `ix`.
pub open spec fn first_index(glyphs: Seq<Glyph>, ix: u16, from: int) -> Option<int>
    decreases glyphs.len() - from,
{
    if from < 0 || from >= glyphs.len() {
        None
    } else if glyphs[from].index == ix {
        Some(from)
    } else {
        first_index(glyphs, ix, from + 1)
    }
}

/// The code points that `glyphs` give the glyph `ix`: those of the first glyph with that
/// index; none where no glyph has it.
pub open spec fn codes_for(glyphs: Seq<Glyph>, ix: u16) -> Seq<u32> {
    match first_index(glyphs, ix, 0) {
        Some(j) => glyphs[j].code_points@,
        None => Seq::empty(),
    }
}

/// `r` is what expanding `glyphs` by the components of composite glyphs in `gs` gives: the
/// search runs until its queue is empty; `r` holds the visited glyphs in the order of their
/// visit (glyph 0 first, then the glyphs, then their components), each once, with the code
/// points that `glyphs` give it.
pub open spec fn is_expansion(gs: Seq<Option<GlyphView>>, glyphs: Seq<Glyph>, r: Seq<Glyph>) -> bool {
    exists|n: nat|
        {
            let e = #[trigger] expansion_run(gs, expansion_start(indices_of(glyphs)), n);
            &&& e.queue.len() == 0
            &&& r.len() == e.ordered.len()
            &&& forall|k: int|
                0 <= k < r.len() ==> #[trigger] r[k].index == e.ordered[k] && r[k].code_points@ == codes_for(
                    glyphs,
                    e.ordered[k],
                )
        }
}

/// A copy of a glyph with its code points.
fn copy_of(g: &Glyph) -> (r: Glyph)
    ensures
        r.index == g.index,
        r.code_points@ == g.code_points@,
{
    let mut code_points: Vec<u32> = Vec::new();
    let mut k: usize = 0;
    while k < g.code_points.len()
        invariant
            k <= g.code_points@.len(),
            code_points@ == g.code_points@.take(k as int),
        decreases g.code_points@.len() - k,
    {
        code_points.push(g.code_points[k]);
        k = k + 1;
        assert(code_points@ =~= g.code_points@.take(k as int));
    }
    assert(g.code_points@.take(k as int) =~= g.code_points@);
    Glyph { index: g.index, code_points }
}

impl GlyfTable {
    /// The largest number of components of any glyph.
    fn max_components(&self) -> (r: usize)
        ensures
            forall|ix: u16| #[trigger] component_indices(self@, ix).len() <= r,
    {
        let mut m: usize = 0;
        let mut k: usize = 0;
        while k < self.glyphs.len()
            invariant
                k <= self.glyphs@.len(),
                forall|ix: u16| (ix as int) < k ==> #[trigger] component_indices(self@, ix).len() <= m,
            decreases self.glyphs@.len() - k,
        {
            match &self.glyphs[k] {
                Some(g) => match &g.description {
                    GlyphDescription::Composite(c) => {
                        if c.components.len() > m {
                            m = c.components.len();
                        }
                    },
                    GlyphDescription::Simple(_) => {},
                },
                None => {},
            }
            k = k + 1;
        }
        m
    }

    /// The glyphs of a subset to `glyphs`, with the glyphs that composite glyphs use: the search
    /// visits glyph 0, then the glyphs, then, breadth first, the components of visited composite
    /// glyphs. The result holds each visited glyph once, in the order of the visit, with the code
    /// points of the first of `glyphs` with its index.
    pub fn expand_composite_glyphs(&self, glyphs: &[Glyph]) -> (r: Vec<Glyph>)
        ensures
            is_expansion(self@, glyphs@, r@),
            r@.len() <= 0x10000,
    {
        let ghost gs = self@;
        let ghost start = expansion_start(indices_of(glyphs@));
        let max_c = self.max_components();
        let mut visited: Vec<bool> = Vec::new();
        let mut i: usize = 0;
        while i < 0x10000
            invariant
                i <= 0x10000,
                visited@.len() == i,
                forall|j: int| 0 <= j < i ==> !#[trigger] visited@[j],
            decreases 0x10000 - i,
        {
            visited.push(false);
            i = i + 1;
        }
        proof {
            assert(visited@.drop_last().len() == 0xFFFF);
            lemma_count_false(visited@);
        }
        let mut queue: Vec<u16> = Vec::new();
        queue.push(0);
        let mut k: usize = 0;
        while k < glyphs.len()
            invariant
                k <= glyphs@.len(),
                queue@ == seq![0u16] + indices_of(glyphs@).take(k as int),
            decreases glyphs@.len() - k,
        {
            queue.push(glyphs[k].index);
            k = k + 1;
            assert(queue@ =~= seq![0u16] + indices_of(glyphs@).take(k as int));
        }
        assert(indices_of(glyphs@).take(k as int) =~= indices_of(glyphs@));
        let mut head: usize = 0;
        let mut ordered: Vec<u16> = Vec::new();
        let mut count: usize = 0;
        let ghost mut steps: nat = 0;
        while head < queue.len()
            invariant
                head <= queue@.len(),
                visited@.len() == 0x10000,
                count == count_true(visited@),
                count <= 0x10000,
                ordered@.len() == count,
                gs == self@,
                forall|ix: u16| #[trigger] component_indices(gs, ix).len() <= max_c,
                ({
                    let e = expansion_run(gs, start, steps);
                    &&& e.queue == queue@.skip(head as int)
                    &&& e.ordered == ordered@
                    &&& forall|j: int| 0 <= j < 0x10000 ==> (#[trigger] visited@[j] <==> e.visited.contains(j as u16))
                }),
            decreases (0x10000 - count) * (max_c + 1) + (queue@.len() - head),
        {
            let ix = queue[head];
            let ghost e = expansion_run(gs, start, steps);
            proof {
                lemma_run_step(gs, start, steps);
                assert(e.queue[0] == ix);
                assert(e.queue.drop_first() =~= queue@.skip(head + 1));
            }
            head = head + 1;
            if !visited[ix as usize] {
                proof {
                    lemma_count_true_bound(visited@, ix as int);
                    lemma_count_true_update(visited@, ix as int);
                    assert(!e.visited.contains(ix));
                }
                let ghost before = queue@;
                let ghost vis = e.visited;
                let ghost comps = component_indices(gs, ix);
                if (ix as usize) < self.glyphs.len() {
                    match &self.glyphs[ix as usize] {
                        Some(g) => match &g.description {
                            GlyphDescription::Composite(c) => {
                                let mut j: usize = 0;
                                assert(comps =~= c.components@.map_values(|c: Component| c.glyph_index));
                                while j < c.components.len()
                                    invariant
                                        j <= c.components@.len(),
                                        comps == c.components@.map_values(|c: Component| c.glyph_index),
                                        visited@.len() == 0x10000,
                                        forall|t: int| 0 <= t < 0x10000 ==> (#[trigger] visited@[t] <==> vis.contains(t as u16)),
                                        queue@ == before + not_visited(comps.take(j as int), vis),
                                    decreases c.components@.len() - j,
                                {
                                    let ci = c.components[j].glyph_index;
                                    assert(comps.take(j + 1).drop_last() =~= comps.take(j as int));
                                    if !visited[ci as usize] {
                                        queue.push(ci);
                                    }
                                    j = j + 1;
                                }
                                assert(comps.take(j as int) =~= comps);
                            },
                            GlyphDescription::Simple(_) => {
                                assert(not_visited(comps, vis) =~= Seq::<u16>::empty());
                                assert(queue@ =~= before + not_visited(comps, vis));
                            },
                        },
                        None => {
                            assert(not_visited(comps, vis) =~= Seq::<u16>::empty());
                            assert(queue@ =~= before + not_visited(comps, vis));
                        },
                    }
                } else {
                    assert(not_visited(comps, vis) =~= Seq::<u16>::empty());
                    assert(queue@ =~= before + not_visited(comps, vis));
                }
                proof {
                    lemma_not_visited_len(comps, vis);
                    let pushed = not_visited(comps, vis).len();
                    assert(queue@.len() == before.len() + pushed);
                    assert(pushed <= max_c);
                    let c0 = count as int;
                    assert((0x10000 - (c0 + 1)) * (max_c + 1) == (0x10000 - c0) * (max_c + 1) - (max_c + 1))
                        by (nonlinear_arith);
                }
                visited.set(ix as usize, true);
                ordered.push(ix);
                count = count + 1;
            }
            proof {
                steps = steps + 1;
                let e2 = expansion_run(gs, start, steps);
                assert(e2 == expansion_step(gs, e));
                assert(e2.queue =~= queue@.skip(head as int));
                assert(e2.ordered =~= ordered@);
            }
        }
        let ghost fin = expansion_run(gs, start, steps);
        assert(fin.queue.len() == 0);
        assert(fin.ordered == ordered@);
        let mut r: Vec<Glyph> = Vec::new();
        let mut t: usize = 0;
        while t < ordered.len()
            invariant
                t <= ordered@.len(),
                r@.len() == t,
                forall|u: int|
                    0 <= u < t ==> #[trigger] r@[u].index == ordered@[u] && r@[u].code_points@ == codes_for(
                        glyphs@,
                        ordered@[u],
                    ),
            decreases ordered@.len() - t,
        {
            let ix = ordered[t];
            let mut j: usize = 0;
            while j < glyphs.len()
                invariant
                    j <= glyphs@.len(),
                    first_index(glyphs@, ix, 0) == first_index(glyphs@, ix, j as int),
                ensures
                    j <= glyphs@.len(),
                    first_index(glyphs@, ix, 0) == first_index(glyphs@, ix, j as int),
                    j < glyphs@.len() ==> glyphs@[j as int].index == ix,
                decreases glyphs@.len() - j,
            {
                if glyphs[j].index == ix {
                    break;
                }
                j = j + 1;
            }
            let g = if j < glyphs.len() {
                copy_of(&glyphs[j])
            } else {
                Glyph::new(ix)
            };
            proof {
                if j < glyphs.len() {
                    assert(glyphs@[j as int].index == ix);
                }
            }
            assert(g.code_points@ == codes_for(glyphs@, ix));
            r.push(g);
            t = t + 1;
        }
        assert(r@.len() == fin.ordered.len());
        r
    }
}

/// What the search keeps, for the glyphs `s` it started with: each glyph is visited once, in
/// order; the glyphs it started with and the components of visited glyphs are visited or
/// queued.
pub open spec fn expansion_inv(gs: Seq<Option<GlyphView>>, s: Seq<u16>, e: Expansion) -> bool {
    &&& e.ordered.no_duplicates()
    &&& forall|x: u16| #[trigger] e.visited.contains(x) <==> e.ordered.contains(x)
    &&& forall|x: u16| #[trigger] s.contains(x) ==> e.visited.contains(x) || e.queue.contains(x)
    &&& forall|x: u16, c: u16|
        #![trigger e.visited.contains(x), component_indices(gs, x).contains(c)]
        e.visited.contains(x) && component_indices(gs, x).contains(c) ==> e.visited.contains(c)
            || e.queue.contains(c)
}

proof fn lemma_not_visited_contains(s: Seq<u16>, v: Set<u16>, c: u16)
    requires
        s.contains(c),
        !v.contains(c),
    ensures
        not_visited(s, v).contains(c),
    decreases s.len(),
{
    if s.last() == c {
        assert(not_visited(s, v).last() == c);
    } else {
        let i = choose|i: int| 0 <= i < s.len() && s[i] == c;
        assert(s.drop_last()[i] == c);
        lemma_not_visited_contains(s.drop_last(), v, c);
        let t = not_visited(s.drop_last(), v);
        let j = choose|j: int| 0 <= j < t.len() && t[j] == c;
        if !v.contains(s.last()) {
            assert(not_visited(s, v)[j] == c);
        }
    }
}

/// A step of the search keeps what it keeps.
proof fn lemma_step_inv(gs: Seq<Option<GlyphView>>, s: Seq<u16>, e: Expansion)
    requires
        expansion_inv(gs, s, e),
    ensures
        expansion_inv(gs, s, expansion_step(gs, e)),
{
    if e.queue.len() > 0 {
        let ix = e.queue[0];
        let rest = e.queue.drop_first();
        let e2 = expansion_step(gs, e);
        assert forall|x: u16| e.queue.contains(x) && x != ix implies rest.contains(x) by {
            let i = choose|i: int| 0 <= i < e.queue.len() && e.queue[i] == x;
            assert(rest[i - 1] == x);
        }
        if e.visited.contains(ix) {
            assert forall|x: u16| #[trigger] s.contains(x) implies e2.visited.contains(x) || e2.queue.contains(x) by {
                if e.queue.contains(x) && x != ix {}
            }
            assert forall|x: u16, c: u16|
                #![trigger e2.visited.contains(x), component_indices(gs, x).contains(c)]
                e2.visited.contains(x) && component_indices(gs, x).contains(c) implies e2.visited.contains(c)
                || e2.queue.contains(c) by {
                if e.queue.contains(c) && c != ix {}
            }
        } else {
            let comps = component_indices(gs, ix);
            let added = not_visited(comps, e.visited);
            assert(e2.queue == rest + added);
            assert forall|x: u16| rest.contains(x) implies e2.queue.contains(x) by {
                let i = choose|i: int| 0 <= i < rest.len() && rest[i] == x;
                assert(e2.queue[i] == x);
            }
            assert forall|x: u16| added.contains(x) implies e2.queue.contains(x) by {
                let i = choose|i: int| 0 <= i < added.len() && added[i] == x;
                assert(e2.queue[rest.len() + i] == x);
            }
            assert(!e.ordered.contains(ix));
            assert forall|i: int, j: int| 0 <= i < j < e2.ordered.len() implies e2.ordered[i] != e2.ordered[j] by {
                if j == e.ordered.len() {
                    assert(e.ordered[i] == e2.ordered[i]);
                }
            }
            assert forall|x: u16| #[trigger] e2.visited.contains(x) <==> e2.ordered.contains(x) by {
                if e.ordered.contains(x) {
                    let i = choose|i: int| 0 <= i < e.ordered.len() && e.ordered[i] == x;
                    assert(e2.ordered[i] == x);
                }
                if e2.ordered.contains(x) {
                    let i = choose|i: int| 0 <= i < e2.ordered.len() && e2.ordered[i] == x;
                    if i < e.ordered.len() {
                        assert(e.ordered[i] == x);
                    }
                }
                assert(e2.ordered[e.ordered.len() as int] == ix);
            }
            assert(e2.visited == e.visited.insert(ix));
            assert forall|x: u16| #[trigger] s.contains(x) implies e2.visited.contains(x) || e2.queue.contains(x) by {
                if x == ix {
                    assert(e2.visited.contains(ix));
                } else if e.visited.contains(x) {
                    assert(e2.visited.contains(x));
                } else {
                    assert(e.queue.contains(x));
                    assert(rest.contains(x));
                }
            }
            assert forall|x: u16, c: u16|
                #![trigger e2.visited.contains(x), component_indices(gs, x).contains(c)]
                e2.visited.contains(x) && component_indices(gs, x).contains(c) implies e2.visited.contains(c)
                || e2.queue.contains(c) by {
                if c == ix {
                    assert(e2.visited.contains(ix));
                } else if e.visited.contains(c) {
                    assert(e2.visited.contains(c));
                } else if x == ix {
                    lemma_not_visited_contains(comps, e.visited, c);
                    assert(added.contains(c));
                } else {
                    assert(e.visited.contains(x));
                    assert(e.queue.contains(c));
                    assert(rest.contains(c));
                }
            }
        }
    }
}

/// The search keeps what it keeps, over any number of steps.
proof fn lemma_run_inv(gs: Seq<Option<GlyphView>>, s: Seq<u16>, e: Expansion, n: nat)
    requires
        expansion_inv(gs, s, e),
    ensures
        expansion_inv(gs, s, expansion_run(gs, e, n)),
    decreases n,
{
    if n > 0 {
        lemma_step_inv(gs, s, e);
        lemma_run_inv(gs, s, expansion_step(gs, e), (n - 1) as nat);
    }
}

/// The search never drops a glyph it visited, nor changes their order.
proof fn lemma_run_prefix(gs: Seq<Option<GlyphView>>, e: Expansion, n: nat)
    ensures
        expansion_run(gs, e, n).ordered.len() >= e.ordered.len(),
        forall|i: int| 0 <= i < e.ordered.len() ==> #[trigger] expansion_run(gs, e, n).ordered[i] == e.ordered[i],
    decreases n,
{
    if n > 0 {
        lemma_run_prefix(gs, expansion_step(gs, e), (n - 1) as nat);
        let e2 = expansion_step(gs, e);
        assert forall|i: int| 0 <= i < e.ordered.len() implies #[trigger] e2.ordered[i] == e.ordered[i] by {}
    }
}

/// The expansion of `glyphs`: glyph 0 comes first; no glyph comes twice; every glyph of
/// `glyphs` is in it; and so is every component of a composite glyph in it.
pub proof fn law_expansion(gs: Seq<Option<GlyphView>>, glyphs: Seq<Glyph>, r: Seq<Glyph>)
    requires
        is_expansion(gs, glyphs, r),
    ensures
        r.len() >= 1,
        r[0].index == 0,
        forall|i: int, j: int| 0 <= i < j < r.len() ==> r[i].index != r[j].index,
        forall|j: int| 0 <= j < glyphs.len() ==> indices_of(r).contains(#[trigger] glyphs[j].index),
        forall|k: int, c: u16|
            0 <= k < r.len() && #[trigger] component_indices(gs, r[k].index).contains(c) ==> indices_of(
                r,
            ).contains(c),
{
    let s = indices_of(glyphs);
    let start = expansion_start(s);
    let n = choose|n: nat|
        {
            let e = #[trigger] expansion_run(gs, start, n);
            &&& e.queue.len() == 0
            &&& r.len() == e.ordered.len()
            &&& forall|k: int|
                0 <= k < r.len() ==> #[trigger] r[k].index == e.ordered[k] && r[k].code_points@ == codes_for(
                    glyphs,
                    e.ordered[k],
                )
        };
    let e = expansion_run(gs, start, n);
    let all = seq![0u16] + s;
    assert(expansion_inv(gs, all, start)) by {
        assert(start.ordered.no_duplicates());
        assert forall|x: u16| #[trigger] all.contains(x) implies start.visited.contains(x) || start.queue.contains(x) by {}
    }
    lemma_run_inv(gs, all, start, n);
    assert(n > 0) by {
        if n == 0 {
            assert(start.queue.len() > 0);
        }
    }
    let e1 = expansion_step(gs, start);
    assert(e1.ordered =~= seq![0u16]);
    assert(expansion_run(gs, start, n) == expansion_run(gs, e1, (n - 1) as nat));
    lemma_run_prefix(gs, e1, (n - 1) as nat);
    assert(r[0].index == e.ordered[0]);
    assert(forall|x: u16| !#[trigger] e.queue.contains(x));
    assert forall|i: int, j: int| 0 <= i < j < r.len() implies r[i].index != r[j].index by {
        assert(r[i].index == e.ordered[i]);
        assert(r[j].index == e.ordered[j]);
    }
    assert forall|x: u16| e.ordered.contains(x) implies indices_of(r).contains(x) by {
        let i = choose|i: int| 0 <= i < e.ordered.len() && e.ordered[i] == x;
        assert(r[i].index == x);
        assert(indices_of(r)[i] == x);
    }
    assert forall|j: int| 0 <= j < glyphs.len() implies indices_of(r).contains(#[trigger] glyphs[j].index) by {
        let x = glyphs[j].index;
        assert(all[j + 1] == x);
        assert(all.contains(x));
        assert(e.visited.contains(x));
    }
    assert forall|k: int, c: u16|
        0 <= k < r.len() && #[trigger] component_indices(gs, r[k].index).contains(c) implies indices_of(r).contains(c) by {
        let x = r[k].index;
        assert(r[k].index == e.ordered[k]);
        assert(e.ordered.contains(x));
        assert(e.visited.contains(x));
        assert(e.visited.contains(c));
    }
}

/// After `n + 1` steps the search is one step past its state after `n` steps.
proof fn lemma_run_step(gs: Seq<Option<GlyphView>>, e: Expansion, n: nat)
    ensures
        expansion_run(gs, e, n + 1) == expansion_step(gs, expansion_run(gs, e, n)),
    decreases n,
{
    reveal_with_fuel(expansion_run, 2);
    if n > 0 {
        lemma_run_step(gs, expansion_step(gs, e), (n - 1) as nat);
    }
}

proof fn lemma_not_visited_len(s: Seq<u16>, v: Set<u16>)
    ensures
        not_visited(s, v).len() <= s.len(),
    decreases s.len(),
{
    if s.len() > 0 {
        lemma_not_visited_len(s.drop_last(), v);
    }
}

proof fn lemma_count_false(s: Seq<bool>)
    requires
        forall|j: int| 0 <= j < s.len() ==> !#[trigger] s[j],
    ensures
        count_true(s) == 0,
    decreases s.len(),
{
    if s.len() > 0 {
        lemma_count_false(s.drop_last());
    }
}


/// The bytes that the glyph takes in the table: none for no outline.
pub open spec fn opt_glyph_bytes(o: Option<GlyphView>) -> Seq<u8> {
    match o {
        Some(g) => spec_pack(g),
        None => Seq::empty(),
    }
}

proof fn lemma_glyphs_bytes_len(gs: Seq<Option<GlyphView>>)
    ensures
        glyphs_bytes(gs).len() == total_size(gs, true),
    decreases gs.len(),
{
    if gs.len() > 0 {
        lemma_glyphs_bytes_len(gs.drop_last());
        if let Some(g) = gs.last() {
            lemma_pack_len(g);
        }
    }
}

proof fn lemma_total_size_mono(gs: Seq<Option<GlyphView>>, k: int)
    requires
        0 <= k <= gs.len(),
    ensures
        total_size(gs.take(k), true) <= total_size(gs, true),
    decreases gs.len() - k,
{
    if k < gs.len() {
        lemma_total_size_mono(gs, k + 1);
        assert(gs.take(k + 1).drop_last() =~= gs.take(k));
    } else {
        assert(gs.take(k) =~= gs);
    }
}

/// Where the glyphs fit into a `u32`, each offset is the size of the glyphs before it.
proof fn lemma_offsets_sizes(gs: Seq<Option<GlyphView>>)
    requires
        total_size(gs, true) <= u32::MAX,
    ensures
        glyph_offsets(gs, true).len() == gs.len() + 1,
        forall|k: int| 0 <= k <= gs.len() ==> #[trigger] glyph_offsets(gs, true)[k] == total_size(gs.take(k), true),
    decreases gs.len(),
{
    if gs.len() == 0 {
        assert(gs.take(0) =~= gs);
    } else {
        let d = gs.drop_last();
        lemma_total_size_mono(gs, d.len() as int);
        assert(gs.take(d.len() as int) =~= d);
        lemma_offsets_sizes(d);
        assert forall|k: int| 0 <= k <= gs.len() implies #[trigger] glyph_offsets(gs, true)[k] == total_size(gs.take(k), true) by {
            if k < gs.len() {
                assert(d.take(k) =~= gs.take(k));
                assert(glyph_offsets(gs, true)[k] == glyph_offsets(d, true)[k]);
            } else {
                assert(gs.take(k) =~= gs);
            }
        }
    }
}

/// The bytes of the first `k` glyphs begin the bytes of all of them.
proof fn lemma_glyphs_bytes_prefix(gs: Seq<Option<GlyphView>>, k: int)
    requires
        0 <= k <= gs.len(),
    ensures
        glyphs_bytes(gs.take(k)).len() <= glyphs_bytes(gs).len(),
        glyphs_bytes(gs).subrange(0, glyphs_bytes(gs.take(k)).len() as int) == glyphs_bytes(gs.take(k)),
    decreases gs.len() - k,
{
    if k == gs.len() {
        assert(gs.take(k) =~= gs);
        assert(glyphs_bytes(gs).subrange(0, glyphs_bytes(gs).len() as int) =~= glyphs_bytes(gs));
    } else {
        lemma_glyphs_bytes_prefix(gs, k + 1);
        let a = glyphs_bytes(gs.take(k));
        let b = glyphs_bytes(gs.take(k + 1));
        assert(gs.take(k + 1).drop_last() =~= gs.take(k));
        assert(b == a + opt_glyph_bytes(gs[k]));
        assert(glyphs_bytes(gs).subrange(0, a.len() as int) =~= b.subrange(0, a.len() as int));
        assert(b.subrange(0, a.len() as int) =~= a);
    }
}

/// Reading the table along the offsets of its glyphs gives, after `k` glyphs, those glyphs and
/// the end of the last.
proof fn lemma_glyf_state(gs: Seq<Option<GlyphView>>, k: nat)
    requires
        k <= gs.len(),
        forall|i: int| 0 <= i < gs.len() && (#[trigger] gs[i]) is Some ==> is_packable(gs[i]->0),
        total_size(gs, true) <= u32::MAX,
    ensures
        glyf_state(glyphs_bytes(gs), glyph_offsets(gs, true), k) == Some(
            Ok::<(Seq<Option<GlyphView>>, int), FontError>((gs.take(k as int), total_size(gs.take(k as int), true) as int)),
        ),
    decreases k,
{
    let data = glyphs_bytes(gs);
    let offs = glyph_offsets(gs, true);
    lemma_offsets_sizes(gs);
    if k == 0 {
        assert(gs.take(0) =~= Seq::<Option<GlyphView>>::empty());
    } else {
        let j = (k - 1) as int;
        lemma_glyf_state(gs, (k - 1) as nat);
        assert(gs.take(k as int).drop_last() =~= gs.take(j));
        let start = offs[j] as int;
        let end = offs[k as int] as int;
        assert(start == total_size(gs.take(j), true));
        assert(end == total_size(gs.take(k as int), true));
        assert(gs.take(k as int) =~= gs.take(j).push(gs[j]));
        lemma_glyphs_bytes_len(gs);
        lemma_glyphs_bytes_len(gs.take(j));
        lemma_glyphs_bytes_len(gs.take(k as int));
        lemma_total_size_mono(gs, k as int);
        lemma_glyphs_bytes_prefix(gs, k as int);
        let bk = glyphs_bytes(gs.take(k as int));
        assert(bk == glyphs_bytes(gs.take(j)) + opt_glyph_bytes(gs[j]));
        match gs[j] {
            None => {
                assert(start == end);
            },
            Some(g) => {
                lemma_pack_len(g);
                assert(end - start == g.spec_size());
                assert(g.spec_size() > 0);
                assert(data.subrange(start, end) =~= bk.subrange(start, end));
                assert(bk.subrange(start, end) =~= spec_pack(g));
                lemma_pack_unpack(g);
            },
        }
    }
}

/// Reading back what `pack` wrote, along the offsets that 'loca' writes for it, gives the
/// glyphs again, where each glyph is one that packs faithfully and the glyphs fit into a `u32`
/// of bytes.
pub proof fn law_glyf_round_trip(gs: Seq<Option<GlyphView>>)
    requires
        forall|i: int| 0 <= i < gs.len() && (#[trigger] gs[i]) is Some ==> is_packable(gs[i]->0),
        total_size(gs, true) <= u32::MAX,
    ensures
        glyf_unpack(glyphs_bytes(gs), glyph_offsets(gs, true)) == Some(Ok::<Seq<Option<GlyphView>>, FontError>(gs)),
{
    lemma_offsets_sizes(gs);
    lemma_glyf_state(gs, gs.len());
    assert(gs.take(gs.len() as int) =~= gs);
}

} // verus!

verus! {

/// Reading the glyphs of `k` pairs of offsets gives `k` glyphs.
proof fn lemma_glyf_state_len(data: Seq<u8>, offs: Seq<u32>, k: nat, gs: Seq<Option<GlyphView>>, pos: int)
    requires
        glyf_state(data, offs, k) == Some(Ok::<(Seq<Option<GlyphView>>, int), FontError>((gs, pos))),
    ensures
        gs.len() == k,
    decreases k,
{
    if k > 0 {
        match glyf_state(data, offs, (k - 1) as nat) {
            Some(Ok((gs0, pos0))) => lemma_glyf_state_len(data, offs, (k - 1) as nat, gs0, pos0),
            _ => {},
        }
    }
}

/// Reading the table along `n + 1` offsets gives `n` glyphs; where they fit 32 bits, the
/// offsets at which `pack` places them are `n + 1` again.
pub proof fn lemma_glyf_unpack_len(data: Seq<u8>, offs: Seq<u32>, gs: Seq<Option<GlyphView>>)
    requires
        offs.len() >= 1,
        glyf_unpack(data, offs) == Some(Ok::<Seq<Option<GlyphView>>, FontError>(gs)),
    ensures
        gs.len() == offs.len() - 1,
        total_size(gs, true) <= u32::MAX ==> glyph_offsets(gs, true).len() == offs.len(),
{
    match glyf_state(data, offs, (offs.len() - 1) as nat) {
        Some(Ok((g, p))) => lemma_glyf_state_len(data, offs, (offs.len() - 1) as nat, g, p),
        _ => {},
    }
    if total_size(gs, true) <= u32::MAX {
        lemma_offsets_sizes(gs);
    }
}

} // verus!
