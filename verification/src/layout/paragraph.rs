//! Paragraphs of styled text, and where their lines may break.
use vstd::prelude::*;
use vstd::string::StringSliceAdditionalSpecFns;
use vstd::string::StringExecFns;
use crate::unicode::{lemma_utf8_len_encoding, utf8_len};

verus! {

/// Whether a line must or may break at a position.
#[derive(Debug, Clone, Copy, PartialEq, Eq, Structural)]
pub enum BreakOpportunity {
    /// A line must break here.
    Mandatory,
    /// A line may break here.
    Allowed,
}

/// The line break opportunities of a text by the Unicode line breaking algorithm: the byte
/// position of the character after each break, and its kind.
pub uninterp spec fn line_breaks(text: Seq<char>) -> Seq<(usize, BreakOpportunity)>;

/// The line break opportunities of `text`, by the Unicode line breaking algorithm
/// (`unicode_linebreak::linebreaks`): their positions are byte positions in `text`, strictly
/// increasing; the end of a text that is not empty is always a mandatory break, and an empty
/// text has none. Which other positions are opportunities, and of which kind, is not stated.
#[verifier::external_body]
fn linebreaks(text: &str) -> (r: Vec<(usize, BreakOpportunity)>)
    ensures
        r@ == line_breaks(text@),
        forall|i: int, j: int| 0 <= i < j < r@.len() ==> r@[i].0 < r@[j].0,
        forall|i: int| 0 <= i < r@.len() ==> (#[trigger] r@[i]).0 <= text.spec_bytes().len(),
        text@.len() == 0 ==> r@.len() == 0,
        text@.len() > 0 ==> r@.len() > 0 && r@.last() == (
            text.spec_bytes().len() as usize,
            BreakOpportunity::Mandatory,
        ),
{
    unicode_linebreak::linebreaks(text).map(|(i, b)| match b {
        unicode_linebreak::BreakOpportunity::Mandatory => (i, BreakOpportunity::Mandatory),
        unicode_linebreak::BreakOpportunity::Allowed => (i, BreakOpportunity::Allowed),
    }).collect()
}

/// A paragraph: text nodes, each styled.
pub struct Paragraph<S> {
    pub children: Vec<TextNode<S>>,
}

/// A styled text node, a building block of paragraphs.
pub struct TextNode<S> {
    pub text: String,
    pub style: S,
}

/// A chunk of a paragraph: the bytes from `start` to `end` of the text of the node `node`,
/// and the line break after it, if any.
#[derive(Debug, Clone, Copy, PartialEq, Eq, Structural)]
pub struct TextChunk {
    pub node: usize,
    pub start: usize,
    pub end: usize,
    pub break_after: Option<BreakOpportunity>,
}

/// The chunks from the node `k` on, whose text is left from its byte `s0`, which lies at
/// `offset` in the paragraph's text, with the breaks from `bi` on: a node ends a chunk
/// without a break where the next break lies beyond it; else the text is split at the break.
pub open spec fn chunks_from(
    lens: Seq<nat>,
    br: Seq<(usize, BreakOpportunity)>,
    k: int,
    s0: nat,
    bi: int,
    offset: int,
) -> Seq<TextChunk>
    decreases lens.len() - k + br.len() - bi,
{
    if k < 0 || k >= lens.len() || bi < 0 || bi >= br.len() || s0 > lens[k] {
        Seq::empty()
    } else {
        let i = br[bi].0;
        let pos = i - offset;
        let left = lens[k] - s0;
        if pos > left {
            seq![TextChunk { node: k as usize, start: s0 as usize, end: lens[k] as usize, break_after: None }]
                + chunks_from(lens, br, k + 1, 0, bi, offset + left)
        } else {
            let chunk = TextChunk {
                node: k as usize,
                start: s0 as usize,
                end: (s0 + pos) as usize,
                break_after: Some(br[bi].1),
            };
            if pos < left {
                seq![chunk] + chunks_from(lens, br, k, (s0 + pos) as nat, bi + 1, i as int)
            } else {
                seq![chunk] + chunks_from(lens, br, k + 1, 0, bi + 1, i as int)
            }
        }
    }
}

/// The characters of the texts of the nodes, one after another.
pub open spec fn all_text<S>(nodes: Seq<TextNode<S>>) -> Seq<char>
    decreases nodes.len(),
{
    if nodes.len() == 0 {
        Seq::empty()
    } else {
        all_text(nodes.drop_last()) + nodes.last().text@
    }
}

/// The sum of `lens`.
pub open spec fn seq_sum(lens: Seq<nat>) -> nat
    decreases lens.len(),
{
    if lens.len() == 0 {
        0
    } else {
        seq_sum(lens.drop_last()) + lens.last()
    }
}

/// Where the node `k` starts in the paragraph's text: the sum of the lengths before it.
pub open spec fn node_start(lens: Seq<nat>, k: int) -> nat {
    seq_sum(lens.take(k))
}

/// Where the chunk `c` starts in the paragraph's text.
pub open spec fn chunk_start(lens: Seq<nat>, c: TextChunk) -> int {
    node_start(lens, c.node as int) + c.start
}

/// Where the chunk `c` ends in the paragraph's text.
pub open spec fn chunk_end(lens: Seq<nat>, c: TextChunk) -> int {
    node_start(lens, c.node as int) + c.end
}

/// The chunks are ranges within their nodes that follow one another without gap or overlap
/// from `from` to `to` in the paragraph's text.
#[verifier::opaque]
pub open spec fn tiles(lens: Seq<nat>, c: Seq<TextChunk>, from: int, to: int) -> bool {
    &&& forall|i: int|
        0 <= i < c.len() ==> (#[trigger] c[i]).node < lens.len() && c[i].start <= c[i].end <= lens[c[i].node as int]
    &&& c.len() == 0 ==> from == to
    &&& c.len() > 0 ==> chunk_start(lens, c[0]) == from && chunk_end(lens, c.last()) == to
    &&& forall|i: int| 0 <= i < c.len() - 1 ==> chunk_end(lens, #[trigger] c[i]) == chunk_start(lens, c[i + 1])
}

/// Some break from the `bi`-th on is at `pos` and of kind `b`.
pub open spec fn break_at(br: Seq<(usize, BreakOpportunity)>, bi: int, pos: int, b: BreakOpportunity) -> bool {
    exists|j: int| bi <= j < br.len() && br[j].0 == pos && br[j].1 == b
}

/// Some chunk ends at `pos` with a break of kind `b` after it.
pub open spec fn chunk_ends_at(lens: Seq<nat>, c: Seq<TextChunk>, pos: int, b: BreakOpportunity) -> bool {
    exists|i: int| 0 <= i < c.len() && chunk_end(lens, c[i]) == pos && c[i].break_after == Some(b)
}

/// The chunks carry the breaks from the `bi`-th on: a chunk with a break ends at one of them;
/// a chunk without one ends with its node; and each of them ends a chunk.
#[verifier::opaque]
pub open spec fn carries_breaks(
    lens: Seq<nat>,
    c: Seq<TextChunk>,
    br: Seq<(usize, BreakOpportunity)>,
    bi: int,
) -> bool {
    &&& forall|i: int|
        0 <= i < c.len() ==> match (#[trigger] c[i]).break_after {
            Some(b) => break_at(br, bi, chunk_end(lens, c[i]), b),
            None => c[i].end == lens[c[i].node as int],
        }
    &&& forall|j: int| bi <= j < br.len() ==> chunk_ends_at(lens, c, (#[trigger] br[j]).0 as int, br[j].1)
}

/// The break positions increase strictly and end with the end of the text of total length
/// `total`; an empty text has none.
pub open spec fn breaks_ordered(br: Seq<(usize, BreakOpportunity)>, total: int) -> bool {
    &&& forall|i: int, j: int| 0 <= i < j < br.len() ==> br[i].0 < br[j].0
    &&& br.len() == 0 <==> total == 0
    &&& br.len() > 0 ==> br.last().0 == total
}

proof fn lemma_node_start_step(lens: Seq<nat>, k: int)
    requires
        0 <= k < lens.len(),
    ensures
        node_start(lens, k + 1) == node_start(lens, k) + lens[k],
{
    assert(lens.take(k + 1).drop_last() =~= lens.take(k));
}

proof fn lemma_node_start_mono(lens: Seq<nat>, k: int, l: int)
    requires
        0 <= k <= l <= lens.len(),
    ensures
        node_start(lens, k) <= node_start(lens, l),
    decreases l - k,
{
    if k < l {
        lemma_node_start_mono(lens, k, l - 1);
        lemma_node_start_step(lens, l - 1);
    }
}

/// A chunk before chunks that tile the text from where it ends.
proof fn lemma_tiles_cons(lens: Seq<nat>, x: TextChunk, rest: Seq<TextChunk>, mid: int, to: int)
    requires
        tiles(lens, rest, mid, to),
        x.node < lens.len(),
        x.start <= x.end <= lens[x.node as int],
        chunk_end(lens, x) == mid,
    ensures
        tiles(lens, seq![x] + rest, chunk_start(lens, x), to),
{
    reveal(tiles);
    let c = seq![x] + rest;
    assert(c[0] == x);
    assert forall|j: int| 0 <= j < c.len() implies (#[trigger] c[j]).node < lens.len() && c[j].start <= c[j].end
        <= lens[c[j].node as int] by {
        if j > 0 {
            assert(c[j] == rest[j - 1]);
        }
    }
    assert forall|j: int| 0 <= j < c.len() - 1 implies chunk_end(lens, #[trigger] c[j]) == chunk_start(lens, c[j + 1]) by {
        assert(c[j + 1] == rest[j]);
        if j > 0 {
            assert(c[j] == rest[j - 1]);
        }
    }
    if rest.len() > 0 {
        assert(c.last() == rest.last());
    }
}

/// A chunk before chunks that carry the breaks from `bi2` on: without a break it keeps `bi2`
/// and ends with its node; with one it carries the break before `bi2`.
proof fn lemma_carries_cons(
    lens: Seq<nat>,
    x: TextChunk,
    rest: Seq<TextChunk>,
    br: Seq<(usize, BreakOpportunity)>,
    bi: int,
    bi2: int,
)
    requires
        carries_breaks(lens, rest, br, bi2),
        0 <= bi < br.len(),
        match x.break_after {
            Some(b) => bi2 == bi + 1 && br[bi].0 == chunk_end(lens, x) && br[bi].1 == b,
            None => bi2 == bi && x.end == lens[x.node as int],
        },
    ensures
        carries_breaks(lens, seq![x] + rest, br, bi),
{
    reveal(carries_breaks);
    let c = seq![x] + rest;
    assert(c[0] == x);
    assert forall|j: int| 0 <= j < c.len() implies match (#[trigger] c[j]).break_after {
        Some(b) => break_at(br, bi, chunk_end(lens, c[j]), b),
        None => c[j].end == lens[c[j].node as int],
    } by {
        if j > 0 {
            assert(c[j] == rest[j - 1]);
            if let Some(b) = rest[j - 1].break_after {
                assert(break_at(br, bi2, chunk_end(lens, rest[j - 1]), b));
                let t = choose|t: int| bi2 <= t < br.len() && br[t].0 == chunk_end(lens, rest[j - 1]) && br[t].1 == b;
                assert(bi <= t);
            }
        } else if let Some(b) = x.break_after {
            assert(br[bi].0 == chunk_end(lens, c[0]));
        }
    }
    assert forall|j: int| bi <= j < br.len() implies chunk_ends_at(lens, c, (#[trigger] br[j]).0 as int, br[j].1) by {
        if j < bi2 {
            assert(j == bi);
            assert(chunk_end(lens, c[0]) == br[j].0 as int);
        } else {
            assert(chunk_ends_at(lens, rest, br[j].0 as int, br[j].1));
            let t = choose|t: int|
                0 <= t < rest.len() && chunk_end(lens, rest[t]) == br[j].0 as int && rest[t].break_after == Some(br[j].1);
            assert(c[t + 1] == rest[t]);
        }
    }
}

/// From a state of the split, the chunks that follow tile the rest of the text and carry the
/// breaks that are left.
proof fn lemma_chunks_from(
    lens: Seq<nat>,
    br: Seq<(usize, BreakOpportunity)>,
    k: int,
    s0: nat,
    bi: int,
    offset: int,
)
    requires
        breaks_ordered(br, node_start(lens, lens.len() as int) as int),
        lens.len() <= usize::MAX,
        0 <= k <= lens.len(),
        k < lens.len() ==> s0 <= lens[k],
        k == lens.len() ==> s0 == 0 && bi == br.len(),
        offset == node_start(lens, k) + s0,
        0 <= bi <= br.len(),
        bi < br.len() ==> offset <= br[bi].0,
        bi == br.len() ==> offset == node_start(lens, lens.len() as int),
    ensures
        tiles(lens, chunks_from(lens, br, k, s0, bi, offset), offset, node_start(lens, lens.len() as int) as int),
        carries_breaks(lens, chunks_from(lens, br, k, s0, bi, offset), br, bi),
    decreases lens.len() - k + br.len() - bi,
{
    let total = node_start(lens, lens.len() as int) as int;
    let c = chunks_from(lens, br, k, s0, bi, offset);
    if k >= lens.len() || bi >= br.len() {
        assert(c =~= Seq::<TextChunk>::empty());
        reveal(tiles);
        reveal(carries_breaks);
    } else {
        lemma_node_start_step(lens, k);
        lemma_node_start_mono(lens, k + 1, lens.len() as int);
        let i = br[bi].0;
        let pos = i - offset;
        let left = lens[k] - s0;
        assert(br[bi].0 <= total) by {
            if bi < br.len() - 1 {
                assert(br[bi].0 < br[br.len() - 1].0);
            }
        }
        assert(total <= usize::MAX) by {
            assert(br.last().0 == total);
        }
        assert(lens[k] <= total);
        if pos > left {
            let x = TextChunk { node: k as usize, start: s0 as usize, end: lens[k] as usize, break_after: None };
            let rest = chunks_from(lens, br, k + 1, 0, bi, offset + left);
            assert(c == seq![x] + rest);
            assert(k + 1 < lens.len());
            lemma_chunks_from(lens, br, k + 1, 0, bi, offset + left);
            lemma_tiles_cons(lens, x, rest, offset + left, total);
            lemma_carries_cons(lens, x, rest, br, bi, bi);
        } else {
            let x = TextChunk {
                node: k as usize,
                start: s0 as usize,
                end: (s0 + pos) as usize,
                break_after: Some(br[bi].1),
            };
            let (k2, s2): (int, nat) = if pos < left { (k, (s0 + pos) as nat) } else { (k + 1, 0) };
            let rest = chunks_from(lens, br, k2, s2, bi + 1, i as int);
            assert(c == seq![x] + rest);
            if bi + 1 < br.len() {
                assert(br[bi].0 < br[bi + 1].0);
            }
            if k2 == lens.len() && bi + 1 < br.len() {
                assert(br[bi + 1].0 <= total) by {
                    if bi + 1 < br.len() - 1 {
                        assert(br[bi + 1].0 < br[br.len() - 1].0);
                    }
                }
            }
            if bi + 1 == br.len() {
                assert(br[bi] == br.last());
            }
            lemma_chunks_from(lens, br, k2, s2, bi + 1, i as int);
            lemma_tiles_cons(lens, x, rest, i as int, total);
            lemma_carries_cons(lens, x, rest, br, bi, bi + 1);
        }
    }
}

/// Splitting text nodes at their line breaks loses and repeats no text, and keeps every break:
/// where the break positions increase strictly and the last one is the end of the text (as the
/// line breaking algorithm gives them), the chunks are ranges within their nodes that follow
/// one another from the start to the end of the text; a chunk with a break ends at one of
/// the breaks, with its kind; a chunk without one ends with its node; and each break ends a
/// chunk.
pub proof fn law_chunks_tile(lens: Seq<nat>, br: Seq<(usize, BreakOpportunity)>)
    requires
        breaks_ordered(br, node_start(lens, lens.len() as int) as int),
        lens.len() <= usize::MAX,
    ensures
        tiles(lens, chunks_from(lens, br, 0, 0, 0, 0), 0, node_start(lens, lens.len() as int) as int),
        carries_breaks(lens, chunks_from(lens, br, 0, 0, 0, 0), br, 0),
{
    assert(lens.take(0) =~= Seq::<nat>::empty());
    if lens.len() == 0 {
        assert(chunks_from(lens, br, 0, 0, 0, 0) =~= Seq::<TextChunk>::empty());
        reveal(tiles);
        reveal(carries_breaks);
        if br.len() > 0 {
            assert(lens.take(lens.len() as int) =~= lens);
        }
    } else {
        if br.len() > 0 {
            lemma_node_start_mono(lens, 0, lens.len() as int);
            assert(br[0].0 >= 0);
        }
        lemma_chunks_from(lens, br, 0, 0, 0, 0);
    }
}

/// The byte lengths of the texts of the nodes.
pub open spec fn node_lens<S>(nodes: Seq<TextNode<S>>) -> Seq<nat> {
    Seq::new(nodes.len(), |k: int| vstd::utf8::encode_utf8(nodes[k].text@).len())
}

proof fn lemma_utf8_len_concat(a: Seq<char>, b: Seq<char>)
    ensures
        utf8_len(a + b) == utf8_len(a) + utf8_len(b),
    decreases b.len(),
{
    if b.len() > 0 {
        assert((a + b).drop_last() =~= a + b.drop_last());
        lemma_utf8_len_concat(a, b.drop_last());
    } else {
        assert(a + b =~= a);
    }
}

/// The byte length of the nodes' text is the sum of the byte lengths of their texts.
proof fn lemma_all_text_bytes<S>(nodes: Seq<TextNode<S>>)
    ensures
        vstd::utf8::encode_utf8(all_text(nodes)).len() == node_start(node_lens(nodes), nodes.len() as int),
    decreases nodes.len(),
{
    let lens = node_lens(nodes);
    assert(lens.take(nodes.len() as int) =~= lens);
    if nodes.len() > 0 {
        let d = nodes.drop_last();
        lemma_all_text_bytes(d);
        assert(node_lens(d) =~= lens.drop_last());
        assert(node_lens(d).take(d.len() as int) =~= node_lens(d));
        lemma_utf8_len_concat(all_text(d), nodes.last().text@);
        lemma_utf8_len_encoding(all_text(nodes));
        lemma_utf8_len_encoding(all_text(d));
        lemma_utf8_len_encoding(nodes.last().text@);
        assert(lens.drop_last() =~= lens.take(nodes.len() - 1));
    } else {
        assert(all_text(nodes) =~= Seq::<char>::empty());
    }
}

impl<S> Paragraph<S> {
    /// The byte lengths of the texts of the nodes.
    pub open spec fn lens(&self) -> Seq<nat> {
        node_lens(self.children@)
    }

    /// Splits the paragraph into chunks at the opportunities for line breaks in its whole text:
    /// the chunks cover the text from its start to its end without gap or overlap, and end at
    /// the breaks, each break with its kind.
    pub fn chunks(&self) -> (r: Vec<TextChunk>)
        ensures
            r@ == chunks_from(self.lens(), line_breaks(all_text(self.children@)), 0, 0, 0, 0),
            tiles(self.lens(), r@, 0, node_start(self.lens(), self.lens().len() as int) as int),
            carries_breaks(self.lens(), r@, line_breaks(all_text(self.children@)), 0),
    {
        let mut all = String::new();
        let mut lens: Vec<usize> = Vec::new();
        let mut j: usize = 0;
        while j < self.children.len()
            invariant
                j <= self.children@.len(),
                all@ == all_text(self.children@.take(j as int)),
                lens@.len() == j,
                forall|k: int| 0 <= k < j ==> #[trigger] lens@[k] == self.lens()[k],
            decreases self.children@.len() - j,
        {
            let t = self.children[j].text.as_str();
            let tb = t.as_bytes();
            lens.push(tb.len());
            proof {
                assert(self.children@.take(j + 1).drop_last() =~= self.children@.take(j as int));
            }
            all = all.concat(t);
            j = j + 1;
        }
        proof {
            assert(self.children@.take(j as int) =~= self.children@);
            assert(lens@.map_values(|l: usize| l as nat) =~= self.lens());
        }
        let text = all.as_str();
        let total: usize = text.as_bytes().len();
        let br = linebreaks(text);
        let ghost gl = self.lens();
        proof {
            lemma_all_text_bytes(self.children@);
            lemma_utf8_len_encoding(all@);
            if all@.len() > 0 {
                assert(utf8_len(all@) > 0);
            }
            assert(total == node_start(gl, gl.len() as int));
            assert(br@.len() == 0 <==> node_start(gl, gl.len() as int) == 0);
            assert(br@.len() > 0 ==> br@.last().0 == node_start(gl, gl.len() as int));
            assert(breaks_ordered(br@, node_start(gl, gl.len() as int) as int));
            law_chunks_tile(gl, br@);
        }
        let mut out: Vec<TextChunk> = Vec::new();
        let mut k: usize = 0;
        let mut s0: usize = 0;
        let mut bi: usize = 0;
        let mut offset: usize = 0;
        loop
            invariant
                lens@.len() == gl.len(),
                forall|x: int| 0 <= x < gl.len() ==> #[trigger] lens@[x] == gl[x],
                forall|x: int, y: int| 0 <= x < y < br@.len() ==> br@[x].0 < br@[y].0,
                k <= gl.len(),
                bi <= br@.len(),
                k < gl.len() ==> s0 <= gl[k as int],
                bi < br@.len() ==> offset <= br@[bi as int].0,
                gl == self.lens(),
                br@ == line_breaks(all_text(self.children@)),
                tiles(gl, chunks_from(gl, br@, 0, 0, 0, 0), 0, node_start(gl, gl.len() as int) as int),
                carries_breaks(gl, chunks_from(gl, br@, 0, 0, 0, 0), br@, 0),
                chunks_from(gl, br@, 0, 0, 0, 0) == out@ + chunks_from(gl, br@, k as int, s0 as nat, bi as int, offset as int),
            decreases gl.len() - k + br@.len() - bi,
        {
            if k >= lens.len() || bi >= br.len() {
                proof {
                    assert(out@ + chunks_from(gl, br@, k as int, s0 as nat, bi as int, offset as int) =~= out@);
                }
                return out;
            }
            let (i, b) = br[bi];
            let pos = i - offset;
            let left = lens[k] - s0;
            let ghost prev = out@;
            if pos > left {
                out.push(TextChunk { node: k, start: s0, end: lens[k], break_after: None });
                proof {
                    assert(prev + chunks_from(gl, br@, k as int, s0 as nat, bi as int, offset as int)
                        =~= out@ + chunks_from(gl, br@, k + 1, 0, bi as int, offset + left));
                }
                offset = offset + left;
                k = k + 1;
                s0 = 0;
            } else {
                out.push(TextChunk { node: k, start: s0, end: s0 + pos, break_after: Some(b) });
                if pos < left {
                    proof {
                        assert(prev + chunks_from(gl, br@, k as int, s0 as nat, bi as int, offset as int)
                            =~= out@ + chunks_from(gl, br@, k as int, (s0 + pos) as nat, bi + 1, i as int));
                    }
                    s0 = s0 + pos;
                } else {
                    proof {
                        assert(prev + chunks_from(gl, br@, k as int, s0 as nat, bi as int, offset as int)
                            =~= out@ + chunks_from(gl, br@, k + 1, 0, bi + 1, i as int));
                    }
                    k = k + 1;
                    s0 = 0;
                }
                offset = i;
                bi = bi + 1;
            }
        }
    }
}

} // verus!
