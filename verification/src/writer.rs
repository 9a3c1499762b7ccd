//! The bookkeeping of a document's writer: how many bytes were written, the object ids handed
//! out, and where each object starts, for the cross-reference table.
use vstd::prelude::*;
use crate::decimal::{decimal, zero_padded, write_padded};
use crate::idseq::IdSeq;
use crate::serde_pdf::object::ObjectId;

verus! {

/// The offset of the object `id` among the entries, if any.
pub open spec fn offset_of(e: Seq<(usize, usize)>, id: usize) -> Option<usize>
    decreases e.len(),
{
    if e.len() == 0 {
        None
    } else if e.last().0 == id {
        Some(e.last().1)
    } else {
        offset_of(e.drop_last(), id)
    }
}

/// Some entry has an object number above `t`.
pub open spec fn any_above(e: Seq<(usize, usize)>, t: nat) -> bool {
    exists|i: int| 0 <= i < e.len() && e[i].0 > t
}

/// The entries are a map: no object number twice, none 0 or the largest `usize`.
pub open spec fn entries_wf(e: Seq<(usize, usize)>) -> bool {
    &&& forall|i: int, j: int| 0 <= i < j < e.len() ==> e[i].0 != e[j].0
    &&& forall|i: int| 0 <= i < e.len() ==> 0 < #[trigger] e[i].0 < usize::MAX
}

/// The header of a subsection: its first object number, a space, the number of entries, a
/// line break.
pub open spec fn section_header(from: nat, count: nat) -> Seq<u8> {
    decimal(from) + seq![0x20u8] + decimal(count) + seq![0x0Au8]
}

/// The entry of the free object 0.
pub open spec fn free_entry() -> Seq<u8> {
    zero_padded(decimal(0), 10) + seq![0x20u8] + decimal(65535) + seq![0x20u8, 0x66u8, 0x0Au8]
}

/// The entry of an object in use at `offset`: the offset in ten digits, `00000 n`, a line
/// break.
pub open spec fn used_entry(offset: usize) -> Seq<u8> {
    zero_padded(decimal(offset as nat), 10) + seq![0x20u8, 0x30, 0x30, 0x30, 0x30, 0x30, 0x20, 0x6E, 0x0A]
}

/// The entries of objects in use at `offsets`.
pub open spec fn used_entries(offsets: Seq<usize>) -> Seq<u8>
    decreases offsets.len(),
{
    if offsets.len() == 0 {
        Seq::empty()
    } else {
        used_entries(offsets.drop_last()) + used_entry(offsets.last())
    }
}

/// A subsection from object `from` to before `to`: written where it starts at 0 (with the
/// free object) or has entries.
pub open spec fn section(from: nat, to: nat, offsets: Seq<usize>) -> Seq<u8> {
    if from == 0 || offsets.len() > 0 {
        section_header(from, (to - from) as nat) + (if from == 0 { free_entry() } else { Seq::empty() })
            + used_entries(offsets)
    } else {
        Seq::empty()
    }
}

/// The subsections from object `to` on, where the current one started at `from` and has the
/// entries `offsets` so far: runs of consecutive object numbers, each ending at the first
/// number without an entry; the table ends after the first gap with no entries beyond it.
pub open spec fn xref_sections(e: Seq<(usize, usize)>, from: nat, to: nat, offsets: Seq<usize>, fuel: nat) -> Seq<u8>
    decreases fuel,
{
    if fuel == 0 {
        Seq::empty()
    } else {
        match offset_of(e, to as usize) {
            Some(off) => xref_sections(e, from, to + 1, offsets.push(off), (fuel - 1) as nat),
            None => if !any_above(e, to) {
                section(from, to, offsets)
            } else {
                section(from, to, offsets) + xref_sections(e, to + 1, to + 1, Seq::empty(), (fuel - 1) as nat)
            },
        }
    }
}

/// The largest object number among the entries, or 0.
pub open spec fn max_id(e: Seq<(usize, usize)>) -> nat
    decreases e.len(),
{
    if e.len() == 0 {
        0
    } else {
        let m = max_id(e.drop_last());
        if e.last().0 > m { e.last().0 as nat } else { m }
    }
}

/// The cross-reference table of the entries: `xref`, a line break, the subsections.
pub open spec fn xref_table(e: Seq<(usize, usize)>) -> Seq<u8> {
    seq![0x78u8, 0x72, 0x65, 0x66, 0x0A] + xref_sections(e, 0, 1, Seq::empty(), max_id(e) + 2)
}

/// The writer of a document, by what it keeps track of.
pub struct DocWriter {
    len: usize,
    id_seq: IdSeq,
    xref: Vec<(usize, usize)>,
}

impl DocWriter {
    /// The number of bytes written.
    pub closed spec fn spec_len(&self) -> nat {
        self.len as nat
    }

    /// The next object id to hand out.
    pub closed spec fn next_id(&self) -> nat {
        self.id_seq.next_id()
    }

    /// The cross-reference entries: object number and offset.
    pub closed spec fn entries(&self) -> Seq<(usize, usize)> {
        self.xref@
    }

    /// A writer that hands out ids from `id_seq`, with nothing written.
    pub fn new(id_seq: IdSeq) -> (r: DocWriter)
        ensures
            r.spec_len() == 0,
            r.next_id() == id_seq.next_id(),
            r.entries() == Seq::<(usize, usize)>::empty(),
    {
        DocWriter { len: 0, id_seq, xref: Vec::new() }
    }

    /// The length in bytes of the output written so far.
    pub fn len(&self) -> (r: usize)
        ensures
            r == self.spec_len(),
    {
        self.len
    }

    /// Counts `n` more bytes written.
    pub fn record_written(&mut self, n: usize)
        requires
            old(self).spec_len() + n <= usize::MAX,
        ensures
            final(self).spec_len() == old(self).spec_len() + n,
            final(self).next_id() == old(self).next_id(),
            final(self).entries() == old(self).entries(),
    {
        self.len = self.len + n;
    }

    /// Notes that the object `id` starts at the current position, replacing an earlier entry
    /// of it.
    pub fn add_xref(&mut self, id: usize)
        requires
            entries_wf(old(self).entries()),
            0 < id < usize::MAX,
        ensures
            entries_wf(final(self).entries()),
            final(self).spec_len() == old(self).spec_len(),
            final(self).next_id() == old(self).next_id(),
            forall|k: usize| #[trigger] offset_of(final(self).entries(), k) == if k == id {
                Some(old(self).spec_len() as usize)
            } else {
                offset_of(old(self).entries(), k)
            },
    {
        let ghost e = self.xref@;
        let mut i: usize = 0;
        while i < self.xref.len()
            invariant
                i <= self.xref@.len(),
                self.xref@ == e,
                entries_wf(e),
                0 < id < usize::MAX,
                self.len == old(self).len,
                self.id_seq == old(self).id_seq,
                e == old(self).xref@,
                forall|j: int| 0 <= j < i ==> (#[trigger] e[j]).0 != id,
            decreases self.xref@.len() - i,
        {
            if self.xref[i].0 == id {
                self.xref.set(i, (id, self.len));
                proof {
                    lemma_offset_of_update(e, i as int, id, self.len);
                    assert forall|a: int, b: int| 0 <= a < b < self.xref@.len() implies self.xref@[a].0 != self.xref@[b].0 by {
                        assert(self.xref@[a].0 == e[a].0);
                        assert(self.xref@[b].0 == e[b].0);
                    }
                    assert forall|a: int| 0 <= a < self.xref@.len() implies 0 < #[trigger] self.xref@[a].0 < usize::MAX by {
                        assert(self.xref@[a].0 == e[a].0);
                    }
                }
                return;
            }
            i = i + 1;
        }
        self.xref.push((id, self.len));
        proof {
            assert(self.xref@.drop_last() =~= e);
            assert forall|k: usize| #[trigger] offset_of(self.xref@, k) == if k == id {
                Some(self.len)
            } else {
                offset_of(e, k)
            } by {
            }
        }
    }

    /// Hands out the next object id, in revision 0.
    pub fn reserve_object_id(&mut self) -> (r: ObjectId)
        requires
            old(self).next_id() < usize::MAX,
        ensures
            r.spec_id() == old(self).next_id(),
            r.spec_rev() == 0,
            final(self).next_id() == old(self).next_id() + 1,
            final(self).spec_len() == old(self).spec_len(),
            final(self).entries() == old(self).entries(),
    {
        ObjectId::new(self.id_seq.next(), 0)
    }

    /// The number of ids handed out, counted from 1.
    pub fn object_count(&mut self) -> (r: usize)
        requires
            old(self).next_id() >= 1,
        ensures
            r == old(self).next_id() - 1,
            final(self).next_id() == old(self).next_id(),
            final(self).spec_len() == old(self).spec_len(),
            final(self).entries() == old(self).entries(),
    {
        self.id_seq.count()
    }

    /// The cross-reference table of the entries, which it takes out of the writer.
    pub fn write_xref(&mut self) -> (r: Vec<u8>)
        requires
            entries_wf(old(self).entries()),
        ensures
            r@ == xref_table(old(self).entries()),
            final(self).entries() == Seq::<(usize, usize)>::empty(),
            final(self).spec_len() == old(self).spec_len(),
            final(self).next_id() == old(self).next_id(),
    {
        let mut e: Vec<(usize, usize)> = Vec::new();
        std::mem::swap(&mut e, &mut self.xref);
        xref_bytes(&e)
    }
}

/// Updating an entry in place.
proof fn lemma_offset_of_update(e: Seq<(usize, usize)>, i: int, id: usize, off: usize)
    requires
        0 <= i < e.len(),
        e[i].0 == id,
        forall|a: int, b: int| 0 <= a < b < e.len() ==> e[a].0 != e[b].0,
    ensures
        forall|k: usize| #[trigger] offset_of(e.update(i, (id, off)), k) == if k == id {
            Some(off)
        } else {
            offset_of(e, k)
        },
    decreases e.len(),
{
    let u = e.update(i, (id, off));
    if i == e.len() - 1 {
        assert(u.drop_last() =~= e.drop_last());
        assert(u.last() == (id, off));
        assert(e.last().0 == id);
        assert forall|k: usize| #[trigger] offset_of(u, k) == if k == id { Some(off) } else { offset_of(e, k) } by {
        }
    } else {
        assert(forall|a: int, b: int| 0 <= a < b < e.drop_last().len() ==> e.drop_last()[a].0 != e.drop_last()[b].0);
        lemma_offset_of_update(e.drop_last(), i, id, off);
        assert(u.drop_last() =~= e.drop_last().update(i, (id, off)));
        assert(u.last() == e.last());
        assert(e[i].0 != e[e.len() - 1].0);
        assert(e.last().0 != id);
        assert forall|k: usize| #[trigger] offset_of(u, k) == if k == id { Some(off) } else { offset_of(e, k) } by {
            assert(offset_of(u.drop_last(), k) == if k == id { Some(off) } else { offset_of(e.drop_last(), k) });
        }
    }
}

/// An object number with an offset has an entry.
proof fn lemma_offset_of_some(e: Seq<(usize, usize)>, id: usize)
    requires
        offset_of(e, id) is Some,
    ensures
        exists|j: int| 0 <= j < e.len() && e[j].0 == id,
    decreases e.len(),
{
    if e.last().0 == id {
        assert(e[e.len() - 1].0 == id);
    } else {
        lemma_offset_of_some(e.drop_last(), id);
        let j = choose|j: int| 0 <= j < e.drop_last().len() && e.drop_last()[j].0 == id;
        assert(e[j] == e.drop_last()[j]);
    }
}

/// The offset of an object number, found by searching the entries.
fn find_offset(e: &Vec<(usize, usize)>, id: usize) -> (r: Option<usize>)
    requires
        forall|a: int, b: int| 0 <= a < b < e@.len() ==> e@[a].0 != e@[b].0,
    ensures
        r == offset_of(e@, id),
{
    let mut i: usize = e.len();
    assert(e@.take(i as int) =~= e@);
    while i > 0
        invariant
            i <= e@.len(),
            forall|j: int| i <= j < e@.len() ==> (#[trigger] e@[j]).0 != id,
            offset_of(e@, id) == offset_of(e@.take(i as int), id),
        decreases i,
    {
        let ghost t = e@.take(i as int);
        assert(t.drop_last() =~= e@.take(i - 1));
        if e[i - 1].0 == id {
            return Some(e[i - 1].1);
        }
        i = i - 1;
    }
    None
}

/// Whether some entry has an object number above `t`.
fn has_above(e: &Vec<(usize, usize)>, t: usize) -> (r: bool)
    ensures
        r == any_above(e@, t as nat),
{
    let mut i: usize = 0;
    while i < e.len()
        invariant
            i <= e@.len(),
            forall|j: int| 0 <= j < i ==> (#[trigger] e@[j]).0 <= t,
        decreases e@.len() - i,
    {
        if e[i].0 > t {
            return true;
        }
        i = i + 1;
    }
    false
}

/// The largest object number among the entries, or 0.
fn largest_id(e: &Vec<(usize, usize)>) -> (r: usize)
    ensures
        r == max_id(e@),
        forall|i: int| 0 <= i < e@.len() ==> (#[trigger] e@[i]).0 <= r,
{
    let mut m: usize = 0;
    let mut i: usize = 0;
    assert(e@.take(0) =~= Seq::<(usize, usize)>::empty());
    while i < e.len()
        invariant
            i <= e@.len(),
            m == max_id(e@.take(i as int)),
            forall|j: int| 0 <= j < i ==> (#[trigger] e@[j]).0 <= m,
        decreases e@.len() - i,
    {
        assert(e@.take(i + 1).drop_last() =~= e@.take(i as int));
        if e[i].0 > m {
            m = e[i].0;
        }
        i = i + 1;
    }
    assert(e@.take(i as int) =~= e@);
    m
}

/// Appends a subsection.
fn write_section(out: &mut Vec<u8>, from: usize, to: usize, offsets: &Vec<usize>)
    requires
        from <= to,
    ensures
        final(out)@ == old(out)@ + section(from as nat, to as nat, offsets@),
{
    if from == 0 || offsets.len() > 0 {
        write_padded(out, from as u64, 0);
        out.push(0x20u8);
        write_padded(out, (to - from) as u64, 0);
        out.push(0x0Au8);
        if from == 0 {
            write_padded(out, 0, 10);
            out.push(0x20u8);
            write_padded(out, 65535, 0);
            out.push(0x20u8);
            out.push(0x66u8);
            out.push(0x0Au8);
        }
        let ghost head = out@;
        let mut k: usize = 0;
        while k < offsets.len()
            invariant
                k <= offsets@.len(),
                out@ == head + used_entries(offsets@.take(k as int)),
            decreases offsets@.len() - k,
        {
            assert(offsets@.take(k + 1).drop_last() =~= offsets@.take(k as int));
            write_padded(out, offsets[k] as u64, 10);
            out.push(0x20u8);
            out.push(0x30u8);
            out.push(0x30u8);
            out.push(0x30u8);
            out.push(0x30u8);
            out.push(0x30u8);
            out.push(0x20u8);
            out.push(0x6Eu8);
            out.push(0x0Au8);
            proof {
                assert(out@ =~= head + used_entries(offsets@.take(k + 1)));
            }
            k = k + 1;
        }
        proof {
            assert(offsets@.take(k as int) =~= offsets@);
            lemma_zero_padded_zero_width(from as nat);
            lemma_zero_padded_zero_width((to - from) as nat);
            lemma_zero_padded_zero_width(65535);
            assert(out@ =~= old(out)@ + section(from as nat, to as nat, offsets@));
        }
    } else {
        assert(out@ =~= old(out)@ + section(from as nat, to as nat, offsets@));
    }
}

/// Padding to no width leaves the digits.
proof fn lemma_zero_padded_zero_width(n: nat)
    ensures
        zero_padded(decimal(n), 0) == decimal(n),
{
}

/// The cross-reference table of the entries.
pub fn xref_bytes(e: &Vec<(usize, usize)>) -> (r: Vec<u8>)
    requires
        entries_wf(e@),
    ensures
        r@ == xref_table(e@),
{
    let mut out: Vec<u8> = Vec::new();
    out.push(0x78u8);
    out.push(0x72u8);
    out.push(0x65u8);
    out.push(0x66u8);
    out.push(0x0Au8);
    let top = largest_id(e);
    let ghost fuel0: nat = max_id(e@) + 2;
    let mut from: usize = 0;
    let mut to: usize = 1;
    let mut offsets: Vec<usize> = Vec::new();
    let ghost mut fuel: nat = fuel0;
    let ghost head: Seq<u8> = seq![0x78u8, 0x72, 0x65, 0x66, 0x0A];
    let ghost mut done: Seq<u8> = Seq::empty();
    assert(out@ =~= head + done);
    loop
        invariant
            entries_wf(e@),
            top == max_id(e@),
            forall|i: int| 0 <= i < e@.len() ==> (#[trigger] e@[i]).0 <= top,
            from <= to,
            1 <= to <= top + 1,
            fuel + to == top + 3,
            out@ == head + done,
            xref_table(e@) == head + done + xref_sections(e@, from as nat, to as nat, offsets@, fuel),
        decreases fuel,
    {
        match find_offset(e, to) {
            Some(off) => {
                offsets.push(off);
                proof {
                    lemma_offset_of_some(e@, to);
                    assert(to as nat <= top);
                    fuel = (fuel - 1) as nat;
                }
                to = to + 1;
            },
            None => {
                let ghost before = out@;
                write_section(&mut out, from, to, &offsets);
                if !has_above(e, to) {
                    proof {
                        done = done + section(from as nat, to as nat, offsets@);
                    }
                    return out;
                }
                proof {
                    done = done + section(from as nat, to as nat, offsets@);
                    assert(done + xref_sections(e@, (to + 1) as nat, (to + 1) as nat, Seq::empty(), (fuel - 1) as nat)
                        =~= (done.subrange(0, done.len() - section(from as nat, to as nat, offsets@).len()) + section(from as nat, to as nat, offsets@))
                        + xref_sections(e@, (to + 1) as nat, (to + 1) as nat, Seq::empty(), (fuel - 1) as nat));
                    let w = choose|i: int| 0 <= i < e@.len() && e@[i].0 > to;
                    assert(e@[w].0 <= top);
                    fuel = (fuel - 1) as nat;
                }
                from = to + 1;
                to = to + 1;
                offsets = Vec::new();
            },
        }
    }
}

} // verus!

verus! {

/// The cross-reference entry of an object at `offset` (below 10^10) is a line of 19 bytes: the
/// offset in ten decimal digits, then ` 00000 n` and a line break.
pub proof fn law_used_entry_layout(offset: usize)
    requires
        offset < 10_000_000_000,
    ensures
        used_entry(offset).len() == 19,
        crate::serde_pdf::de::digits_value(0, used_entry(offset).subrange(0, 10)) == offset,
        forall|i: int| 0 <= i < 10 ==> 0x30 <= #[trigger] used_entry(offset)[i] <= 0x39,
        used_entry(offset).subrange(10, 19) == seq![0x20u8, 0x30, 0x30, 0x30, 0x30, 0x30, 0x20, 0x6E, 0x0A],
{
    crate::serde_pdf::de::law_zero_padded_value(offset as nat, 10);
    assert(crate::decimal::pow10(10) == 10_000_000_000) by {
        reveal_with_fuel(crate::decimal::pow10, 11);
    }
    crate::decimal::lemma_decimal_len(offset as nat, 10);
    let p = zero_padded(decimal(offset as nat), 10);
    assert(p.len() == 10);
    let e = used_entry(offset);
    assert(e.subrange(0, 10) =~= p);
    assert(e.subrange(10, 19) =~= seq![0x20u8, 0x30, 0x30, 0x30, 0x30, 0x30, 0x20, 0x6E, 0x0A]);
}

} // verus!
