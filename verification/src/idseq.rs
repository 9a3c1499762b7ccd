//! Handing out sequential object ids.
use vstd::prelude::*;

verus! {

/// A type used to retrieve sequential ids.
pub struct IdSeq {
    next_id: usize,
}

impl IdSeq {
    /// The id that `next` hands out next.
    pub closed spec fn next_id(&self) -> nat {
        self.next_id as nat
    }

    /// Constructs a new `IdSeq` starting with `next_id` as the next ID in its sequence.
    pub fn new(next_id: usize) -> (r: IdSeq)
        ensures
            r.next_id() == next_id,
    {
        IdSeq { next_id }
    }

    /// Retrieves the next id.
    pub fn next(&mut self) -> (r: usize)
        requires
            old(self).next_id() < usize::MAX,
        ensures
            r == old(self).next_id(),
            final(self).next_id() == old(self).next_id() + 1,
    {
        let next = self.next_id;
        self.next_id = self.next_id + 1;
        next
    }

    /// Returns the amount of IDs that have been handed-out.
    ///
    /// The `count` is always relative to a sequence start of `1`, regardless of whether the
    /// sequence was initiated with a higher `next_id`.
    pub fn count(&mut self) -> (r: usize)
        requires
            old(self).next_id() >= 1,
        ensures
            r == old(self).next_id() - 1,
            *final(self) == *old(self),
    {
        self.next_id - 1
    }
}

} // verus!
