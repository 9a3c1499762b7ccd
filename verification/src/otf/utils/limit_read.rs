//! A reader that hands out at most a given number of bytes of another one.
use vstd::prelude::*;
use crate::big_endian::copy_range;

verus! {

/// A read past the limit.
#[derive(Debug, Clone, Copy, PartialEq, Eq)]
pub enum ReadError {
    /// All bytes up to the limit have been read already, or the source ended first.
    UnexpectedEof,
}

/// A reader over the bytes of a source that hands out at most `limit` of them.
pub struct LimitRead {
    inner: Vec<u8>,
    pos: usize,
    limit: usize,
    already_read: usize,
}

/// What a `LimitRead` is: the bytes its source still holds, its limit, and how many bytes
/// were handed out so far.
pub struct LimitReadView {
    pub source: Seq<u8>,
    pub limit: nat,
    pub already_read: nat,
}

impl View for LimitRead {
    type V = LimitReadView;

    closed spec fn view(&self) -> LimitReadView {
        LimitReadView {
            source: self.inner@.subrange(self.pos as int, self.inner@.len() as int),
            limit: self.limit as nat,
            already_read: self.already_read as nat,
        }
    }
}

/// What one read into a buffer of `len` bytes gives: the number of bytes handed out, or the
/// error once the limit is reached.
pub open spec fn read_count(v: LimitReadView, len: nat) -> Result<nat, ReadError> {
    if v.already_read == v.limit {
        Err(ReadError::UnexpectedEof)
    } else {
        let cap = if len < v.limit - v.already_read { len } else { (v.limit - v.already_read) as nat };
        Ok(if cap < v.source.len() { cap } else { v.source.len() })
    }
}

impl LimitRead {
    /// The reader is consistent: it never handed out more than its limit.
    pub closed spec fn wf(&self) -> bool {
        &&& self.pos <= self.inner@.len()
        &&& self.already_read <= self.limit
    }

    /// A reader over `inner` that hands out at most `limit` bytes.
    pub fn new(inner: Vec<u8>, limit: usize) -> (r: LimitRead)
        ensures
            r.wf(),
            r@.source == inner@,
            r@.limit == limit,
            r@.already_read == 0,
    {
        let r = LimitRead { inner, pos: 0, limit, already_read: 0 };
        assert(r@.source =~= r.inner@);
        r
    }

    /// A reader over `data` from the position `position` of a cursor on it.
    pub fn from_cursor(data: &[u8], position: usize, limit: usize) -> (r: LimitRead)
        requires
            position <= data@.len(),
        ensures
            r.wf(),
            r@.source == data@.subrange(position as int, data@.len() as int),
            r@.limit == limit,
            r@.already_read == 0,
    {
        let inner = copy_range(data, position, data.len());
        LimitRead::new(inner, limit)
    }

    /// Reads into the start of `buf` as many bytes as fit, the limit allows and the source
    /// holds; fails once the limit was reached.
    pub fn read(&mut self, buf: &mut Vec<u8>) -> (r: Result<usize, ReadError>)
        requires
            old(self).wf(),
        ensures
            final(self).wf(),
            final(self)@.limit == old(self)@.limit,
            final(buf)@.len() == old(buf)@.len(),
            match (r, read_count(old(self)@, old(buf)@.len())) {
                (Ok(n), Ok(m)) => {
                    &&& n == m
                    &&& final(buf)@ == old(self)@.source.take(n as int) + old(buf)@.skip(n as int)
                    &&& final(self)@.source == old(self)@.source.skip(n as int)
                    &&& final(self)@.already_read == old(self)@.already_read + n
                },
                (Err(e), Err(f)) => e == f && *final(self) == *old(self) && final(buf)@ == old(buf)@,
                _ => false,
            },
    {
        if self.already_read == self.limit {
            return Err(ReadError::UnexpectedEof);
        }
        let left = self.limit - self.already_read;
        let cap = if buf.len() < left { buf.len() } else { left };
        let inner_len = self.inner.len();
        let avail = inner_len - self.pos;
        let n = if cap < avail { cap } else { avail };
        let ghost src = self@.source;
        let ghost old_buf = buf@;
        let mut i: usize = 0;
        while i < n
            invariant
                n <= buf@.len(),
                n <= avail,
                inner_len == self.inner@.len(),
                avail == self.inner@.len() - self.pos,
                self.pos <= self.inner@.len(),
                src == self.inner@.subrange(self.pos as int, self.inner@.len() as int),
                i <= n,
                buf@.len() == old_buf.len(),
                buf@ == src.take(i as int) + old_buf.skip(i as int),
            decreases n - i,
        {
            let b = self.inner[self.pos + i];
            buf.set(i, b);
            proof {
                assert(buf@ =~= src.take(i + 1) + old_buf.skip(i + 1));
            }
            i = i + 1;
        }
        self.pos = self.pos + n;
        self.already_read = self.already_read + n;
        proof {
            assert(self@.source =~= src.skip(n as int));
        }
        Ok(n)
    }

    /// Reads and drops the bytes up to the limit; fails where the source ends before.
    pub fn discard(self) -> (r: Result<(), ReadError>)
        requires
            self.wf(),
        ensures
            r is Ok <==> self@.source.len() >= self@.limit - self@.already_read,
            r matches Err(e) ==> e == ReadError::UnexpectedEof,
    {
        let n = self.limit - self.already_read;
        if n == 0 {
            return Ok(());
        }
        if self.inner.len() - self.pos >= n {
            Ok(())
        } else {
            Err(ReadError::UnexpectedEof)
        }
    }

    /// The first `limit` bytes of the source.
    pub fn as_bytes(&self) -> (r: Vec<u8>)
        requires
            self.wf(),
            self@.limit <= self@.source.len(),
        ensures
            r@ == self@.source.take(self@.limit as int),
    {
        let _n = self.inner.len();
        let r = copy_range(self.inner.as_slice(), self.pos, self.pos + self.limit);
        assert(r@ =~= self@.source.take(self@.limit as int));
        r
    }
}

/// The reader after one read into a buffer of `len` bytes; unchanged where the read fails.
pub open spec fn after_read(v: LimitReadView, len: nat) -> LimitReadView {
    match read_count(v, len) {
        Ok(n) => LimitReadView { source: v.source.skip(n as int), limit: v.limit, already_read: v.already_read + n },
        Err(_) => v,
    }
}

/// The bytes that reads into buffers of the lengths `lens`, one after another, hand out, and
/// the reader after them.
pub open spec fn reads(v: LimitReadView, lens: Seq<nat>) -> (Seq<u8>, LimitReadView)
    decreases lens.len(),
{
    if lens.len() == 0 {
        (Seq::empty(), v)
    } else {
        let n = match read_count(v, lens[0]) {
            Ok(n) => n,
            Err(_) => 0,
        };
        let (rest, w) = reads(after_read(v, lens[0]), lens.drop_first());
        (v.source.take(n as int) + rest, w)
    }
}

/// Reads one after another hand out the source in order, from its start, and never more than
/// the limit: the bytes read are a prefix of the source, the reader keeps the rest, and it
/// counts them.
pub proof fn law_limit_read_sequence(v: LimitReadView, lens: Seq<nat>)
    requires
        v.already_read <= v.limit,
    ensures
        ({
            let (out, w) = reads(v, lens);
            &&& out.len() <= v.source.len()
            &&& out == v.source.take(out.len() as int)
            &&& w.source == v.source.skip(out.len() as int)
            &&& w.limit == v.limit
            &&& w.already_read == v.already_read + out.len()
            &&& w.already_read <= v.limit
        }),
    decreases lens.len(),
{
    if lens.len() > 0 {
        let n: nat = match read_count(v, lens[0]) {
            Ok(n) => n,
            Err(_) => 0,
        };
        let u = after_read(v, lens[0]);
        law_limit_read_sequence(u, lens.drop_first());
        let (rest, w) = reads(u, lens.drop_first());
        let out = v.source.take(n as int) + rest;
        assert(n <= v.source.len());
        assert(u.source =~= v.source.skip(n as int));
        assert(out =~= v.source.take(out.len() as int));
        assert(w.source =~= v.source.skip(out.len() as int));
    }
}

} // verus!
