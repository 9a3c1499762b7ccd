//! A writer that counts what it writes and pads it to a multiple of a given alignment.
use vstd::prelude::*;
use crate::big_endian::write_bytes;

verus! {

/// A writer into bytes that counts the bytes written.
pub struct AlignWrite {
    inner: Vec<u8>,
    align: usize,
    written: usize,
}

impl AlignWrite {
    /// The bytes of the destination so far.
    pub closed spec fn bytes(&self) -> Seq<u8> {
        self.inner@
    }

    /// The alignment.
    pub closed spec fn alignment(&self) -> nat {
        self.align as nat
    }

    /// How many bytes were written through this writer.
    pub closed spec fn written(&self) -> nat {
        self.written as nat
    }

    /// A writer onto the end of `inner` that aligns to `align` bytes.
    pub fn new(inner: Vec<u8>, align: usize) -> (w: AlignWrite)
        ensures
            w.bytes() == inner@,
            w.alignment() == align,
            w.written() == 0,
    {
        AlignWrite { inner, align, written: 0 }
    }

    /// Writes all of `buf`.
    pub fn write(&mut self, buf: &[u8]) -> (n: usize)
        requires
            old(self).written() + buf@.len() <= usize::MAX,
        ensures
            n == buf@.len(),
            final(self).bytes() == old(self).bytes() + buf@,
            final(self).alignment() == old(self).alignment(),
            final(self).written() == old(self).written() + buf@.len(),
    {
        write_bytes(&mut self.inner, buf);
        self.written = self.written + buf.len();
        buf.len()
    }

    /// Pads what was written with zero bytes up to the next multiple of the alignment, and
    /// hands back the destination and the number of bytes written in all.
    pub fn end_aligned(self) -> (r: (Vec<u8>, usize))
        requires
            self.alignment() > 0,
            self.written() + self.alignment() <= usize::MAX,
        ensures
            r.1 == (if self.written() % self.alignment() == 0 {
                self.written() as int
            } else {
                self.written() + self.alignment() - self.written() % self.alignment()
            }),
            (r.1 as nat) % self.alignment() == 0,
            r.0@ == self.bytes() + Seq::new((r.1 - self.written()) as nat, |i: int| 0u8),
    {
        let mut out = self.inner;
        let rem = self.written % self.align;
        let pad = if rem != 0 { self.align - rem } else { 0 };
        let ghost start = out@;
        let mut i: usize = 0;
        while i < pad
            invariant
                i <= pad,
                out@ == start + Seq::new(i as nat, |k: int| 0u8),
            decreases pad - i,
        {
            out.push(0u8);
            proof {
                assert(out@ =~= start + Seq::new((i + 1) as nat, |k: int| 0u8));
            }
            i = i + 1;
        }
        let total = self.written + pad;
        proof {
            if rem != 0 {
                assert((self.written + (self.align - rem)) % (self.align as int) == 0) by (nonlinear_arith)
                    requires
                        rem == self.written % self.align,
                        self.align > 0,
                        rem != 0;
            }
        }
        (out, total)
    }
}

} // verus!
