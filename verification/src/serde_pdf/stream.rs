//! PDF streams: a dictionary and the data that follows it.
use vstd::prelude::*;
use crate::serde_pdf::ser::{lit, tuple_struct_for, Serializer, TupleStruct, NAME_STREAM};

verus! {

/// A PDF stream: its dictionary and its data.
pub struct Stream<D> {
    pub dict: D,
    pub data: Vec<u8>,
}

impl<D> Stream<D> {
    /// A stream with the dictionary `dict` and no data.
    pub fn new(dict: D) -> (r: Stream<D>)
        ensures
            r.dict == dict,
            r.data@ == Seq::<u8>::empty(),
    {
        Stream { dict, data: Vec::new() }
    }

    /// Appends `buf` to the stream's data; gives the number of bytes taken, which is all of them.
    pub fn write(&mut self, buf: &[u8]) -> (n: usize)
        ensures
            final(self).dict == old(self).dict,
            final(self).data@ == old(self).data@ + buf@,
            n == buf@.len(),
    {
        let mut k: usize = 0;
        while k < buf.len()
            invariant
                k <= buf@.len(),
                self.dict == old(self).dict,
                self.data@ == old(self).data@ + buf@.subrange(0, k as int),
            decreases buf@.len() - k,
        {
            self.data.push(buf[k]);
            k = k + 1;
            assert(self.data@ =~= old(self).data@ + buf@.subrange(0, k as int));
        }
        assert(buf@.subrange(0, k as int) =~= buf@);
        buf.len()
    }

    /// Begins writing the stream, before its dictionary; gives the state in which to write
    /// the dictionary and then end the stream.
    pub fn begin(&self, ser: &mut Serializer) -> (r: TupleStruct)
        ensures
            final(ser).bytes() == old(ser).bytes(),
            final(ser).depth() == old(ser).depth(),
            r == (TupleStruct::Stream { is_first: false }),
    {
        let mut t = ser.serialize_tuple_struct(NAME_STREAM);
        assert(t == tuple_struct_for(NAME_STREAM@));
        t.serialize_field(ser);
        assert(ser.bytes() =~= old(ser).bytes());
        t
    }

    /// Ends writing the stream, after its dictionary: where there is data, a line break and
    /// the data between `stream` and `endstream`; then a line break.
    pub fn end(&self, t: TupleStruct, ser: &mut Serializer)
        requires
            t == (TupleStruct::Stream { is_first: false }),
        ensures
            final(ser).depth() == old(ser).depth(),
            final(ser).bytes() == old(ser).bytes() + (if self.data@.len() == 0 {
                lit("\n")
            } else {
                lit("\n") + lit("stream\n") + self.data@ + lit("\nendstream") + lit("\n")
            }),
    {
        let mut t = t;
        if self.data.len() > 0 {
            t.serialize_field(ser);
            ser.serialize_bytes(self.data.as_slice());
        }
        t.end(ser);
        if self.data.len() > 0 {
            assert(ser.bytes() =~= old(ser).bytes() + lit("\n") + lit("stream\n") + self.data@ + lit(
                "\nendstream",
            ) + lit("\n"));
        }
    }
}

} // verus!
