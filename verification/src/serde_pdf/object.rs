//! Indirect objects of a PDF document and references to them.
use vstd::prelude::*;
use core::marker::PhantomData;
use crate::decimal::decimal;
use crate::serde_pdf::ser::{Serializer, TupleStruct, lit};

verus! {

/// The number and revision of an indirect object.
#[derive(Debug, Clone, Copy, PartialEq, Eq, Structural)]
pub struct ObjectId {
    id: usize,
    rev: usize,
}

impl ObjectId {
    /// The object number.
    pub closed spec fn spec_id(&self) -> usize {
        self.id
    }

    /// The revision.
    pub closed spec fn spec_rev(&self) -> usize {
        self.rev
    }

    /// The id of object `id` in revision `rev`.
    pub fn new(id: usize, rev: usize) -> (r: ObjectId)
        ensures
            r.spec_id() == id,
            r.spec_rev() == rev,
    {
        ObjectId { id, rev }
    }

    /// The object number.
    pub fn id(&self) -> (r: usize)
        ensures
            r == self.spec_id(),
    {
        self.id
    }

    /// The revision.
    pub fn rev(&self) -> (r: usize)
        ensures
            r == self.spec_rev(),
    {
        self.rev
    }
}

/// An indirect object: an id and the content.
pub struct Object<D> {
    pub id: ObjectId,
    pub content: D,
}

/// A reference to an indirect object whose content has the type `D`.
pub struct Reference<D> {
    id: ObjectId,
    marker: PhantomData<D>,
}

impl<D> Object<D> {
    /// The object `id` in revision `rev` with the content `content`.
    pub fn new(id: usize, rev: usize, content: D) -> (r: Object<D>)
        ensures
            r.id.spec_id() == id,
            r.id.spec_rev() == rev,
            r.content == content,
    {
        Object { id: ObjectId::new(id, rev), content }
    }

    /// The object number.
    pub fn id(&self) -> (r: usize)
        ensures
            r == self.id.spec_id(),
    {
        self.id.id()
    }

    /// The revision.
    pub fn rev(&self) -> (r: usize)
        ensures
            r == self.id.spec_rev(),
    {
        self.id.rev()
    }

    /// A reference to the object.
    pub fn to_reference(&self) -> (r: Reference<D>)
        ensures
            r.target() == self.id,
    {
        Reference::new(self.id)
    }

    /// The content, to change it.
    pub fn content_mut(&mut self) -> (r: &mut D)
        ensures
            *r == old(self).content,
            final(self).id == old(self).id,
            final(self).content == *final(r),
    {
        &mut self.content
    }

    /// Writes the object's framing before its content: the id, the revision, `obj` and a line
    /// break; gives the state in which to write the content and end the object.
    pub fn begin(&self, ser: &mut Serializer) -> (r: TupleStruct)
        ensures
            final(ser).depth() == old(ser).depth(),
            final(ser).bytes() == old(ser).bytes() + decimal(self.id.spec_id() as nat) + lit(" ") + decimal(
                self.id.spec_rev() as nat,
            ) + lit(" obj\n"),
            r == (TupleStruct::Object { ix: 3 }),
    {
        let mut t = TupleStruct::Object { ix: 0 };
        t.serialize_field(ser);
        ser.serialize_u64(self.id.id() as u64);
        t.serialize_field(ser);
        ser.serialize_u64(self.id.rev() as u64);
        t.serialize_field(ser);
        assert(ser.bytes() =~= old(ser).bytes() + decimal(self.id.spec_id() as nat) + lit(" ") + decimal(
            self.id.spec_rev() as nat,
        ) + lit(" obj\n"));
        t
    }
}

impl Object<()> {
    /// The object 0 in revision 0, without content.
    pub fn default_object() -> (r: Object<()>)
        ensures
            r.id.spec_id() == 0,
            r.id.spec_rev() == 0,
    {
        Object { id: ObjectId::new(0, 0), content: () }
    }
}

impl<D> Reference<D> {
    /// The id of the object referred to.
    pub closed spec fn target(&self) -> ObjectId {
        self.id
    }

    /// A reference to the object `id`.
    pub fn new(id: ObjectId) -> (r: Reference<D>)
        ensures
            r.target() == id,
    {
        Reference { id, marker: PhantomData }
    }

    /// The id of the object referred to.
    pub fn id(&self) -> (r: ObjectId)
        ensures
            r == self.target(),
    {
        self.id
    }

    /// A copy of the reference.
    pub fn duplicate(&self) -> (r: Reference<D>)
        ensures
            r.target() == self.target(),
    {
        Reference { id: self.id, marker: PhantomData }
    }

    /// Writes the reference: the id, the revision and `R`.
    pub fn serialize(&self, ser: &mut Serializer)
        ensures
            final(ser).depth() == old(ser).depth(),
            final(ser).bytes() == old(ser).bytes() + decimal(self.target().spec_id() as nat) + lit(" ") + decimal(
                self.target().spec_rev() as nat,
            ) + lit(" R"),
    {
        let mut t = TupleStruct::Reference { is_first: true };
        t.serialize_field(ser);
        ser.serialize_u64(self.id.id() as u64);
        t.serialize_field(ser);
        ser.serialize_u64(self.id.rev() as u64);
        t.end(ser);
        assert(ser.bytes() =~= old(ser).bytes() + decimal(self.id.spec_id() as nat) + lit(" ") + decimal(
            self.id.spec_rev() as nat,
        ) + lit(" R"));
    }
}

} // verus!
