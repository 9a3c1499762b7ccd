//! Ending a document: the page tree, the catalog, the font objects, the cross-reference table
//! and the trailer. The objects are written as PDF object syntax, their bytes as the library
//! computes them; writing them out and writing the font objects is up to the caller, which
//! performs the actions that `end_document` hands out.
use vstd::prelude::*;
use vstd::string::StringSliceAdditionalSpecFns;
use crate::big_endian::write_bytes;
use crate::decimal::decimal;
use crate::serde_pdf::object::ObjectId;
use crate::serde_pdf::ser::{lit, Serializer};
use crate::serde_pdf::string::{hex_encodable, spec_to_hex, spec_to_literal, to_hex, to_literal};
use crate::writer::{entries_wf, xref_table, DocWriter};

verus! {

/// A reference to the object `id`: its number, its revision and `R`.
pub open spec fn spec_ref(id: ObjectId) -> Seq<u8> {
    decimal(id.spec_id() as nat) + lit(" ") + decimal(id.spec_rev() as nat) + lit(" R")
}

/// References to the objects `ids`, separated by spaces.
pub open spec fn spec_refs(ids: Seq<ObjectId>) -> Seq<u8>
    decreases ids.len(),
{
    if ids.len() == 0 {
        Seq::empty()
    } else if ids.len() == 1 {
        spec_ref(ids[0])
    } else {
        spec_refs(ids.drop_last()) + lit(" ") + spec_ref(ids.last())
    }
}

/// What starts the indirect object `id`: its number, its revision and `obj`.
pub open spec fn spec_obj_head(id: ObjectId) -> Seq<u8> {
    decimal(id.spec_id() as nat) + lit(" ") + decimal(id.spec_rev() as nat) + lit(" obj\n")
}

/// The page tree object `id`: the media box of an A4 page, the pages `kids` and their count.
pub open spec fn spec_pages_object(id: ObjectId, kids: Seq<ObjectId>) -> Seq<u8> {
    spec_obj_head(id) + lit("<<\n\t/Type /Pages\n") + lit("\t/MediaBox [0 0 595.296 841.896]\n") + lit("\t/Kids [")
        + spec_refs(kids) + lit("]\n") + lit("\t/Count ") + decimal(kids.len()) + lit("\n") + lit(">>")
        + lit("\nendobj\n\n")
}

/// The catalog object `id`, with the page tree `pages`.
pub open spec fn spec_catalog_object(id: ObjectId, pages: ObjectId) -> Seq<u8> {
    spec_obj_head(id) + lit("<<\n\t/Type /Catalog\n") + lit("\t/Pages ") + spec_ref(pages) + lit("\n") + lit(">>")
        + lit("\nendobj\n\n")
}

/// The entries ` /F<font> <reference>` of a page's font dictionary.
pub open spec fn spec_font_entries(fonts: Seq<(usize, ObjectId)>) -> Seq<u8>
    decreases fonts.len(),
{
    if fonts.len() == 0 {
        Seq::empty()
    } else {
        spec_font_entries(fonts.drop_last()) + lit(" /F") + decimal(fonts.last().0 as nat) + lit(" ") + spec_ref(
            fonts.last().1,
        )
    }
}

/// The page object `id`: its parent `parent`, the fonts it uses (the font number and the font
/// object), and its content streams.
pub open spec fn spec_page_object(
    id: ObjectId,
    parent: ObjectId,
    fonts: Seq<(usize, ObjectId)>,
    contents: Seq<ObjectId>,
) -> Seq<u8> {
    spec_obj_head(id) + lit("<<\n\t/Type /Page\n") + lit("\t/Parent ") + spec_ref(parent) + lit("\n") + lit(
        "\t/Resources <<\n\t\t/Type /Resources\n",
    ) + (if fonts.len() == 0 {
        Seq::empty()
    } else {
        lit("\t\t/Font <<") + spec_font_entries(fonts) + lit(" >>\n")
    }) + lit("\t>>\n") + lit("\t/Contents [") + spec_refs(contents) + lit("]\n") + lit(">>") + lit("\nendobj\n\n")
}

/// The trailer of a document: its size, its catalog, its id (twice, as hexadecimal strings),
/// its producer (a literal string) and creation date (a PDF date string), then where the
/// cross-reference table starts, and the end of file marker.
pub open spec fn spec_trailer(
    size: usize,
    root: ObjectId,
    id: Seq<u8>,
    producer: Seq<char>,
    creation_date: Seq<u8>,
    startxref: usize,
) -> Seq<u8> {
    lit("trailer\n") + lit("<<\n") + lit("\t/Size ") + decimal(size as nat) + lit("\n") + lit("\t/Root ")
        + spec_ref(root) + lit("\n") + lit("\t/ID [") + vstd::utf8::encode_utf8(spec_to_hex(id)) + lit(" ")
        + vstd::utf8::encode_utf8(spec_to_hex(id)) + lit("]\n") + lit("\t/Info <<\n") + lit("\t\t/Producer ")
        + vstd::utf8::encode_utf8(spec_to_literal(producer)) + lit("\n") + lit("\t\t/CreationDate ")
        + creation_date + lit("\n") + lit("\t>>\n") + lit(">>") + lit("\nstartxref\n") + decimal(
        startxref as nat,
    ) + lit("\n%%EOF")
}

/// Writes a reference to `id`.
fn write_ref(ser: &mut Serializer, id: ObjectId)
    ensures
        final(ser).bytes() == old(ser).bytes() + spec_ref(id),
        final(ser).depth() == old(ser).depth(),
{
    ser.serialize_u64(id.id() as u64);
    ser.write_str(" ");
    ser.serialize_u64(id.rev() as u64);
    ser.write_str(" R");
    assert(ser.bytes() =~= old(ser).bytes() + spec_ref(id));
}

/// Writes references to `ids`, separated by spaces.
fn write_refs(ser: &mut Serializer, ids: &Vec<ObjectId>)
    ensures
        final(ser).bytes() == old(ser).bytes() + spec_refs(ids@),
        final(ser).depth() == old(ser).depth(),
{
    let ghost start = ser.bytes();
    let mut k: usize = 0;
    while k < ids.len()
        invariant
            k <= ids@.len(),
            ser.bytes() == start + spec_refs(ids@.take(k as int)),
            ser.depth() == old(ser).depth(),
        decreases ids@.len() - k,
    {
        let ghost before = ser.bytes();
        if k > 0 {
            ser.write_str(" ");
        }
        write_ref(ser, ids[k]);
        proof {
            let t = ids@.take(k + 1);
            assert(t.drop_last() =~= ids@.take(k as int));
            if k == 0 {
                assert(spec_refs(ids@.take(0)) =~= Seq::<u8>::empty());
                assert(ser.bytes() =~= start + spec_refs(t));
            } else {
                assert(ser.bytes() =~= start + spec_refs(t));
            }
        }
        k = k + 1;
    }
    assert(ids@.take(k as int) =~= ids@);
}

/// Writes the head of the object `id`.
fn write_obj_head(ser: &mut Serializer, id: ObjectId)
    ensures
        final(ser).bytes() == old(ser).bytes() + spec_obj_head(id),
        final(ser).depth() == old(ser).depth(),
{
    ser.serialize_u64(id.id() as u64);
    ser.write_str(" ");
    ser.serialize_u64(id.rev() as u64);
    ser.write_str(" obj\n");
    assert(ser.bytes() =~= old(ser).bytes() + spec_obj_head(id));
}

/// The page tree object `id` with the pages `kids`.
pub fn pages_object(id: ObjectId, kids: &Vec<ObjectId>) -> (r: Vec<u8>)
    ensures
        r@ == spec_pages_object(id, kids@),
{
    let mut ser = Serializer::new();
    write_obj_head(&mut ser, id);
    ser.write_str("<<\n\t/Type /Pages\n");
    ser.write_str("\t/MediaBox [0 0 595.296 841.896]\n");
    ser.write_str("\t/Kids [");
    write_refs(&mut ser, kids);
    ser.write_str("]\n");
    ser.write_str("\t/Count ");
    ser.serialize_u64(kids.len() as u64);
    ser.write_str("\n");
    ser.write_str(">>");
    ser.write_str("\nendobj\n\n");
    let r = ser.into_bytes();
    assert(r@ =~= spec_pages_object(id, kids@));
    r
}

/// The catalog object `id` with the page tree `pages`.
pub fn catalog_object(id: ObjectId, pages: ObjectId) -> (r: Vec<u8>)
    ensures
        r@ == spec_catalog_object(id, pages),
{
    let mut ser = Serializer::new();
    write_obj_head(&mut ser, id);
    ser.write_str("<<\n\t/Type /Catalog\n");
    ser.write_str("\t/Pages ");
    write_ref(&mut ser, pages);
    ser.write_str("\n");
    ser.write_str(">>");
    ser.write_str("\nendobj\n\n");
    let r = ser.into_bytes();
    assert(r@ =~= spec_catalog_object(id, pages));
    r
}

/// The page object `id` with its parent, its fonts and its content streams.
pub fn page_object(id: ObjectId, parent: ObjectId, fonts: &Vec<(usize, ObjectId)>, contents: &Vec<ObjectId>) -> (r: Vec<
    u8,
>)
    ensures
        r@ == spec_page_object(id, parent, fonts@, contents@),
{
    let mut ser = Serializer::new();
    write_obj_head(&mut ser, id);
    ser.write_str("<<\n\t/Type /Page\n");
    ser.write_str("\t/Parent ");
    write_ref(&mut ser, parent);
    ser.write_str("\n");
    ser.write_str("\t/Resources <<\n\t\t/Type /Resources\n");
    let ghost before_fonts = ser.bytes();
    if fonts.len() > 0 {
        ser.write_str("\t\t/Font <<");
        let ghost start = ser.bytes();
        let mut k: usize = 0;
        while k < fonts.len()
            invariant
                k <= fonts@.len(),
                ser.bytes() == start + spec_font_entries(fonts@.take(k as int)),
            decreases fonts@.len() - k,
        {
            let (f, o) = fonts[k];
            ser.write_str(" /F");
            ser.serialize_u64(f as u64);
            ser.write_str(" ");
            write_ref(&mut ser, o);
            proof {
                assert(fonts@.take(k + 1).drop_last() =~= fonts@.take(k as int));
                assert(ser.bytes() =~= start + spec_font_entries(fonts@.take(k + 1)));
            }
            k = k + 1;
        }
        assert(fonts@.take(k as int) =~= fonts@);
        ser.write_str(" >>\n");
    }
    assert(ser.bytes() =~= before_fonts + (if fonts@.len() == 0 {
        Seq::<u8>::empty()
    } else {
        lit("\t\t/Font <<") + spec_font_entries(fonts@) + lit(" >>\n")
    }));
    ser.write_str("\t>>\n");
    ser.write_str("\t/Contents [");
    write_refs(&mut ser, contents);
    ser.write_str("]\n");
    ser.write_str(">>");
    ser.write_str("\nendobj\n\n");
    let r = ser.into_bytes();
    assert(r@ =~= spec_page_object(id, parent, fonts@, contents@));
    r
}

/// What starts the content stream object `id` whose length is the object `len_id`: the
/// object's head, the stream's dictionary with the reference to its length, `stream`.
pub open spec fn spec_stream_start(id: ObjectId, len_id: ObjectId) -> Seq<u8> {
    decimal(id.spec_id() as nat) + lit(" ") + decimal(id.spec_rev() as nat) + lit(" obj\n") + lit("<<\n")
        + lit("\t/Length ") + spec_ref(len_id) + lit("\n") + lit(">>") + lit("\nstream\n")
}

/// What ends a content stream of `len` bytes: `endstream`, the end of the object, and the
/// object `len_id` that holds the length.
pub open spec fn spec_stream_end(len_id: ObjectId, len: usize) -> Seq<u8> {
    lit("\nendstream\nendobj\n\n") + spec_obj_head(len_id) + decimal(len as nat) + lit("\nendobj\n\n")
}

/// The start of the content stream object `id` with its length in the object `len_id`.
pub fn stream_start(id: ObjectId, len_id: ObjectId) -> (r: Vec<u8>)
    ensures
        r@ == spec_stream_start(id, len_id),
{
    let mut ser = Serializer::new();
    ser.serialize_u64(id.id() as u64);
    ser.write_str(" ");
    ser.serialize_u64(id.rev() as u64);
    ser.write_str(" obj\n");
    ser.write_str("<<\n");
    ser.write_str("\t/Length ");
    write_ref(&mut ser, len_id);
    ser.write_str("\n");
    ser.write_str(">>");
    ser.write_str("\nstream\n");
    let r = ser.into_bytes();
    assert(r@ =~= spec_stream_start(id, len_id));
    r
}

/// The end of a content stream of `len` bytes and its length object `len_id`.
pub fn stream_end(len_id: ObjectId, len: usize) -> (r: Vec<u8>)
    ensures
        r@ == spec_stream_end(len_id, len),
{
    let mut ser = Serializer::new();
    ser.write_str("\nendstream\nendobj\n\n");
    write_obj_head(&mut ser, len_id);
    ser.serialize_u64(len as u64);
    ser.write_str("\nendobj\n\n");
    let r = ser.into_bytes();
    assert(r@ =~= spec_stream_end(len_id, len));
    r
}

/// The head of a document: the version comment, and a comment of four bytes above 127 that
/// marks the file as binary.
pub open spec fn spec_header() -> Seq<u8> {
    lit("%PDF-1.6\n%") + seq![255u8, 255u8, 255u8, 255u8, 0x0Au8, 0x0Au8]
}

/// The head of a document.
pub fn header() -> (r: Vec<u8>)
    ensures
        r@ == spec_header(),
{
    let mut ser = Serializer::new();
    ser.write_str("%PDF-1.6\n%");
    let mut r = ser.into_bytes();
    r.push(255);
    r.push(255);
    r.push(255);
    r.push(255);
    r.push(0x0A);
    r.push(0x0A);
    assert(r@ =~= spec_header());
    r
}

/// Whether `s` can be written as a hexadecimal string: no byte below 31.
pub fn is_hex_encodable(s: &str) -> (r: bool)
    ensures
        r == hex_encodable(s.spec_bytes()),
{
    let b = s.as_bytes();
    let mut k: usize = 0;
    while k < b.len()
        invariant
            k <= b@.len(),
            b@ == s.spec_bytes(),
            forall|j: int| 0 <= j < k ==> #[trigger] b@[j] >= 31,
        decreases b@.len() - k,
    {
        if b[k] < 31 {
            return false;
        }
        k = k + 1;
    }
    true
}

/// The trailer of a document (see `spec_trailer`); `creation_date` is a PDF date string as
/// `pdf_date` writes it.
pub fn trailer_bytes(
    size: usize,
    root: ObjectId,
    id: &str,
    producer: &str,
    creation_date: &str,
    startxref: usize,
) -> (r: Vec<u8>)
    requires
        hex_encodable(id.spec_bytes()),
    ensures
        r@ == spec_trailer(size, root, id.spec_bytes(), producer@, creation_date.spec_bytes(), startxref),
{
    let mut ser = Serializer::new();
    ser.write_str("trailer\n");
    ser.write_str("<<\n");
    ser.write_str("\t/Size ");
    ser.serialize_u64(size as u64);
    ser.write_str("\n");
    ser.write_str("\t/Root ");
    write_ref(&mut ser, root);
    ser.write_str("\n");
    ser.write_str("\t/ID [");
    let hex = to_hex(id);
    ser.serialize_raw(hex.as_str());
    ser.write_str(" ");
    ser.serialize_raw(hex.as_str());
    ser.write_str("]\n");
    ser.write_str("\t/Info <<\n");
    ser.write_str("\t\t/Producer ");
    let p = to_literal(producer);
    ser.serialize_raw(p.as_str());
    ser.write_str("\n");
    ser.write_str("\t\t/CreationDate ");
    ser.serialize_raw(creation_date);
    ser.write_str("\n");
    ser.write_str("\t>>\n");
    ser.write_str(">>");
    ser.write_str("\nstartxref\n");
    ser.serialize_u64(startxref as u64);
    ser.write_str("\n%%EOF");
    let r = ser.into_bytes();
    assert(r@ =~= spec_trailer(size, root, id.spec_bytes(), producer@, creation_date.spec_bytes(), startxref));
    r
}

/// What a document holds when it ends: its page tree object, its pages, the font objects to
/// write (the font and the object of each subset), its id, producer and creation date.
pub struct DocEnd {
    pub pages_obj_id: ObjectId,
    pub pages: Vec<ObjectId>,
    pub fonts: Vec<(usize, ObjectId)>,
    pub id: String,
    pub producer: String,
    pub creation_date: String,
}

/// An action of ending a document: write bytes, or write the objects of the font subset
/// (the font, the subset's object).
pub enum DocAction {
    Write(Vec<u8>),
    WriteFont(usize, ObjectId),
}

impl DocEnd {
    /// The actions of ending the document, before the cross-reference table: the page tree and
    /// the catalog `catalog`, then the font objects.
    pub open spec fn actions_ok(&self, catalog: ObjectId, r: Seq<DocAction>) -> bool {
        &&& r.len() == 2 + self.fonts@.len()
        &&& r[0] matches DocAction::Write(b) && b@ == spec_pages_object(self.pages_obj_id, self.pages@)
        &&& r[1] matches DocAction::Write(b) && b@ == spec_catalog_object(catalog, self.pages_obj_id)
        &&& forall|k: int|
            0 <= k < self.fonts@.len() ==> (#[trigger] r[2 + k]) == DocAction::WriteFont(
                self.fonts@[k].0,
                self.fonts@[k].1,
            )
    }
}

/// Starts ending a document: writes the page tree object and the catalog (the next object id)
/// into `w`'s account, each at the position it stands at; gives the catalog's id and the
/// actions to perform: the two objects' bytes, then the font objects, which the caller writes
/// through `w` before calling `finish_document`.
pub fn end_document(w: &mut DocWriter, s: &DocEnd) -> (r: (ObjectId, Vec<DocAction>))
    requires
        entries_wf(old(w).entries()),
        0 < s.pages_obj_id.spec_id() < usize::MAX,
        1 <= old(w).next_id() < usize::MAX - 1,
        old(w).spec_len() + spec_pages_object(s.pages_obj_id, s.pages@).len() + 128 <= usize::MAX,
    ensures
        r.0.spec_id() == old(w).next_id(),
        r.0.spec_rev() == 0,
        s.actions_ok(r.0, r.1@),
        entries_wf(final(w).entries()),
        final(w).next_id() == old(w).next_id() + 1,
        final(w).spec_len() == old(w).spec_len() + spec_pages_object(s.pages_obj_id, s.pages@).len()
            + spec_catalog_object(r.0, s.pages_obj_id).len(),
        forall|k: usize| #[trigger] crate::writer::offset_of(final(w).entries(), k) == if k == r.0.spec_id() {
            Some((old(w).spec_len() + spec_pages_object(s.pages_obj_id, s.pages@).len()) as usize)
        } else if k == s.pages_obj_id.spec_id() {
            Some(old(w).spec_len() as usize)
        } else {
            crate::writer::offset_of(old(w).entries(), k)
        },
{
    let ghost len0 = w.spec_len();
    let ghost e0 = w.entries();
    w.add_xref(s.pages_obj_id.id());
    let pages = pages_object(s.pages_obj_id, &s.pages);
    w.record_written(pages.len());
    let catalog = w.reserve_object_id();
    w.add_xref(catalog.id());
    let cat = catalog_object(catalog, s.pages_obj_id);
    proof {
        crate::decimal::lemma_decimal_len_u64(catalog.spec_id() as nat);
        crate::decimal::lemma_decimal_len_u64(catalog.spec_rev() as nat);
        crate::decimal::lemma_decimal_len_u64(s.pages_obj_id.spec_id() as nat);
        crate::decimal::lemma_decimal_len_u64(s.pages_obj_id.spec_rev() as nat);
        reveal_strlit(" ");
        vstd::string::is_ascii_spec_bytes(" ");
        reveal_strlit(" obj\n");
        vstd::string::is_ascii_spec_bytes(" obj\n");
        reveal_strlit("<<\n\t/Type /Catalog\n");
        vstd::string::is_ascii_spec_bytes("<<\n\t/Type /Catalog\n");
        reveal_strlit("\t/Pages ");
        vstd::string::is_ascii_spec_bytes("\t/Pages ");
        reveal_strlit(" R");
        vstd::string::is_ascii_spec_bytes(" R");
        reveal_strlit("\n");
        vstd::string::is_ascii_spec_bytes("\n");
        reveal_strlit(">>");
        vstd::string::is_ascii_spec_bytes(">>");
        reveal_strlit("\nendobj\n\n");
        vstd::string::is_ascii_spec_bytes("\nendobj\n\n");
        assert(cat@.len() <= 128);
    }
    w.record_written(cat.len());
    let mut actions: Vec<DocAction> = Vec::new();
    actions.push(DocAction::Write(pages));
    actions.push(DocAction::Write(cat));
    let mut k: usize = 0;
    while k < s.fonts.len()
        invariant
            k <= s.fonts@.len(),
            actions@.len() == 2 + k,
            actions@[0] matches DocAction::Write(b) && b@ == spec_pages_object(s.pages_obj_id, s.pages@),
            actions@[1] matches DocAction::Write(b) && b@ == spec_catalog_object(catalog, s.pages_obj_id),
            forall|j: int|
                0 <= j < k ==> (#[trigger] actions@[2 + j]) == DocAction::WriteFont(s.fonts@[j].0, s.fonts@[j].1),
        decreases s.fonts@.len() - k,
    {
        let (f, o) = s.fonts[k];
        actions.push(DocAction::WriteFont(f, o));
        k = k + 1;
    }
    (catalog, actions)
}

/// Finishes the document: the cross-reference table, which starts at the current end of the
/// output, and the trailer with the size (the object count less one), the catalog `catalog`,
/// the id, the producer and the creation date. The caller writes the bytes.
#[verifier::spinoff_prover]
pub fn finish_document(w: &mut DocWriter, s: &DocEnd, catalog: ObjectId) -> (r: Vec<u8>)
    requires
        entries_wf(old(w).entries()),
        old(w).next_id() >= 2,
        hex_encodable(vstd::utf8::encode_utf8(s.id@)),
    ensures
        r@ == xref_table(old(w).entries()) + spec_trailer(
            (old(w).next_id() - 2) as usize,
            catalog,
            vstd::utf8::encode_utf8(s.id@),
            s.producer@,
            vstd::utf8::encode_utf8(s.creation_date@),
            old(w).spec_len() as usize,
        ),
        final(w).entries() == Seq::<(usize, usize)>::empty(),
        final(w).spec_len() == old(w).spec_len(),
        final(w).next_id() == old(w).next_id(),
{
    let startxref = w.len();
    let mut out = w.write_xref();
    let size = w.object_count() - 1;
    let id = s.id.as_str();
    let producer = s.producer.as_str();
    assert(producer@ == s.producer@);
    let t = trailer_bytes(size, catalog, id, producer, s.creation_date.as_str(), startxref);
    write_bytes(&mut out, t.as_slice());
    out
}

} // verus!

verus! {

/// The entry of the font numbered `f`, the object `o`, in a page's font dictionary: the name
/// `/F` and the font's number, then the reference to the font object.
pub open spec fn font_entry(f: usize, o: ObjectId) -> Seq<u8> {
    lit(" /F") + decimal(f as nat) + lit(" ") + spec_ref(o)
}

/// `part` stands in `whole` from position `i` on.
pub open spec fn occurs_at(whole: Seq<u8>, part: Seq<u8>, i: int) -> bool {
    0 <= i && i + part.len() <= whole.len() && whole.subrange(i, i + part.len()) == part
}

proof fn lemma_entries_hold(fonts: Seq<(usize, ObjectId)>, k: int)
    requires
        0 <= k < fonts.len(),
    ensures
        exists|i: int| occurs_at(spec_font_entries(fonts), font_entry(fonts[k].0, fonts[k].1), i),
    decreases fonts.len(),
{
    let d = fonts.drop_last();
    let e = font_entry(fonts[k].0, fonts[k].1);
    let all = spec_font_entries(fonts);
    assert(all == spec_font_entries(d) + e || k < d.len()) by {
        if k == d.len() {
            assert(fonts[k] == fonts.last());
            assert(all =~= spec_font_entries(d) + e);
        }
    }
    if k == d.len() {
        let i = spec_font_entries(d).len() as int;
        assert(all.subrange(i, i + e.len()) =~= e);
        assert(occurs_at(all, e, i));
    } else {
        assert(d[k] == fonts[k]);
        lemma_entries_hold(d, k);
        let i = choose|i: int| occurs_at(spec_font_entries(d), e, i);
        let rest = lit(" /F") + decimal(fonts.last().0 as nat) + lit(" ") + spec_ref(fonts.last().1);
        assert(all =~= spec_font_entries(d) + rest);
        assert(all.subrange(i, i + e.len()) =~= spec_font_entries(d).subrange(i, i + e.len()));
        assert(occurs_at(all, e, i));
    }
}

/// A page names each of its fonts by the font's number: for every font `f` with the object
/// `o`, the page object holds the entry ` /F<f> <o> R` of its font dictionary, so that a
/// content stream selects the font as `/F<f>`.
pub proof fn law_page_names_fonts_by_number(
    id: ObjectId,
    parent: ObjectId,
    fonts: Seq<(usize, ObjectId)>,
    contents: Seq<ObjectId>,
    k: int,
)
    requires
        0 <= k < fonts.len(),
    ensures
        exists|i: int|
            occurs_at(
                spec_page_object(id, parent, fonts, contents),
                lit(" /F") + decimal(fonts[k].0 as nat) + lit(" ") + spec_ref(fonts[k].1),
                i,
            ),
{
    let e = font_entry(fonts[k].0, fonts[k].1);
    let ents = spec_font_entries(fonts);
    lemma_entries_hold(fonts, k);
    let j = choose|j: int| occurs_at(ents, e, j);
    let a = spec_obj_head(id) + lit("<<\n\t/Type /Page\n") + lit("\t/Parent ") + spec_ref(parent) + lit("\n") + lit(
        "\t/Resources <<\n\t\t/Type /Resources\n",
    );
    let open = lit("\t\t/Font <<");
    let close = lit(" >>\n");
    lemma_occurs_after(open, ents, e, j);
    lemma_occurs_before(open + ents, close, e, open.len() + j);
    let mid = open + ents + close;
    lemma_occurs_after(a, mid, e, open.len() + j);
    let i = a.len() + open.len() + j;
    let l1 = lit("\t>>\n");
    let l2 = lit("\t/Contents [");
    let l3 = spec_refs(contents);
    let l4 = lit("]\n");
    let l5 = lit(">>");
    let l6 = lit("\nendobj\n\n");
    lemma_occurs_before(a + mid, l1, e, i);
    lemma_occurs_before(a + mid + l1, l2, e, i);
    lemma_occurs_before(a + mid + l1 + l2, l3, e, i);
    lemma_occurs_before(a + mid + l1 + l2 + l3, l4, e, i);
    lemma_occurs_before(a + mid + l1 + l2 + l3 + l4, l5, e, i);
    lemma_occurs_before(a + mid + l1 + l2 + l3 + l4 + l5, l6, e, i);
    assert(spec_page_object(id, parent, fonts, contents) == a + mid + l1 + l2 + l3 + l4 + l5 + l6);
}

/// What stands in `x` stands in `x + y` at the same place.
proof fn lemma_occurs_before(x: Seq<u8>, y: Seq<u8>, part: Seq<u8>, i: int)
    requires
        occurs_at(x, part, i),
    ensures
        occurs_at(x + y, part, i),
{
    assert((x + y).subrange(i, i + part.len()) =~= x.subrange(i, i + part.len()));
}

/// What stands in `y` stands in `x + y` after `x`.
proof fn lemma_occurs_after(x: Seq<u8>, y: Seq<u8>, part: Seq<u8>, i: int)
    requires
        occurs_at(y, part, i),
    ensures
        occurs_at(x + y, part, x.len() + i),
{
    assert((x + y).subrange(x.len() + i, x.len() + i + part.len()) =~= y.subrange(i, i + part.len()));
}

} // verus!

verus! {

/// `a`, `b` and `c` stand together in `x + a + b + c` after `x`.
proof fn lemma_group(x: Seq<u8>, a: Seq<u8>, b: Seq<u8>, c: Seq<u8>)
    ensures
        occurs_at(x + a + b + c, a + b + c, x.len() as int),
{
    assert((x + a + b + c).subrange(x.len() as int, (x + a + b + c).len() as int) =~= a + b + c);
}

/// The trailer names its size: `/Size` and the number `size`, on a line of its own.
pub proof fn law_trailer_size(size: usize, root: ObjectId, id: Seq<u8>, producer: Seq<char>, creation_date: Seq<u8>, startxref: usize)
    ensures
        occurs_at(spec_trailer(size, root, id, producer, creation_date, startxref), lit("\t/Size ") + decimal(size as nat) + lit("\n"), (lit("trailer\n") + lit("<<\n")).len() as int),
{
    let c0 = lit("trailer\n");
    let c1 = c0 + lit("<<\n");
    let c2 = c1 + lit("\t/Size ");
    let c3 = c2 + decimal(size as nat);
    let c4 = c3 + lit("\n");
    let c5 = c4 + lit("\t/Root ");
    let c6 = c5 + spec_ref(root);
    let c7 = c6 + lit("\n");
    let c8 = c7 + lit("\t/ID [");
    let c9 = c8 + vstd::utf8::encode_utf8(spec_to_hex(id));
    let c10 = c9 + lit(" ");
    let c11 = c10 + vstd::utf8::encode_utf8(spec_to_hex(id));
    let c12 = c11 + lit("]\n");
    let c13 = c12 + lit("\t/Info <<\n");
    let c14 = c13 + lit("\t\t/Producer ");
    let c15 = c14 + vstd::utf8::encode_utf8(spec_to_literal(producer));
    let c16 = c15 + lit("\n");
    let c17 = c16 + lit("\t\t/CreationDate ");
    let c18 = c17 + creation_date;
    let c19 = c18 + lit("\n");
    let c20 = c19 + lit("\t>>\n");
    let c21 = c20 + lit(">>");
    let c22 = c21 + lit("\nstartxref\n");
    let c23 = c22 + decimal(startxref as nat);
    let c24 = c23 + lit("\n%%EOF");
    lemma_group(c1, lit("\t/Size "), decimal(size as nat), lit("\n"));
    lemma_occurs_before(c4, lit("\t/Root "), lit("\t/Size ") + decimal(size as nat) + lit("\n"), c1.len() as int);
    lemma_occurs_before(c5, spec_ref(root), lit("\t/Size ") + decimal(size as nat) + lit("\n"), c1.len() as int);
    lemma_occurs_before(c6, lit("\n"), lit("\t/Size ") + decimal(size as nat) + lit("\n"), c1.len() as int);
    lemma_occurs_before(c7, lit("\t/ID ["), lit("\t/Size ") + decimal(size as nat) + lit("\n"), c1.len() as int);
    lemma_occurs_before(c8, vstd::utf8::encode_utf8(spec_to_hex(id)), lit("\t/Size ") + decimal(size as nat) + lit("\n"), c1.len() as int);
    lemma_occurs_before(c9, lit(" "), lit("\t/Size ") + decimal(size as nat) + lit("\n"), c1.len() as int);
    lemma_occurs_before(c10, vstd::utf8::encode_utf8(spec_to_hex(id)), lit("\t/Size ") + decimal(size as nat) + lit("\n"), c1.len() as int);
    lemma_occurs_before(c11, lit("]\n"), lit("\t/Size ") + decimal(size as nat) + lit("\n"), c1.len() as int);
    lemma_occurs_before(c12, lit("\t/Info <<\n"), lit("\t/Size ") + decimal(size as nat) + lit("\n"), c1.len() as int);
    lemma_occurs_before(c13, lit("\t\t/Producer "), lit("\t/Size ") + decimal(size as nat) + lit("\n"), c1.len() as int);
    lemma_occurs_before(c14, vstd::utf8::encode_utf8(spec_to_literal(producer)), lit("\t/Size ") + decimal(size as nat) + lit("\n"), c1.len() as int);
    lemma_occurs_before(c15, lit("\n"), lit("\t/Size ") + decimal(size as nat) + lit("\n"), c1.len() as int);
    lemma_occurs_before(c16, lit("\t\t/CreationDate "), lit("\t/Size ") + decimal(size as nat) + lit("\n"), c1.len() as int);
    lemma_occurs_before(c17, creation_date, lit("\t/Size ") + decimal(size as nat) + lit("\n"), c1.len() as int);
    lemma_occurs_before(c18, lit("\n"), lit("\t/Size ") + decimal(size as nat) + lit("\n"), c1.len() as int);
    lemma_occurs_before(c19, lit("\t>>\n"), lit("\t/Size ") + decimal(size as nat) + lit("\n"), c1.len() as int);
    lemma_occurs_before(c20, lit(">>"), lit("\t/Size ") + decimal(size as nat) + lit("\n"), c1.len() as int);
    lemma_occurs_before(c21, lit("\nstartxref\n"), lit("\t/Size ") + decimal(size as nat) + lit("\n"), c1.len() as int);
    lemma_occurs_before(c22, decimal(startxref as nat), lit("\t/Size ") + decimal(size as nat) + lit("\n"), c1.len() as int);
    lemma_occurs_before(c23, lit("\n%%EOF"), lit("\t/Size ") + decimal(size as nat) + lit("\n"), c1.len() as int);
    assert(spec_trailer(size, root, id, producer, creation_date, startxref) == c24);
}

/// The trailer names its catalog: `/Root` and the reference to `root`, on a line of its own.
pub proof fn law_trailer_root(size: usize, root: ObjectId, id: Seq<u8>, producer: Seq<char>, creation_date: Seq<u8>, startxref: usize)
    ensures
        occurs_at(spec_trailer(size, root, id, producer, creation_date, startxref), lit("\t/Root ") + spec_ref(root) + lit("\n"), (lit("trailer\n") + lit("<<\n") + lit("\t/Size ") + decimal(size as nat) + lit("\n")).len() as int),
{
    let c0 = lit("trailer\n");
    let c1 = c0 + lit("<<\n");
    let c2 = c1 + lit("\t/Size ");
    let c3 = c2 + decimal(size as nat);
    let c4 = c3 + lit("\n");
    let c5 = c4 + lit("\t/Root ");
    let c6 = c5 + spec_ref(root);
    let c7 = c6 + lit("\n");
    let c8 = c7 + lit("\t/ID [");
    let c9 = c8 + vstd::utf8::encode_utf8(spec_to_hex(id));
    let c10 = c9 + lit(" ");
    let c11 = c10 + vstd::utf8::encode_utf8(spec_to_hex(id));
    let c12 = c11 + lit("]\n");
    let c13 = c12 + lit("\t/Info <<\n");
    let c14 = c13 + lit("\t\t/Producer ");
    let c15 = c14 + vstd::utf8::encode_utf8(spec_to_literal(producer));
    let c16 = c15 + lit("\n");
    let c17 = c16 + lit("\t\t/CreationDate ");
    let c18 = c17 + creation_date;
    let c19 = c18 + lit("\n");
    let c20 = c19 + lit("\t>>\n");
    let c21 = c20 + lit(">>");
    let c22 = c21 + lit("\nstartxref\n");
    let c23 = c22 + decimal(startxref as nat);
    let c24 = c23 + lit("\n%%EOF");
    lemma_group(c4, lit("\t/Root "), spec_ref(root), lit("\n"));
    lemma_occurs_before(c7, lit("\t/ID ["), lit("\t/Root ") + spec_ref(root) + lit("\n"), c4.len() as int);
    lemma_occurs_before(c8, vstd::utf8::encode_utf8(spec_to_hex(id)), lit("\t/Root ") + spec_ref(root) + lit("\n"), c4.len() as int);
    lemma_occurs_before(c9, lit(" "), lit("\t/Root ") + spec_ref(root) + lit("\n"), c4.len() as int);
    lemma_occurs_before(c10, vstd::utf8::encode_utf8(spec_to_hex(id)), lit("\t/Root ") + spec_ref(root) + lit("\n"), c4.len() as int);
    lemma_occurs_before(c11, lit("]\n"), lit("\t/Root ") + spec_ref(root) + lit("\n"), c4.len() as int);
    lemma_occurs_before(c12, lit("\t/Info <<\n"), lit("\t/Root ") + spec_ref(root) + lit("\n"), c4.len() as int);
    lemma_occurs_before(c13, lit("\t\t/Producer "), lit("\t/Root ") + spec_ref(root) + lit("\n"), c4.len() as int);
    lemma_occurs_before(c14, vstd::utf8::encode_utf8(spec_to_literal(producer)), lit("\t/Root ") + spec_ref(root) + lit("\n"), c4.len() as int);
    lemma_occurs_before(c15, lit("\n"), lit("\t/Root ") + spec_ref(root) + lit("\n"), c4.len() as int);
    lemma_occurs_before(c16, lit("\t\t/CreationDate "), lit("\t/Root ") + spec_ref(root) + lit("\n"), c4.len() as int);
    lemma_occurs_before(c17, creation_date, lit("\t/Root ") + spec_ref(root) + lit("\n"), c4.len() as int);
    lemma_occurs_before(c18, lit("\n"), lit("\t/Root ") + spec_ref(root) + lit("\n"), c4.len() as int);
    lemma_occurs_before(c19, lit("\t>>\n"), lit("\t/Root ") + spec_ref(root) + lit("\n"), c4.len() as int);
    lemma_occurs_before(c20, lit(">>"), lit("\t/Root ") + spec_ref(root) + lit("\n"), c4.len() as int);
    lemma_occurs_before(c21, lit("\nstartxref\n"), lit("\t/Root ") + spec_ref(root) + lit("\n"), c4.len() as int);
    lemma_occurs_before(c22, decimal(startxref as nat), lit("\t/Root ") + spec_ref(root) + lit("\n"), c4.len() as int);
    lemma_occurs_before(c23, lit("\n%%EOF"), lit("\t/Root ") + spec_ref(root) + lit("\n"), c4.len() as int);
    assert(spec_trailer(size, root, id, producer, creation_date, startxref) == c24);
}

/// The trailer's information names the producer as a literal string.
pub proof fn law_trailer_producer(size: usize, root: ObjectId, id: Seq<u8>, producer: Seq<char>, creation_date: Seq<u8>, startxref: usize)
    ensures
        occurs_at(spec_trailer(size, root, id, producer, creation_date, startxref), lit("\t\t/Producer ") + vstd::utf8::encode_utf8(spec_to_literal(producer)) + lit("\n"), (lit("trailer\n") + lit("<<\n") + lit("\t/Size ") + decimal(size as nat) + lit("\n") + lit("\t/Root ") + spec_ref(root) + lit("\n") + lit("\t/ID [") + vstd::utf8::encode_utf8(spec_to_hex(id)) + lit(" ") + vstd::utf8::encode_utf8(spec_to_hex(id)) + lit("]\n") + lit("\t/Info <<\n")).len() as int),
{
    let c0 = lit("trailer\n");
    let c1 = c0 + lit("<<\n");
    let c2 = c1 + lit("\t/Size ");
    let c3 = c2 + decimal(size as nat);
    let c4 = c3 + lit("\n");
    let c5 = c4 + lit("\t/Root ");
    let c6 = c5 + spec_ref(root);
    let c7 = c6 + lit("\n");
    let c8 = c7 + lit("\t/ID [");
    let c9 = c8 + vstd::utf8::encode_utf8(spec_to_hex(id));
    let c10 = c9 + lit(" ");
    let c11 = c10 + vstd::utf8::encode_utf8(spec_to_hex(id));
    let c12 = c11 + lit("]\n");
    let c13 = c12 + lit("\t/Info <<\n");
    let c14 = c13 + lit("\t\t/Producer ");
    let c15 = c14 + vstd::utf8::encode_utf8(spec_to_literal(producer));
    let c16 = c15 + lit("\n");
    let c17 = c16 + lit("\t\t/CreationDate ");
    let c18 = c17 + creation_date;
    let c19 = c18 + lit("\n");
    let c20 = c19 + lit("\t>>\n");
    let c21 = c20 + lit(">>");
    let c22 = c21 + lit("\nstartxref\n");
    let c23 = c22 + decimal(startxref as nat);
    let c24 = c23 + lit("\n%%EOF");
    lemma_group(c13, lit("\t\t/Producer "), vstd::utf8::encode_utf8(spec_to_literal(producer)), lit("\n"));
    lemma_occurs_before(c16, lit("\t\t/CreationDate "), lit("\t\t/Producer ") + vstd::utf8::encode_utf8(spec_to_literal(producer)) + lit("\n"), c13.len() as int);
    lemma_occurs_before(c17, creation_date, lit("\t\t/Producer ") + vstd::utf8::encode_utf8(spec_to_literal(producer)) + lit("\n"), c13.len() as int);
    lemma_occurs_before(c18, lit("\n"), lit("\t\t/Producer ") + vstd::utf8::encode_utf8(spec_to_literal(producer)) + lit("\n"), c13.len() as int);
    lemma_occurs_before(c19, lit("\t>>\n"), lit("\t\t/Producer ") + vstd::utf8::encode_utf8(spec_to_literal(producer)) + lit("\n"), c13.len() as int);
    lemma_occurs_before(c20, lit(">>"), lit("\t\t/Producer ") + vstd::utf8::encode_utf8(spec_to_literal(producer)) + lit("\n"), c13.len() as int);
    lemma_occurs_before(c21, lit("\nstartxref\n"), lit("\t\t/Producer ") + vstd::utf8::encode_utf8(spec_to_literal(producer)) + lit("\n"), c13.len() as int);
    lemma_occurs_before(c22, decimal(startxref as nat), lit("\t\t/Producer ") + vstd::utf8::encode_utf8(spec_to_literal(producer)) + lit("\n"), c13.len() as int);
    lemma_occurs_before(c23, lit("\n%%EOF"), lit("\t\t/Producer ") + vstd::utf8::encode_utf8(spec_to_literal(producer)) + lit("\n"), c13.len() as int);
    assert(spec_trailer(size, root, id, producer, creation_date, startxref) == c24);
}

/// The trailer ends with `startxref`, the position `startxref` of the cross-reference table, and
/// the end of file marker.
pub proof fn law_trailer_startxref(size: usize, root: ObjectId, id: Seq<u8>, producer: Seq<char>, creation_date: Seq<u8>, startxref: usize)
    ensures
        occurs_at(spec_trailer(size, root, id, producer, creation_date, startxref), lit("\nstartxref\n") + decimal(startxref as nat) + lit("\n%%EOF"), (lit("trailer\n") + lit("<<\n") + lit("\t/Size ") + decimal(size as nat) + lit("\n") + lit("\t/Root ") + spec_ref(root) + lit("\n") + lit("\t/ID [") + vstd::utf8::encode_utf8(spec_to_hex(id)) + lit(" ") + vstd::utf8::encode_utf8(spec_to_hex(id)) + lit("]\n") + lit("\t/Info <<\n") + lit("\t\t/Producer ") + vstd::utf8::encode_utf8(spec_to_literal(producer)) + lit("\n") + lit("\t\t/CreationDate ") + creation_date + lit("\n") + lit("\t>>\n") + lit(">>")).len() as int),
{
    let c0 = lit("trailer\n");
    let c1 = c0 + lit("<<\n");
    let c2 = c1 + lit("\t/Size ");
    let c3 = c2 + decimal(size as nat);
    let c4 = c3 + lit("\n");
    let c5 = c4 + lit("\t/Root ");
    let c6 = c5 + spec_ref(root);
    let c7 = c6 + lit("\n");
    let c8 = c7 + lit("\t/ID [");
    let c9 = c8 + vstd::utf8::encode_utf8(spec_to_hex(id));
    let c10 = c9 + lit(" ");
    let c11 = c10 + vstd::utf8::encode_utf8(spec_to_hex(id));
    let c12 = c11 + lit("]\n");
    let c13 = c12 + lit("\t/Info <<\n");
    let c14 = c13 + lit("\t\t/Producer ");
    let c15 = c14 + vstd::utf8::encode_utf8(spec_to_literal(producer));
    let c16 = c15 + lit("\n");
    let c17 = c16 + lit("\t\t/CreationDate ");
    let c18 = c17 + creation_date;
    let c19 = c18 + lit("\n");
    let c20 = c19 + lit("\t>>\n");
    let c21 = c20 + lit(">>");
    let c22 = c21 + lit("\nstartxref\n");
    let c23 = c22 + decimal(startxref as nat);
    let c24 = c23 + lit("\n%%EOF");
    lemma_group(c21, lit("\nstartxref\n"), decimal(startxref as nat), lit("\n%%EOF"));
    assert(spec_trailer(size, root, id, producer, creation_date, startxref) == c24);
}

/// The page tree lists its kids: `/Kids` and the references to `kids` in brackets.
pub proof fn law_pages_kids(id: ObjectId, kids: Seq<ObjectId>)
    ensures
        occurs_at(spec_pages_object(id, kids), lit("\t/Kids [") + spec_refs(kids) + lit("]\n"), (spec_obj_head(id) + lit("<<\n\t/Type /Pages\n") + lit("\t/MediaBox [0 0 595.296 841.896]\n")).len() as int),
{
    let c0 = spec_obj_head(id);
    let c1 = c0 + lit("<<\n\t/Type /Pages\n");
    let c2 = c1 + lit("\t/MediaBox [0 0 595.296 841.896]\n");
    let c3 = c2 + lit("\t/Kids [");
    let c4 = c3 + spec_refs(kids);
    let c5 = c4 + lit("]\n");
    let c6 = c5 + lit("\t/Count ");
    let c7 = c6 + decimal(kids.len());
    let c8 = c7 + lit("\n");
    let c9 = c8 + lit(">>");
    let c10 = c9 + lit("\nendobj\n\n");
    lemma_group(c2, lit("\t/Kids ["), spec_refs(kids), lit("]\n"));
    lemma_occurs_before(c5, lit("\t/Count "), lit("\t/Kids [") + spec_refs(kids) + lit("]\n"), c2.len() as int);
    lemma_occurs_before(c6, decimal(kids.len()), lit("\t/Kids [") + spec_refs(kids) + lit("]\n"), c2.len() as int);
    lemma_occurs_before(c7, lit("\n"), lit("\t/Kids [") + spec_refs(kids) + lit("]\n"), c2.len() as int);
    lemma_occurs_before(c8, lit(">>"), lit("\t/Kids [") + spec_refs(kids) + lit("]\n"), c2.len() as int);
    lemma_occurs_before(c9, lit("\nendobj\n\n"), lit("\t/Kids [") + spec_refs(kids) + lit("]\n"), c2.len() as int);
    assert(spec_pages_object(id, kids) == c10);
}

/// The page tree counts its kids: `/Count` and the number of `kids`, on a line of its own.
pub proof fn law_pages_count(id: ObjectId, kids: Seq<ObjectId>)
    ensures
        occurs_at(spec_pages_object(id, kids), lit("\t/Count ") + decimal(kids.len()) + lit("\n"), (spec_obj_head(id) + lit("<<\n\t/Type /Pages\n") + lit("\t/MediaBox [0 0 595.296 841.896]\n") + lit("\t/Kids [") + spec_refs(kids) + lit("]\n")).len() as int),
{
    let c0 = spec_obj_head(id);
    let c1 = c0 + lit("<<\n\t/Type /Pages\n");
    let c2 = c1 + lit("\t/MediaBox [0 0 595.296 841.896]\n");
    let c3 = c2 + lit("\t/Kids [");
    let c4 = c3 + spec_refs(kids);
    let c5 = c4 + lit("]\n");
    let c6 = c5 + lit("\t/Count ");
    let c7 = c6 + decimal(kids.len());
    let c8 = c7 + lit("\n");
    let c9 = c8 + lit(">>");
    let c10 = c9 + lit("\nendobj\n\n");
    lemma_group(c5, lit("\t/Count "), decimal(kids.len()), lit("\n"));
    lemma_occurs_before(c8, lit(">>"), lit("\t/Count ") + decimal(kids.len()) + lit("\n"), c5.len() as int);
    lemma_occurs_before(c9, lit("\nendobj\n\n"), lit("\t/Count ") + decimal(kids.len()) + lit("\n"), c5.len() as int);
    assert(spec_pages_object(id, kids) == c10);
}

/// The catalog names the page tree: `/Pages` and the reference to `pages`.
pub proof fn law_catalog_pages(id: ObjectId, pages: ObjectId)
    ensures
        occurs_at(spec_catalog_object(id, pages), lit("\t/Pages ") + spec_ref(pages) + lit("\n"), (spec_obj_head(id) + lit("<<\n\t/Type /Catalog\n")).len() as int),
{
    let c0 = spec_obj_head(id);
    let c1 = c0 + lit("<<\n\t/Type /Catalog\n");
    let c2 = c1 + lit("\t/Pages ");
    let c3 = c2 + spec_ref(pages);
    let c4 = c3 + lit("\n");
    let c5 = c4 + lit(">>");
    let c6 = c5 + lit("\nendobj\n\n");
    lemma_group(c1, lit("\t/Pages "), spec_ref(pages), lit("\n"));
    lemma_occurs_before(c4, lit(">>"), lit("\t/Pages ") + spec_ref(pages) + lit("\n"), c1.len() as int);
    lemma_occurs_before(c5, lit("\nendobj\n\n"), lit("\t/Pages ") + spec_ref(pages) + lit("\n"), c1.len() as int);
    assert(spec_catalog_object(id, pages) == c6);
}

} // verus!

verus! {

/// A reference to an object names the numbers that open the object: the object's number and
/// generation, in decimal, separated by a space, then ` R` where the object has ` obj` and a
/// line break.
pub proof fn law_reference_matches_object(id: ObjectId)
    ensures
        ({
            let nums = decimal(id.spec_id() as nat) + lit(" ") + decimal(id.spec_rev() as nat);
            &&& spec_ref(id) == nums + lit(" R")
            &&& spec_obj_head(id) == nums + lit(" obj\n")
            &&& crate::serde_pdf::de::digits_value(0, decimal(id.spec_id() as nat)) == id.spec_id()
            &&& crate::serde_pdf::de::digits_value(0, decimal(id.spec_rev() as nat)) == id.spec_rev()
        }),
{
    crate::serde_pdf::de::law_zero_padded_value(id.spec_id() as nat, 0);
    crate::serde_pdf::de::law_zero_padded_value(id.spec_rev() as nat, 0);
}

} // verus!
