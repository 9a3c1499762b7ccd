use pdfrs::idseq::IdSeq;
use pdfrs::writer::{xref_bytes, DocWriter};

#[test]
fn xref_table_consecutive_objects() {
    let entries = vec![(1usize, 3usize), (2, 17), (3, 81), (4, 0), (5, 331), (6, 409)];
    let table = String::from_utf8(xref_bytes(&entries)).unwrap();
    assert_eq!(
        table,
        "xref\n0 7\n0000000000 65535 f\n0000000003 00000 n\n0000000017 00000 n\n\
         0000000081 00000 n\n0000000000 00000 n\n0000000331 00000 n\n0000000409 00000 n\n"
    );
}

#[test]
fn xref_table_with_gaps() {
    let entries = vec![(3usize, 25325usize), (23, 25518), (24, 25635), (30, 25777)];
    let table = String::from_utf8(xref_bytes(&entries)).unwrap();
    assert_eq!(
        table,
        "xref\n0 1\n0000000000 65535 f\n3 1\n0000025325 00000 n\n23 2\n0000025518 00000 n\n\
         0000025635 00000 n\n30 1\n0000025777 00000 n\n"
    );
}

#[test]
fn xref_table_empty() {
    let table = String::from_utf8(xref_bytes(&Vec::new())).unwrap();
    assert_eq!(table, "xref\n0 1\n0000000000 65535 f\n");
}

#[test]
fn doc_writer_keeps_track() {
    let mut w = DocWriter::new(IdSeq::new(1));
    let id = w.reserve_object_id();
    assert_eq!((id.id(), id.rev()), (1, 0));
    w.record_written(10);
    w.add_xref(id.id());
    w.record_written(5);
    let second = w.reserve_object_id();
    w.add_xref(second.id());
    // writing the first object again moves its entry
    w.record_written(2);
    w.add_xref(id.id());
    assert_eq!(w.len(), 17);
    assert_eq!(w.object_count(), 2);
    let table = String::from_utf8(w.write_xref()).unwrap();
    assert_eq!(table, "xref\n0 3\n0000000000 65535 f\n0000000017 00000 n\n0000000015 00000 n\n");
    assert_eq!(String::from_utf8(w.write_xref()).unwrap(), "xref\n0 1\n0000000000 65535 f\n");
}
