//! The objects and the trailer that end a document.
use pdfrs::document::{catalog_object, header, is_hex_encodable, pages_object, trailer_bytes};
use pdfrs::serde_pdf::ObjectId;

#[test]
fn document_header_is_pdf_1_6_with_binary_marker() {
    let mut expected = b"%PDF-1.6\n%".to_vec();
    expected.extend_from_slice(&[255, 255, 255, 255, b'\n', b'\n']);
    assert_eq!(header(), expected);
}

#[test]
fn pages_object_lists_its_kids_and_count() {
    let kids = vec![ObjectId::new(3, 0), ObjectId::new(5, 0)];
    let bytes = pages_object(ObjectId::new(2, 0), &kids);
    assert_eq!(
        String::from_utf8(bytes).unwrap(),
        "2 0 obj\n<<\n\t/Type /Pages\n\t/MediaBox [0 0 595.296 841.896]\n\t/Kids [3 0 R 5 0 R]\n\t/Count 2\n>>\nendobj\n\n"
    );
}

#[test]
fn catalog_object_refers_to_the_page_tree() {
    let bytes = catalog_object(ObjectId::new(7, 0), ObjectId::new(2, 0));
    assert_eq!(String::from_utf8(bytes).unwrap(), "7 0 obj\n<<\n\t/Type /Catalog\n\t/Pages 2 0 R\n>>\nendobj\n\n");
}

#[test]
fn trailer_names_size_root_id_info_and_startxref() {
    assert!(is_hex_encodable("ab"));
    let bytes = trailer_bytes(8, ObjectId::new(7, 0), "ab", "pdfrs", "D:20200101000000Z", 1234);
    assert_eq!(
        String::from_utf8(bytes).unwrap(),
        "trailer\n<<\n\t/Size 8\n\t/Root 7 0 R\n\t/ID [<4243> <4243>]\n\t/Info <<\n\t\t/Producer (pdfrs)\n\t\t/CreationDate D:20200101000000Z\n\t>>\n>>\nstartxref\n1234\n%%EOF"
    );
}
