use pdfrs::fonts::font::SubsetRef;
use pdfrs::fonts::otf::{tag, UnicodeSubset};
use pdfrs::idseq::IdSeq;

#[test]
fn test_subsets() {
    let mut subset = UnicodeSubset::new();
    assert_eq!(subset.map_char(' '), Some(33));
    assert_eq!(subset.map_char('a'), Some(34));
    assert_eq!(subset.map_char('\u{94}'), Some(35));
    assert_eq!(subset.map_char('░'), Some(36));
}

#[test]
fn subset_maps_known_chars_again_and_fills_up() {
    let mut subset = UnicodeSubset::new();
    assert_eq!(subset.map_char('x'), Some(33));
    assert_eq!(subset.map_char('y'), Some(34));
    assert_eq!(subset.map_char('x'), Some(33));
    assert_eq!(subset.first_char(), 33);
    assert_eq!(subset.last_char(), 35);
    assert_eq!(subset.chars(), vec![Some((33, 'x')), Some((34, 'y'))]);

    let mut full = UnicodeSubset::new();
    for k in 0..223u32 {
        assert_eq!(full.map_char(char::from_u32(0x100 + k).unwrap()), Some(33 + k as u8));
    }
    assert_eq!(full.map_char('z'), None);
    assert_eq!(full.map_char(char::from_u32(0x100).unwrap()), Some(33));
}

#[test]
fn test_tag() {
    assert_eq!(tag(0), "AAAAAA");
    assert_eq!(tag(123456), "BCDEFG");
}

#[test]
fn tag_of_large_numbers_keeps_all_digits() {
    assert_eq!(tag(9), "AAAAAJ");
    assert_eq!(tag(1234567), "BCDEFGH");
}

#[test]
fn subset_ref_font_id() {
    assert_eq!(SubsetRef(3).font_id(), 3);
}

#[test]
fn id_seq_hands_out_ids_in_order() {
    let mut ids = IdSeq::new(1);
    assert_eq!(ids.next(), 1);
    assert_eq!(ids.next(), 2);
    assert_eq!(ids.count(), 2);
    let mut ids = IdSeq::new(5);
    assert_eq!(ids.count(), 4);
    assert_eq!(ids.next(), 5);
    assert_eq!(ids.count(), 5);
}
