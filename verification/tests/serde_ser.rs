use chrono::{FixedOffset, TimeZone};
use pdfrs::serde_pdf::datetime::pdf_date;
use pdfrs::serde_pdf::ser::{Serializer, NAME_OBJECT, NAME_REFERENCE, NAME_STREAM};
use pdfrs::serde_pdf::{Error, Object, ObjectId, PdfStr, PdfString, Stream};

fn name(s: &str) -> String {
    let mut ser = Serializer::new();
    ser.serialize_name(s).unwrap();
    ser.into_string()
}

#[test]
fn test_bool() {
    let mut ser = Serializer::new();
    ser.serialize_bool(true);
    assert_eq!(ser.into_string(), "true");
    let mut ser = Serializer::new();
    ser.serialize_bool(false);
    assert_eq!(ser.into_string(), "false");
}

#[test]
fn ser_test_null() {
    let mut ser = Serializer::new();
    ser.serialize_unit();
    assert_eq!(ser.into_string(), "null");
}

#[test]
fn ser_test_option() {
    let mut ser = Serializer::new();
    ser.serialize_u64(42);
    assert_eq!(ser.into_string(), "42");
}

#[test]
fn test_numbers() {
    for v in [42i64, 0, -7, i64::MIN, i64::MAX] {
        let mut ser = Serializer::new();
        ser.serialize_i64(v);
        assert_eq!(ser.into_string(), v.to_string());
    }
    for v in [42u64, 0, u64::MAX] {
        let mut ser = Serializer::new();
        ser.serialize_u64(v);
        assert_eq!(ser.into_string(), v.to_string());
    }
}

#[test]
fn ser_test_string() {
    let s = String::from(r#"0ab(\fo)?!€"#);
    let mut ser = Serializer::new();
    ser.serialize_str(&s).unwrap();
    assert_eq!(ser.into_string(), r#"/0ab#28\fo#29?!#e2#82#ac"#);
}

#[test]
fn ser_test_seq() {
    let mut ser = Serializer::new();
    let mut c = ser.serialize_seq();
    for v in [1u64, 2, 3, 4] {
        c.serialize_element(&mut ser);
        ser.serialize_u64(v);
    }
    c.end_seq(&mut ser);
    assert_eq!(ser.into_string(), "[1 2 3 4]");

    let mut ser = Serializer::new();
    let mut c = ser.serialize_seq();
    for v in ["a", "b"] {
        c.serialize_element(&mut ser);
        ser.serialize_str(v).unwrap();
    }
    c.end_seq(&mut ser);
    assert_eq!(ser.into_string(), "[/a /b]");
}

#[test]
fn ser_test_char() {
    let mut ser = Serializer::new();
    ser.serialize_char('a');
    assert_eq!(ser.into_string(), "(a)");
    let mut ser = Serializer::new();
    ser.serialize_char('€');
    assert_eq!(ser.into_string(), "(€)");
}

#[test]
fn test_tuple() {
    let mut ser = Serializer::new();
    let mut c = ser.serialize_seq();
    for v in [3u64, 2, 1] {
        c.serialize_element(&mut ser);
        ser.serialize_u64(v);
    }
    c.end_seq(&mut ser);
    assert_eq!(ser.into_string(), "[3 2 1]");
}

#[test]
fn ser_test_name() {
    assert_eq!(&name("Name1"), "/Name1");
    assert_eq!(&name("A;Name_With-Various***Characters?"), "/A;Name_With-Various***Characters?");
    assert_eq!(&name("1.2"), "/1.2");
    assert_eq!(&name("$$"), "/$$");
    assert_eq!(&name("@pattern"), "/@pattern");
    assert_eq!(&name(".notdef"), "/.notdef");

    assert_eq!(&name("Adobe Green"), "/Adobe#20Green");
    assert_eq!(&name("PANTONE 5757 CV"), "/PANTONE#205757#20CV");
    assert_eq!(&name("paired()parentheses"), "/paired#28#29parentheses");
    assert_eq!(&name("The_Key_of_F#_Minor"), "/The_Key_of_F#23_Minor");
}

#[test]
fn name_with_control_bytes() {
    assert_eq!(&name("a\tb"), "/a#9b");
    let mut ser = Serializer::new();
    assert_eq!(ser.serialize_name("ab\0cd"), Err(Error::Eof));
    assert_eq!(ser.into_string(), "/");
}

#[test]
fn ser_test_struct() {
    let mut ser = Serializer::new();
    let mut c = ser.serialize_struct("Test").unwrap();
    c.begin_struct_field(&mut ser, "int").unwrap();
    ser.serialize_u64(1);
    c.end_struct_field(&mut ser);
    c.begin_struct_field(&mut ser, "seq").unwrap();
    let mut s = ser.serialize_seq();
    for v in ["a", "b"] {
        s.serialize_element(&mut ser);
        ser.serialize_str(v).unwrap();
    }
    s.end_seq(&mut ser);
    c.end_struct_field(&mut ser);
    c.end_struct(&mut ser);
    assert_eq!(ser.into_string(), "<<\n\t/Type /Test\n\t/int 1\n\t/seq [/a /b]\n>>");
}

#[test]
fn test_struct_nested() {
    let mut ser = Serializer::new();
    let mut c = ser.serialize_struct("Test").unwrap();
    c.begin_struct_field(&mut ser, "int").unwrap();
    ser.serialize_u64(1);
    c.end_struct_field(&mut ser);
    c.begin_struct_field(&mut ser, "inner").unwrap();
    let mut inner = ser.serialize_struct("Inner").unwrap();
    inner.begin_struct_field(&mut ser, "int").unwrap();
    ser.serialize_u64(2);
    inner.end_struct_field(&mut ser);
    inner.end_struct(&mut ser);
    c.end_struct_field(&mut ser);
    c.end_struct(&mut ser);
    assert_eq!(
        ser.into_string(),
        "<<\n\t/Type /Test\n\t/int 1\n\t/inner <<\n\t\t/Type /Inner\n\t\t/int 2\n\t>>\n>>"
    );
}

#[test]
fn struct_without_name() {
    let mut ser = Serializer::new();
    let mut c = ser.serialize_struct("").unwrap();
    c.begin_struct_field(&mut ser, "Size").unwrap();
    ser.serialize_u64(3);
    c.end_struct_field(&mut ser);
    c.end_struct(&mut ser);
    assert_eq!(ser.into_string(), "<<\n\t/Size 3\n>>");
}

#[test]
fn ser_test_map() {
    let mut ser = Serializer::new();
    let mut c = ser.serialize_map();
    c.map_separator(&mut ser);
    ser.serialize_name("foo").unwrap();
    c.map_separator(&mut ser);
    ser.serialize_str("bar").unwrap();
    c.end_map(&mut ser);
    assert_eq!(ser.into_string(), "<< /foo /bar >>");
}

#[test]
fn ser_test_enum() {
    let mut ser = Serializer::new();
    ser.serialize_name("Unit").unwrap();
    assert_eq!(ser.into_string(), "/Unit");

    let mut ser = Serializer::new();
    ser.begin_newtype_variant("Newtype").unwrap();
    ser.serialize_u64(1);
    ser.end_newtype_variant();
    assert_eq!(ser.into_string(), "<< /Newtype 1 >>");

    let mut ser = Serializer::new();
    let mut c = ser.serialize_tuple_variant("Tuple").unwrap();
    for v in [1u64, 2] {
        c.serialize_element(&mut ser);
        ser.serialize_u64(v);
    }
    c.end_tuple_variant(&mut ser);
    assert_eq!(ser.into_string(), "<< /Tuple [1 2] >>");

    let mut ser = Serializer::new();
    let mut c = ser.serialize_struct_variant("Struct").unwrap();
    c.begin_struct_variant_field(&mut ser, "a").unwrap();
    ser.serialize_u64(1);
    c.end_struct_variant(&mut ser);
    assert_eq!(ser.into_string(), "<< /Struct << /a 1 >> >>");
}

#[test]
fn ser_test_bytes() {
    let mut ser = Serializer::new();
    ser.serialize_bytes("foobar".as_bytes());
    assert_eq!(ser.into_string(), "stream\nfoobar\nendstream");
}

#[test]
fn tuple_struct_framings() {
    let mut ser = Serializer::new();
    let mut t = ser.serialize_tuple_struct(NAME_REFERENCE);
    t.serialize_field(&mut ser);
    ser.serialize_u64(3);
    t.serialize_field(&mut ser);
    ser.serialize_u64(1);
    t.end(&mut ser);
    assert_eq!(ser.into_string(), "3 1 R");

    let mut ser = Serializer::new();
    let mut t = ser.serialize_tuple_struct(NAME_STREAM);
    t.serialize_field(&mut ser);
    ser.serialize_unit();
    t.serialize_field(&mut ser);
    ser.serialize_bytes(b"ab");
    t.end(&mut ser);
    assert_eq!(ser.into_string(), "null\nstream\nab\nendstream\n");

    let mut ser = Serializer::new();
    let mut t = ser.serialize_tuple_struct(NAME_OBJECT);
    for _ in 0..2 {
        t.serialize_field(&mut ser);
        ser.serialize_u64(7);
    }
    t.serialize_field(&mut ser);
    ser.serialize_unit();
    t.end(&mut ser);
    assert_eq!(ser.into_string(), "7 7 obj\nnull\nendobj\n\n");

    let mut ser = Serializer::new();
    let mut t = ser.serialize_tuple_struct("Pair");
    t.serialize_field(&mut ser);
    ser.serialize_u64(1);
    t.serialize_field(&mut ser);
    ser.serialize_u64(2);
    t.end(&mut ser);
    assert_eq!(ser.into_string(), "[1 2]");
}

#[test]
fn serialize_object() {
    let obj: Object<()> = Object { id: ObjectId::new(3, 1), ..Object::default_object() };
    let mut ser = Serializer::new();
    let t = obj.begin(&mut ser);
    ser.serialize_unit();
    t.end(&mut ser);
    assert_eq!(ser.into_string(), "3 1 obj\nnull\nendobj\n\n");
}

#[test]
fn serialize_reference() {
    let obj: Object<()> = Object { id: ObjectId::new(3, 1), ..Object::default_object() };
    let reference = obj.to_reference();
    let mut ser = Serializer::new();
    reference.serialize(&mut ser);
    assert_eq!(ser.into_string(), "3 1 R");
}

#[test]
fn object_accessors() {
    let mut obj = Object::new(5, 2, 10u32);
    assert_eq!((obj.id(), obj.rev()), (5, 2));
    *obj.content_mut() = 11;
    assert_eq!(obj.content, 11);
    let id = ObjectId::new(9, 0);
    assert_eq!((id.id(), id.rev()), (9, 0));
}

#[test]
fn test_serialize_hex_string() {
    let s = PdfString::Hex(String::from("foobar"));
    let mut ser = Serializer::new();
    s.serialize(&mut ser);
    assert_eq!(ser.into_string(), "<475050434253>");
}

#[test]
fn test_serialize_hex_str() {
    let s = PdfStr::Hex("foobar");
    let mut ser = Serializer::new();
    s.serialize(&mut ser);
    assert_eq!(ser.into_string(), "<475050434253>");
}

#[test]
fn test_serialize_literal_string() {
    let s = PdfString::Literal(String::from(r#"0ab(\fo)?!€"#));
    let mut ser = Serializer::new();
    s.serialize(&mut ser);
    assert_eq!(ser.into_string(), r#"(0ab\(\\fo\)?!\200)"#);
}

#[test]
fn test_serialize_literal_str() {
    let s = PdfStr::Literal(r#"0ab(\fo)?!€"#);
    let mut ser = Serializer::new();
    s.serialize(&mut ser);
    assert_eq!(ser.into_string(), r#"(0ab\(\\fo\)?!\200)"#);
}

#[test]
fn literal_keeps_other_characters() {
    assert_eq!(PdfStr::Literal("é—").to_pdf(), "(é\\227)");
    assert_eq!(PdfStr::Hex("").to_pdf(), "<>");
}

fn foo_bar_dict(ser: &mut Serializer) {
    let mut c = ser.serialize_map();
    c.map_separator(ser);
    ser.serialize_name("foo").unwrap();
    c.map_separator(ser);
    ser.serialize_str("bar").unwrap();
    c.end_map(ser);
}

#[test]
fn test_serialize() {
    let obj = Stream { dict: (), data: vec![b'a', b'b'] };
    let mut ser = Serializer::new();
    let t = obj.begin(&mut ser);
    foo_bar_dict(&mut ser);
    obj.end(t, &mut ser);
    assert_eq!(ser.into_string(), "<< /foo /bar >>\nstream\nab\nendstream\n");
}

#[test]
fn test_serialize_dict_only() {
    let obj = Stream { dict: (), data: vec![] };
    let mut ser = Serializer::new();
    let t = obj.begin(&mut ser);
    foo_bar_dict(&mut ser);
    obj.end(t, &mut ser);
    assert_eq!(ser.into_string(), "<< /foo /bar >>\n");
}

#[test]
fn stream_write_appends_data() {
    let mut s = Stream::new(7u32);
    assert_eq!(s.write(b"ab"), 2);
    assert_eq!(s.write(b""), 0);
    assert_eq!(s.write(b"c"), 1);
    assert_eq!(s.data, b"abc".to_vec());
    assert_eq!(s.dict, 7);
}

#[test]
fn test_newtype_struct() {
    // a newtype struct that is not the raw one writes its value
    let mut ser = Serializer::new();
    ser.serialize_i64(1);
    assert_eq!(ser.into_string(), "1");
}

#[test]
fn test_tuple_struct() {
    let mut ser = Serializer::new();
    let mut t = ser.serialize_tuple_struct("Test");
    t.serialize_field(&mut ser);
    ser.serialize_i64(1);
    t.serialize_field(&mut ser);
    ser.serialize_i64(2);
    t.end(&mut ser);
    assert_eq!(ser.into_string(), "[1 2]");
}

#[allow(deprecated)]
fn test_date() -> chrono::DateTime<chrono::FixedOffset> {
    FixedOffset::east(3600).ymd(2015, 2, 19).and_hms(22, 33, 26)
}

/// Writes a struct `Test` whose field `datetime` holds `date` as a PDF date.
fn date_struct(date: &chrono::DateTime<chrono::FixedOffset>) -> String {
    let local = date.format("%Y%m%d%H%M%S").to_string();
    let offset = date.format("%z").to_string();
    let mut ser = Serializer::new();
    let mut c = ser.serialize_struct("Test").unwrap();
    c.begin_struct_field(&mut ser, "datetime").unwrap();
    ser.serialize_raw(&pdf_date(&local, &offset));
    c.end_struct_field(&mut ser);
    c.end_struct(&mut ser);
    ser.into_string()
}

#[test]
fn datetime_datetime_serialization() {
    assert_eq!(
        date_struct(&test_date()),
        "<<\n\t/Type /Test\n\t/datetime (D:20150219223326+01'00')\n>>"
    );
}

#[test]
fn raw_datetime_serialization() {
    assert_eq!(
        date_struct(&test_date()),
        "<<\n\t/Type /Test\n\t/datetime (D:20150219223326+01'00')\n>>"
    );
}

#[test]
fn pdf_date_splits_the_offset() {
    assert_eq!(pdf_date("20200101000000", "-0530"), "(D:20200101000000-05'30')");
    assert_eq!(pdf_date("", "+00"), "(D:+00'')");
}
