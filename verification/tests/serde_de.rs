use pdfrs::serde_pdf::de::{from_str, FromPdf};
use pdfrs::serde_pdf::Deserializer;
use std::collections::HashMap;
use pdfrs::serde_pdf::error::Error;

#[test]
fn test_boolean() {
    assert_eq!(from_str("true"), Ok(true));
    assert_eq!(from_str("false"), Ok(false));

    // error cases
    assert_eq!(from_str::<bool>("tru"), Err(Error::Eof));
    assert_eq!(from_str::<bool>("f"), Err(Error::Eof));
    assert_eq!(from_str::<bool>("treu"), Err(Error::ExpectedBoolean));
}

#[test]
fn de_test_null() {
    assert_eq!(from_str("null"), Ok(()));
}

#[test]
fn de_test_option() {
    assert_eq!(from_str::<Option<u32>>("null"), Ok(None));
    assert_eq!(from_str::<Option<u32>>("42"), Ok(Some(42)));

    // Errors
    assert_eq!(from_str::<Option<()>>("nul"), Err(Error::Eof));
    assert_eq!(from_str::<Option<()>>("nu1l"), Err(Error::ExpectedNull));
}

#[test]
fn test_number_signed() {
    assert_eq!(from_str::<u64>("0"), Ok(0));
    assert_eq!(from_str::<u8>("123"), Ok(123));

    assert_eq!(from_str::<u8>("99999"), Err(Error::NumberOverflow));
}

#[test]
fn test_number_unsigned() {
    assert_eq!(from_str::<i32>("0"), Ok(0));
    assert_eq!(from_str::<i16>("+17"), Ok(17));
    assert_eq!(from_str::<i32>("-98"), Ok(-98));
}

#[test]
fn number_errors() {
    assert_eq!(from_str::<u32>("-1"), Err(Error::ExpectedUnsignedInteger));
    assert_eq!(from_str::<u32>("1.3"), Err(Error::ExpectedFloat));
    assert_eq!(from_str::<u32>("1x"), Err(Error::ExpectedInteger));
    assert_eq!(from_str::<i8>("x"), Err(Error::ExpectedInteger));
    assert_eq!(from_str::<i8>("127"), Ok(127));
    assert_eq!(from_str::<u16>("65536"), Err(Error::NumberOverflow));
    assert_eq!(from_str::<u64>("18446744073709551615"), Ok(u64::MAX));
    assert_eq!(from_str::<u64>("18446744073709551616"), Err(Error::NumberOverflow));
}

#[test]
fn trailing_characters() {
    assert_eq!(from_str::<u32>("12 "), Ok(12));
    assert_eq!(from_str::<u32>("12  "), Err(Error::TrailingCharacters));
    assert_eq!(from_str::<bool>("truex"), Err(Error::TrailingCharacters));
}

#[test]
fn de_test_seq() {
    assert_eq!(from_str("[1 2 3 4]"), Ok(vec![1u32, 2, 3, 4]));
    assert_eq!(from_str::<Vec<u32>>("[]"), Ok(vec![]));
    assert_eq!(from_str::<Vec<u32>>("[1,2]"), Err(Error::ExpectedInteger));
    assert_eq!(from_str::<Vec<u32>>("1 2"), Err(Error::ExpectedArray));
    assert_eq!(from_str::<Vec<bool>>("[true false"), Err(Error::ExpectedArrayComma));
    assert_eq!(from_str::<Vec<bool>>("[truefalse]"), Err(Error::ExpectedArrayComma));
}

#[test]
fn de_test_bytes() {
    let data = "foobar";
    let expected = data.as_bytes().to_vec();

    let j = r#"[102 111 111 98 97 114]"#;
    assert_eq!(expected, from_str::<Vec<u8>>(j).unwrap());
}

#[test]
fn de_test_string() {
    assert_eq!(from_str(r#"(0ab\(\\fo\)?!\200)"#), Ok(r#"0ab(\fo)?!€"#.to_string()));
    assert_eq!(
        from_str(
            r#"(no new\
line)"#
        ),
        Ok("no newline".to_string())
    );
    assert_eq!(
        from_str(
            r#"(new
line)"#
        ),
        Ok("new\nline".to_string())
    );
}

#[test]
fn string_escapes_and_nesting() {
    assert_eq!(from_str::<String>(r"(a\n\t\(b\))"), Ok("a\n\t(b)".to_string()));
    assert_eq!(from_str::<String>("(a(b)c)"), Ok("a(b)c".to_string()));
    assert_eq!(from_str::<String>(r"(\101\102)"), Ok("AB".to_string()));
    assert_eq!(from_str::<String>(r"(\7a)"), Ok("\u{7}a".to_string()));
    assert_eq!(from_str::<String>(r"(\9)"), Err(Error::InvalidEscapeSequence));
    assert_eq!(from_str::<String>(r"(\q)"), Err(Error::InvalidEscapeSequence));
    assert_eq!(from_str::<String>("(open"), Err(Error::Eof));
    assert_eq!(from_str::<String>("x"), Err(Error::ExpectedString));
    assert_eq!(from_str::<String>("/Name"), Ok("Name".to_string()));
}

#[test]
fn de_test_seq_of_strings() {
    assert_eq!(from_str("[1 2 3 4]"), Ok(vec![1, 2, 3, 4]));
    assert_eq!(from_str("[(a) (b)]"), Ok(vec![String::from("a"), String::from("b")]));
}

#[test]
fn de_test_char() {
    assert_eq!(from_str("(a)"), Ok('a'));
    assert_eq!(from_str::<char>("(ab)"), Err(Error::ExpectedChar));
    assert_eq!(from_str::<char>("()"), Err(Error::ExpectedChar));
    assert_eq!(from_str::<char>(r"(\200)"), Err(Error::ExpectedChar));
}

#[test]
fn de_test_name() {
    fn parse(s: &str) -> String {
        let mut deserializer = pdfrs::serde_pdf::Deserializer::new(s.as_bytes());
        deserializer.parse_name().unwrap()
    }

    assert_eq!(&parse("/Adobe#20Green"), "Adobe Green");
    assert_eq!(&parse("/PANTONE#205757#20CV"), "PANTONE 5757 CV");
    assert_eq!(&parse("/paired#28#29parentheses"), "paired()parentheses");
    assert_eq!(&parse("/The_Key_of_F#23_Minor"), "The_Key_of_F#_Minor");
    assert_eq!(&parse("/A#42"), "AB");
}

#[test]
fn name_errors_and_ends() {
    let mut d = pdfrs::serde_pdf::Deserializer::new(b"Name");
    assert_eq!(d.parse_name(), Err(Error::ExpectedName));
    let mut d = pdfrs::serde_pdf::Deserializer::new(b"/A#4");
    assert_eq!(d.parse_name(), Err(Error::InvalidEscapeSequence));
    let mut d = pdfrs::serde_pdf::Deserializer::new(b"/A B");
    assert_eq!(d.parse_name(), Ok("A".to_string()));
    let mut d = pdfrs::serde_pdf::Deserializer::new(b"/#+F");
    assert_eq!(d.parse_name(), Ok("\u{f}".to_string()));
}

fn read_string(d: &mut Deserializer) -> String {
    <String as FromPdf>::deserialize(d).unwrap()
}

fn read_u32(d: &mut Deserializer) -> u32 {
    <u32 as FromPdf>::deserialize(d).unwrap()
}

/// Reads the entries of a dictionary, each value by `value`.
fn read_dict<T>(d: &mut Deserializer, mut value: impl FnMut(&str, &mut Deserializer) -> T) -> Vec<T> {
    let mut out = Vec::new();
    d.begin_map().unwrap();
    let mut first = true;
    while d.next_key(first).unwrap() {
        first = false;
        let key = d.parse_name().unwrap();
        d.value_separator().unwrap();
        out.push(value(&key, d));
    }
    d.end_map().unwrap();
    out
}

#[test]
fn de_test_struct() {
    #[derive(PartialEq, Debug, Default)]
    struct Test {
        int: u32,
        seq: Vec<String>,
    }

    let j = r#"<< /int 1 /seq [(a) (b)] >>"#;
    let expected = Test { int: 1, seq: vec!["a".to_owned(), "b".to_owned()] };
    let mut d = Deserializer::new(j.as_bytes());
    let mut test = Test::default();
    read_dict(&mut d, |key, d| match key {
        "int" => test.int = read_u32(d),
        "seq" => test.seq = <Vec<String> as FromPdf>::deserialize(d).unwrap(),
        _ => panic!("unknown field {}", key),
    });
    assert!(d.is_input_done());
    assert_eq!(expected, test);
}

#[test]
fn de_test_map() {
    let mut expected = HashMap::new();
    expected.insert("foo".to_string(), "bar".to_string());

    let j = r#"<< /foo (bar) >>"#;
    let mut d = Deserializer::new(j.as_bytes());
    let map: HashMap<String, String> =
        read_dict(&mut d, |key, d| (key.to_string(), read_string(d))).into_iter().collect();
    assert!(d.is_input_done());
    assert_eq!(expected, map);
}

#[test]
fn de_test_enum() {
    #[derive(PartialEq, Debug)]
    enum E {
        Unit,
        Newtype(u32),
        Tuple(u32, u32),
        Struct { a: u32 },
    }

    fn read_enum(j: &str) -> E {
        let mut d = Deserializer::new(j.as_bytes());
        let e = if j.starts_with('/') {
            assert_eq!(d.parse_name().unwrap(), "Unit");
            E::Unit
        } else {
            let mut es = read_dict(&mut d, |key, d| match key {
                "Newtype" => E::Newtype(read_u32(d)),
                "Tuple" => {
                    let v = <Vec<u32> as FromPdf>::deserialize(d).unwrap();
                    E::Tuple(v[0], v[1])
                }
                "Struct" => {
                    let a = read_dict(d, |key, d| {
                        assert_eq!(key, "a");
                        read_u32(d)
                    });
                    E::Struct { a: a[0] }
                }
                _ => panic!("unknown variant {}", key),
            });
            es.remove(0)
        };
        assert!(d.is_input_done());
        e
    }

    assert_eq!(E::Unit, read_enum("/Unit"));
    assert_eq!(E::Newtype(1), read_enum("<< /Newtype 1 >>"));
    assert_eq!(E::Tuple(1, 2), read_enum("<< /Tuple [1 2] >>"));
    assert_eq!(E::Struct { a: 1 }, read_enum("<< /Struct << /a 1 >> >>"));
}

#[test]
fn unsigned_with_plus_and_leading_zeros() {
    assert_eq!(from_str::<u8>("+0017"), Ok(17));
    assert_eq!(from_str::<u8>("00255"), Ok(255));
    assert_eq!(from_str::<u8>("+256"), Err(Error::NumberOverflow));
    assert_eq!(from_str::<u16>("0065536"), Err(Error::NumberOverflow));
}

#[test]
fn string_reader_tells_where_it_cannot_read() {
    let mut de = Deserializer::new(b"/A#42");
    assert_eq!(de.try_parse_string(), Some(Ok(String::from("AB"))));
    let mut de = Deserializer::new(b"/A#G1");
    assert_eq!(de.try_parse_string(), None);
    let mut de = Deserializer::new(b"(a\\(b)");
    assert_eq!(de.try_parse_string(), Some(Ok(String::from("a(b"))));
    let mut de = Deserializer::new(b"42");
    assert_eq!(de.try_parse_string(), Some(Err(Error::ExpectedString)));
}
