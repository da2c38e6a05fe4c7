use strict_yaml_rust::de::ElementStep;
use strict_yaml_rust::{Deserializer, Error, Marker, Serializer};

/// Writes a document holding one mapping entry `k`, whose value `write` writes.
fn write_entry(write: impl FnOnce(&mut Serializer)) -> String {
    let mut ser = Serializer::new();
    ser.serialize_map(Some(1));
    ser.serialize_key();
    ser.serialize_str("k");
    ser.end_key();
    write(&mut ser);
    ser.end();
    ser.output()
}

/// Reads a document holding one mapping entry `k`, whose value `read` reads.
fn read_entry<T>(
    input: &str,
    read: impl FnOnce(&mut Deserializer) -> Result<T, Error>,
) -> Result<T, Error> {
    let mut de = Deserializer::from_str(input);
    de.begin_document()?;
    let start = de.deserialize_map()?;
    assert!(de.next_key()?);
    assert_eq!("k", de.deserialize_str()?);
    let value = read(&mut de)?;
    assert!(!de.next_key()?);
    de.end_map(start)?;
    de.end_document()?;
    Ok(value)
}

#[test]
fn test_string_round_trip() {
    let samples = [
        "plain",
        "two words",
        "",
        "true",
        "false",
        "null",
        "~",
        "50",
        "-7",
        "7.8",
        "1e10",
        ".inf",
        "a: b",
        "# comment",
        "x # y",
        "- item",
        "'single'",
        "\"double\"",
        "back\\slash",
        "tab\there",
        "line\nbreak",
        "bell\u{7}",
        "delete\u{7f}",
        " leading",
        "trailing ",
        "{}",
        "[]",
        "ünïcödé ✓",
    ];
    for s in samples {
        let text = write_entry(|ser| ser.serialize_str(s));
        assert_eq!(s, read_entry(&text, |de| de.deserialize_str()).unwrap(), "{text}");
    }
}

#[test]
fn test_quoting_choices() {
    assert_eq!("---\nk: plain", write_entry(|ser| ser.serialize_str("plain")));
    assert_eq!("---\nk: \"50\"", write_entry(|ser| ser.serialize_str("50")));
    assert_eq!("---\nk: \"true\"", write_entry(|ser| ser.serialize_str("true")));
    assert_eq!("---\nk: \"\"", write_entry(|ser| ser.serialize_str("")));
    assert_eq!("---\nk: \"a: b\"", write_entry(|ser| ser.serialize_str("a: b")));
    assert_eq!(
        "---\nk: \"tab\\there\\n\"",
        write_entry(|ser| ser.serialize_str("tab\there\n"))
    );
    assert_eq!(
        "---\nk: \"\\u0001\\u007f\\u000b\"",
        write_entry(|ser| ser.serialize_str("\u{1}\u{7f}\u{b}"))
    );
    // Control characters outside the ones that force quotes stay as they are.
    assert_eq!("---\nk: \u{7}\u{7f}", write_entry(|ser| ser.serialize_str("\u{7}\u{7f}")));
    assert_eq!(
        "---\nk: \"say \\\"hi\\\" \\\\o/\"",
        write_entry(|ser| ser.serialize_str("say \"hi\" \\o/"))
    );
}

#[test]
fn test_integer_round_trip() {
    let text = write_entry(|ser| ser.serialize_i64(i64::MIN));
    assert_eq!("---\nk: \"-9223372036854775808\"", text);
    assert_eq!(i64::MIN, read_entry(&text, |de| de.deserialize_i64()).unwrap());

    let text = write_entry(|ser| ser.serialize_u64(u64::MAX));
    assert_eq!(u64::MAX, read_entry(&text, |de| de.deserialize_u64()).unwrap());
    assert_eq!(u64::MAX as u128, read_entry(&text, |de| de.deserialize_u128()).unwrap());

    let text = write_entry(|ser| ser.serialize_i8(-128));
    assert_eq!(-128, read_entry(&text, |de| de.deserialize_i8()).unwrap());

    let text = write_entry(|ser| ser.serialize_u16(0));
    assert_eq!("---\nk: \"0\"", text);
    assert_eq!(0, read_entry(&text, |de| de.deserialize_u16()).unwrap());

    let text = write_entry(|ser| ser.serialize_i32(-5));
    assert_eq!(-5i128, read_entry(&text, |de| de.deserialize_i128()).unwrap());
}

#[test]
fn test_integer_limits() {
    assert_eq!(127, read_entry("k: 127", |de| de.deserialize_i8()).unwrap());
    assert_eq!(255, read_entry("k: +255", |de| de.deserialize_u8()).unwrap());
    assert!(read_entry("k: 128", |de| de.deserialize_i8()).is_err());
    assert!(read_entry("k: 256", |de| de.deserialize_u8()).is_err());
    assert!(read_entry("k: -1", |de| de.deserialize_u32()).is_err());
    assert!(read_entry("k: 12a", |de| de.deserialize_u32()).is_err());
    assert!(read_entry("k: ''", |de| de.deserialize_u32()).is_err());
    assert!(read_entry("k: '+'", |de| de.deserialize_i32()).is_err());
    assert_eq!(
        i128::MIN,
        read_entry("k: -170141183460469231731687303715884105728", |de| de.deserialize_i128())
            .unwrap()
    );
    assert_eq!(
        u128::MAX,
        read_entry("k: 340282366920938463463374607431768211455", |de| de.deserialize_u128())
            .unwrap()
    );
    assert!(
        read_entry("k: 340282366920938463463374607431768211456", |de| de.deserialize_u128())
            .is_err()
    );
}

#[test]
fn test_bool_round_trip() {
    for b in [true, false] {
        let text = write_entry(|ser| ser.serialize_bool(b));
        assert_eq!(b, read_entry(&text, |de| de.deserialize_bool()).unwrap());
    }
    assert!(read_entry("k: True", |de| de.deserialize_bool()).is_err());
    assert!(read_entry("k: yes", |de| de.deserialize_bool()).is_err());
}

#[test]
fn test_char_round_trip() {
    for c in ['%', '"', '\'', '#', 'x', '\n', 'ß'] {
        let text = write_entry(|ser| ser.serialize_char(c));
        assert_eq!(c, read_entry(&text, |de| de.deserialize_char()).unwrap());
    }
    assert!(read_entry("k: ab", |de| de.deserialize_char()).is_err());
}

#[test]
fn test_bytes() {
    let text = write_entry(|ser| ser.serialize_bytes("héllo".as_bytes()).unwrap());
    assert_eq!("---\nk: héllo", text);

    let mut ser = Serializer::new();
    let err = ser.serialize_bytes(&[0x66, 0xff]).unwrap_err();
    assert_eq!("---", ser.output());
    assert_eq!(std::str::from_utf8(&[0x66, 0xff]).unwrap_err().to_string(), err.message());
}

#[test]
fn test_mark_kept() {
    let first = Marker { index: 1, line: 2, col: 3 };
    let second = Marker { index: 4, line: 5, col: 6 };
    match Error::Message("bad".to_string()).add_mark(first).add_mark(second) {
        Error::MarkedMessage { msg, mark } => {
            assert_eq!("bad", msg);
            assert_eq!(first, mark);
        }
        other => panic!("{other:?}"),
    }
    let err = Error::UnsupportedType("bytes").add_mark(first);
    assert!(matches!(err, Error::UnsupportedType("bytes")));
}

#[test]
fn test_collection_level() {
    let mut ser = Serializer::new();
    ser.serialize_map(Some(2));
    ser.serialize_key();
    ser.serialize_str("a");
    ser.end_key();
    ser.serialize_seq(Some(1));
    ser.serialize_element();
    ser.serialize_str("x");
    ser.end_element();
    ser.end();
    ser.serialize_key();
    ser.serialize_str("b");
    ser.end_key();
    ser.serialize_str("y");
    ser.end();
    assert_eq!("---\na:\n  - x\nb: y", ser.output());
}

#[test]
fn test_empty_collections() {
    // An empty collection is written inline and, as it was never entered,
    // ending it moves the following entries one level up.
    let mut ser = Serializer::new();
    ser.serialize_map(Some(1));
    ser.serialize_key();
    ser.serialize_str("x");
    ser.end_key();
    ser.serialize_map(Some(2));
    ser.serialize_key();
    ser.serialize_str("a");
    ser.end_key();
    ser.serialize_seq(Some(0));
    ser.end();
    ser.serialize_key();
    ser.serialize_str("b");
    ser.end_key();
    ser.serialize_map(Some(0));
    ser.end();
    ser.end();
    ser.end();
    assert_eq!("---\nx:\n  a:[]\nb:{}", ser.output());
}

#[test]
fn test_many_documents_of_sequences() {
    let input = "---\n- a\n- b\n---\n- c\n";
    let mut de = Deserializer::from_str_many(input);
    let (is_root, _) = de.deserialize_seq().unwrap();
    assert!(is_root);
    let mut docs = Vec::new();
    loop {
        match de.next_element(is_root).unwrap() {
            ElementStep::End => break,
            ElementStep::Element => {
                let (inner, _) = de.deserialize_seq().unwrap();
                assert!(!inner);
                let mut items = Vec::new();
                while de.next_element(inner).unwrap() == ElementStep::Element {
                    items.push(de.deserialize_str().unwrap());
                    de.end_element(inner).unwrap();
                }
                de.end_seq(inner).unwrap();
                de.end_element(is_root).unwrap();
                docs.push(items);
            }
            ElementStep::Unexpected => panic!("unexpected"),
        }
    }
    de.end_seq(is_root).unwrap();
    assert_eq!(vec![vec!["a", "b"], vec!["c"]], docs);
}
