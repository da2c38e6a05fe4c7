use strict_yaml_rust::de::ElementStep;
use strict_yaml_rust::{Deserializer, Error, Event, Marker};

fn started(input: &str) -> Deserializer {
    let mut de = Deserializer::from_str(input);
    de.begin_document().unwrap();
    de
}

#[test]
fn test_invalid_value_message() {
    let mut de = started("k: maybe\n");
    de.deserialize_map().unwrap();
    assert_eq!("k", de.deserialize_str().unwrap());
    let err = de.deserialize_bool().unwrap_err();
    match &err {
        Error::MarkedMessage { msg, mark } => {
            assert_eq!("invalid value: string \"maybe\", expected a boolean", msg);
            assert_eq!(1, mark.line());
        }
        other => panic!("{other:?}"),
    }
    assert_eq!(
        "invalid value: string \"maybe\", expected a boolean at line 1",
        err.message()
    );

    let err = started("300\n").deserialize_u8().unwrap_err();
    assert_eq!(
        "invalid value: string \"300\", expected an 8-bit unsigned integer at line 1",
        err.message()
    );
    let err = started("x\n").deserialize_i128().unwrap_err();
    assert_eq!(
        "invalid value: string \"x\", expected an 128-bit signed integer at line 1",
        err.message()
    );
    let err = started("ab\n").deserialize_char().unwrap_err();
    assert_eq!(
        "invalid value: string \"ab\", expected a single character at line 1",
        err.message()
    );
}

#[test]
fn test_plain_message() {
    assert_eq!("oops", Error::Message("oops".to_string()).message());
    let mark = Marker { index: 0, line: 7, col: 0 };
    assert_eq!("oops at line 7", Error::Message("oops".to_string()).add_mark(mark).message());
}

#[test]
fn test_unsupported_bytes() {
    let de = started("abc\n");
    let err = de.deserialize_bytes();
    assert!(matches!(err, Error::UnsupportedType("bytes")));
    assert_eq!("(de)serialization of bytes is not supported", err.message());
}

#[test]
fn test_unexpected_stream_start() {
    let mut de = Deserializer::from_str("a\n");
    let err = de.deserialize_str().unwrap_err();
    assert!(matches!(err, Error::UnexpectedStreamStart { expected: "a scalar", .. }));
    assert_eq!("expected a scalar, but found the start of the stream at line 1", err.message());
}

#[test]
fn test_unexpected_stream_end() {
    let mut de = started("");
    let err = de.deserialize_str().unwrap_err();
    assert_eq!("expected a scalar, but found the end of the stream at line 1", err.message());
}

#[test]
fn test_unexpected_document_start() {
    let mut de = started("a\n---\nb\n");
    assert_eq!("a", de.deserialize_str().unwrap());
    let err = de.end_document().unwrap_err();
    assert!(matches!(
        err,
        Error::UnexpectedDocumentStart { expected: "the end of the stream", .. }
    ));
    assert_eq!(
        "expected the end of the stream, but found the start of a document at line 2",
        err.message()
    );
}

#[test]
fn test_unexpected_document_end() {
    let mut de = started("a\n");
    assert_eq!("a", de.deserialize_str().unwrap());
    let err = de.deserialize_str().unwrap_err();
    assert_eq!("expected a scalar, but found the end of a document at line 2", err.message());
}

#[test]
fn test_unexpected_scalar() {
    let err = started("a\n").deserialize_map().unwrap_err();
    assert_eq!(
        "expected the start of a mapping, but found scalar \"a\" at line 1",
        err.message()
    );
}

#[test]
fn test_unexpected_sequence_start() {
    let err = started("- a\n").deserialize_map().unwrap_err();
    assert_eq!(
        "expected the start of a mapping, but found the start of a sequence at line 1",
        err.message()
    );
}

#[test]
fn test_unexpected_sequence_end() {
    let mut de = started("- a\n");
    let (is_root, _) = de.deserialize_seq().unwrap();
    assert_eq!(ElementStep::Element, de.next_element(is_root).unwrap());
    assert_eq!("a", de.deserialize_str().unwrap());
    de.end_element(is_root).unwrap();
    let err = de.deserialize_str().unwrap_err();
    assert_eq!("expected a scalar, but found the end of a sequence at line 2", err.message());
}

#[test]
fn test_unexpected_mapping_start() {
    let err = started("a: b\n").deserialize_seq().unwrap_err();
    assert_eq!(
        "expected the start of a sequence, but found the start of a mapping at line 1",
        err.message()
    );
}

#[test]
fn test_unexpected_mapping_end() {
    let mut de = started("a: b\n");
    de.deserialize_map().unwrap();
    assert_eq!("a", de.deserialize_str().unwrap());
    assert_eq!("b", de.deserialize_str().unwrap());
    let err = de.deserialize_str().unwrap_err();
    assert_eq!("expected a scalar, but found the end of a mapping at line 2", err.message());
}

#[test]
fn test_mapping_end_error_carries_start() {
    // The error for a mapping that does not end where expected carries the
    // position of the mapping's start.
    let mut de = started("a: b\n");
    let start = de.deserialize_map().unwrap();
    assert_eq!("a", de.deserialize_str().unwrap());
    let err = de.end_map(start).unwrap_err();
    match err {
        Error::UnexpectedScalar { mark, expected, value } => {
            assert_eq!(start, mark);
            assert_eq!("the end of a mapping", expected);
            assert_eq!("b", value);
        }
        other => panic!("{other:?}"),
    }
}

#[test]
fn test_many_root_not_a_stream() {
    let mut de = Deserializer::from_str_many("a\n");
    let (is_root, _) = de.deserialize_seq().unwrap();
    assert!(is_root);
    assert_eq!(ElementStep::Element, de.next_element(is_root).unwrap());
    assert_eq!("a", de.deserialize_str().unwrap());
    de.end_element(is_root).unwrap();
    assert_eq!(ElementStep::End, de.next_element(is_root).unwrap());
    de.end_seq(is_root).unwrap();

    let mut de = Deserializer::from_str_many("a\n");
    de.next().unwrap();
    let err = de.deserialize_seq().unwrap_err();
    assert_eq!(
        "expected the start of the stream, but found the start of a document at line 1",
        err.message()
    );
}

#[test]
fn test_scan_error() {
    let mut de = Deserializer::from_str("a: \"open\n");
    let err = de.begin_document().unwrap_err();
    assert!(matches!(err, Error::Message(_)));
    assert!(err.message().ends_with("at line 1 column 4"), "{}", err.message());
}

#[test]
fn test_reading_after_the_end() {
    let mut de = started("a\n");
    assert_eq!("a", de.deserialize_str().unwrap());
    de.end_document().unwrap();
    for _ in 0..3 {
        assert!(matches!(de.next(), Ok((Event::StreamEnd, _))));
    }
}
