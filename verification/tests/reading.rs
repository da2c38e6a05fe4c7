use strict_yaml_rust::de::{AnyKind, ElementStep};
use strict_yaml_rust::{Deserializer, Error, Serializer};

/// A StrictYAML value as the reader gives it.
#[derive(Debug, PartialEq)]
enum Value {
    Str(String),
    Sequence(Vec<Value>),
    Mapping(Vec<(String, Value)>),
}

fn s(v: &str) -> Value {
    Value::Str(v.to_string())
}

fn read_value(de: &mut Deserializer) -> Result<Value, Error> {
    match de.deserialize_any()? {
        AnyKind::Scalar => Ok(Value::Str(de.deserialize_str()?)),
        AnyKind::Sequence => {
            let (is_root, _) = de.deserialize_seq()?;
            let mut items = Vec::new();
            while de.next_element(is_root)? == ElementStep::Element {
                items.push(read_value(de)?);
                de.end_element(is_root)?;
            }
            de.end_seq(is_root)?;
            Ok(Value::Sequence(items))
        }
        AnyKind::Mapping => {
            let start = de.deserialize_map()?;
            let mut entries = Vec::new();
            while de.next_key()? {
                let key = de.deserialize_str()?;
                entries.push((key, read_value(de)?));
            }
            de.end_map(start)?;
            Ok(Value::Mapping(entries))
        }
    }
}

fn read(input: &str) -> Result<Value, Error> {
    let mut de = Deserializer::from_str(input);
    de.begin_document()?;
    let v = read_value(&mut de)?;
    de.end_document()?;
    Ok(v)
}

#[test]
fn test_mapping_round_trip() {
    let entries = [
        ("name", "nginx"),
        ("port", "80"),
        ("enabled", "true"),
        ("a: b", "c # d"),
        ("", ""),
        ("-dash", "|pipe"),
        ("...", "---"),
        ("quote\"d", "multi\nline"),
    ];
    let mut ser = Serializer::new();
    ser.serialize_map(None);
    for (k, v) in entries {
        ser.serialize_key();
        ser.serialize_str(k);
        ser.end_key();
        ser.serialize_str(v);
    }
    ser.end();
    let text = ser.output();
    let expected = Value::Mapping(entries.iter().map(|(k, v)| (k.to_string(), s(v))).collect());
    assert_eq!(expected, read(&text).unwrap(), "{text}");
}

#[test]
fn test_sequence_round_trip() {
    let items = ["a", "- b", "", "#", "  spaced  ", "x: y", "'q'", "\u{1}"];
    let mut ser = Serializer::new();
    ser.serialize_seq(Some(items.len()));
    for item in items {
        ser.serialize_element();
        ser.serialize_str(item);
        ser.end_element();
    }
    ser.end();
    let text = ser.output();
    assert_eq!(
        "---\n- a\n- \"- b\"\n- \"\"\n- \"#\"\n- \"  spaced  \"\n- \"x: y\"\n- \"'q'\"\n- \"\\u0001\"",
        text
    );
    let expected = Value::Sequence(items.iter().map(|v| s(v)).collect());
    assert_eq!(expected, read(&text).unwrap());
}

#[test]
fn test_comments_and_blank_lines() {
    let input = "# leading comment\n\n---\na: b # trailing\n\n   \nc: 'd # not a comment'\n";
    assert_eq!(
        Value::Mapping(vec![
            ("a".to_string(), s("b")),
            ("c".to_string(), s("d # not a comment")),
        ]),
        read(input).unwrap()
    );
}

#[test]
fn test_quoted_keys_and_escapes() {
    let input = "\"a: b\": 1\n'it''s': \"tab\\there\\u00e9\"\n";
    assert_eq!(
        Value::Mapping(vec![
            ("a: b".to_string(), s("1")),
            ("it's".to_string(), s("tab\there\u{e9}")),
        ]),
        read(input).unwrap()
    );
}

#[test]
fn test_literal_blocks() {
    let input = "clip: |\n  one\n\n  two\n\nstrip: |-\n  three\nkeep: |+\n  four\n\nlast: x\n";
    assert_eq!(
        Value::Mapping(vec![
            ("clip".to_string(), s("one\n\ntwo\n")),
            ("strip".to_string(), s("three")),
            ("keep".to_string(), s("four\n\n")),
            ("last".to_string(), s("x")),
        ]),
        read(input).unwrap()
    );
    assert_eq!(s("a\n  b\nc\n"), read("|\n  a\n    b\n  c\n").unwrap());
}

#[test]
fn test_nested_and_empty_values() {
    let input = "a:\n  - b\n  -\n  - c: d\n    e:\ng:\n- h\n";
    assert_eq!(
        Value::Mapping(vec![
            (
                "a".to_string(),
                Value::Sequence(vec![
                    s("b"),
                    s(""),
                    Value::Mapping(vec![("c".to_string(), s("d")), ("e".to_string(), s(""))]),
                ]),
            ),
            ("g".to_string(), Value::Sequence(vec![s("h")])),
        ]),
        read(input).unwrap()
    );
}

#[test]
fn test_crlf_lines() {
    assert_eq!(
        Value::Mapping(vec![("a".to_string(), s("b")), ("c".to_string(), s("d"))]),
        read("a: b\r\nc: d\r\n").unwrap()
    );
}

#[test]
fn test_reading_errors() {
    let message = |input: &str| read(input).unwrap_err().message();
    assert_eq!(
        "bad indentation of a sequence entry at line 2 column 3",
        message("- a\n  - b\n")
    );
    assert_eq!(
        "mapping values are not allowed in this context at line 2 column 3",
        message("a: b\n  c: d\n")
    );
    assert_eq!(
        "did not find expected <document start> at line 2 column 1",
        message("a: b\nc\n")
    );
    assert_eq!("invalid block scalar header at line 1 column 5", message("a: |x\n  b\n"));
    assert_eq!(
        "did not find expected <document start> at line 2 column 1",
        message("a\nb\n")
    );
    assert_eq!(
        "found unexpected end of a quoted scalar at line 1 column 4",
        message("a: 'b\n")
    );
}

fn write(ser: &mut Serializer, value: &Value) {
    match value {
        Value::Str(v) => ser.serialize_str(v),
        Value::Sequence(items) => {
            ser.serialize_seq(None);
            for item in items {
                ser.serialize_element();
                write(ser, item);
                ser.end_element();
            }
            ser.end();
        }
        Value::Mapping(entries) => {
            ser.serialize_map(None);
            for (k, v) in entries {
                ser.serialize_key();
                ser.serialize_str(k);
                ser.end_key();
                write(ser, v);
            }
            ser.end();
        }
    }
}

#[test]
fn test_tree_round_trip() {
    let tree = Value::Mapping(vec![
        ("plain".to_string(), s("value")),
        (
            "list: of".to_string(),
            Value::Sequence(vec![
                s("- a"),
                Value::Sequence(vec![s("b"), Value::Sequence(vec![s("c")])]),
                Value::Mapping(vec![
                    ("k".to_string(), s("#v")),
                    ("m".to_string(), Value::Mapping(vec![("n".to_string(), s(""))])),
                ]),
                s("true"),
            ]),
        ),
        (
            "".to_string(),
            Value::Mapping(vec![("x".to_string(), Value::Sequence(vec![s("1"), s("2")]))]),
        ),
    ]);
    let mut ser = Serializer::new();
    write(&mut ser, &tree);
    let text = ser.output();
    assert_eq!(
        "---\nplain: value\n\"list: of\":\n  - \"- a\"\n  - - b\n    - - c\n  - k: \"#v\"\n    m:\n      n: \"\"\n  - \"true\"\n\"\":\n  x:\n    - \"1\"\n    - \"2\"",
        text
    );
    assert_eq!(tree, read(&text).unwrap());
}

#[test]
fn test_struct_round_trip() {
    let mut ser = Serializer::new();
    ser.serialize_map(Some(3));
    ser.serialize_field("name");
    ser.serialize_str("web: app");
    ser.serialize_field("ports");
    ser.serialize_seq(Some(2));
    for port in ["80", "443"] {
        ser.serialize_element();
        ser.serialize_str(port);
        ser.end_element();
    }
    ser.end();
    ser.serialize_field("labels");
    ser.serialize_map(Some(1));
    ser.serialize_key();
    ser.serialize_str("app");
    ser.end_key();
    ser.serialize_str("nginx");
    ser.end();
    ser.end();
    let text = ser.output();
    assert_eq!(
        "---\nname: \"web: app\"\nports:\n  - \"80\"\n  - \"443\"\nlabels:\n  app: nginx",
        text
    );
    assert_eq!(
        Value::Mapping(vec![
            ("name".to_string(), s("web: app")),
            ("ports".to_string(), Value::Sequence(vec![s("80"), s("443")])),
            ("labels".to_string(), Value::Mapping(vec![("app".to_string(), s("nginx"))])),
        ]),
        read(&text).unwrap()
    );
}

#[test]
fn test_documents_round_trip() {
    let trees = vec![
        Value::Mapping(vec![("kind".to_string(), s("deployment")), ("n".to_string(), s("5"))]),
        Value::Sequence(vec![s("a"), Value::Sequence(vec![s("---")]), s("...")]),
        Value::Mapping(vec![("k".to_string(), Value::Mapping(vec![("x".to_string(), s(""))]))]),
    ];
    let parts: Vec<String> = trees
        .iter()
        .map(|t| {
            let mut ser = Serializer::new();
            write(&mut ser, t);
            ser.output()
        })
        .collect();
    let text = parts.join("\n");

    let mut de = Deserializer::from_str_many(&text);
    let (is_root, _) = de.deserialize_seq().unwrap();
    assert!(is_root);
    let mut read_back = Vec::new();
    loop {
        match de.next_element(is_root).unwrap() {
            ElementStep::End => break,
            ElementStep::Element => {
                read_back.push(read_value(&mut de).unwrap());
                de.end_element(is_root).unwrap();
            }
            ElementStep::Unexpected => panic!("unexpected"),
        }
    }
    de.end_seq(is_root).unwrap();
    assert_eq!(trees, read_back, "{text}");

    for (part, tree) in parts.iter().zip(trees.iter()) {
        assert_eq!(tree, &read(part).unwrap());
    }
}
