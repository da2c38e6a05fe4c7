use strict_yaml_rust::de::{AnyKind, ElementStep};
use strict_yaml_rust::{Deserializer, Error, Serializer};

/// A StrictYAML value: a string, an array or a hash that keeps its entries in
/// order.
#[derive(Debug, PartialEq)]
enum Yaml {
    String(String),
    Array(Vec<Yaml>),
    Hash(Vec<(String, Yaml)>),
}

fn read_yaml(de: &mut Deserializer) -> Result<Yaml, Error> {
    match de.deserialize_any()? {
        AnyKind::Scalar => Ok(Yaml::String(de.deserialize_str()?)),
        AnyKind::Sequence => {
            let (is_root, _mark) = de.deserialize_seq()?;
            let mut items = Vec::new();
            loop {
                match de.next_element(is_root)? {
                    ElementStep::End => break,
                    ElementStep::Element => {
                        let item = read_yaml(de);
                        de.end_element(is_root)?;
                        items.push(item?);
                    }
                    ElementStep::Unexpected => unreachable!(),
                }
            }
            de.end_seq(is_root)?;
            Ok(Yaml::Array(items))
        }
        AnyKind::Mapping => {
            let start = de.deserialize_map()?;
            let mut entries = Vec::new();
            while de.next_key()? {
                let key = de.deserialize_str()?;
                let value = read_yaml(de)?;
                entries.push((key, value));
            }
            de.end_map(start)?;
            Ok(Yaml::Hash(entries))
        }
    }
}

fn from_str_yaml(input: &str) -> Result<Yaml, Error> {
    let mut de = Deserializer::from_str(input);
    de.begin_document()?;
    let value = read_yaml(&mut de)?;
    de.end_document()?;
    Ok(value)
}

fn write_yaml(ser: &mut Serializer, value: &Yaml) {
    match value {
        Yaml::String(s) => ser.serialize_str(s),
        Yaml::Array(items) => {
            ser.serialize_seq(Some(items.len()));
            for item in items {
                ser.serialize_element();
                write_yaml(ser, item);
                ser.end_element();
            }
            ser.end();
        }
        Yaml::Hash(entries) => {
            ser.serialize_map(Some(entries.len()));
            for (key, item) in entries {
                ser.serialize_key();
                ser.serialize_str(key);
                ser.end_key();
                write_yaml(ser, item);
            }
            ser.end();
        }
    }
}

fn to_string_yaml(value: &Yaml) -> String {
    let mut ser = Serializer::new();
    write_yaml(&mut ser, value);
    ser.output()
}

#[test]
fn test_struct_de_ser() {
    #[derive(Debug, PartialEq, Default)]
    struct Test {
        a: String,
        b: usize,
        c: bool,
        d: u8,
    }

    let input = r#"---
a: foo
b: "50"
c: "true"
d: "2""#;

    let expected = Test {
        a: "foo".to_string(),
        b: 50,
        c: true,
        d: 2,
    };

    let mut de = Deserializer::from_str(input);
    de.begin_document().unwrap();
    let start = de.deserialize_map().unwrap();
    let mut t = Test::default();
    while de.next_key().unwrap() {
        match de.deserialize_str().unwrap().as_str() {
            "a" => t.a = de.deserialize_str().unwrap(),
            "b" => t.b = de.deserialize_u64().unwrap() as usize,
            "c" => t.c = de.deserialize_bool().unwrap(),
            "d" => t.d = de.deserialize_u8().unwrap(),
            _ => panic!("unknown field"),
        }
    }
    de.end_map(start).unwrap();
    de.end_document().unwrap();

    assert_eq!(expected, t);

    let mut ser = Serializer::new();
    ser.serialize_map(Some(4));
    ser.serialize_field("a");
    ser.serialize_str(&expected.a);
    ser.serialize_field("b");
    ser.serialize_u64(expected.b as u64);
    ser.serialize_field("c");
    ser.serialize_bool(expected.c);
    ser.serialize_field("d");
    ser.serialize_u8(expected.d);
    ser.end();

    assert_eq!(input, ser.output());
}

#[test]
fn test_complex_de_ser() {
    let input = r#"---
a:
  b:
    c: hello
  d: "{}"
e:
  - f
  - g
  - h: "[]"
  - a:
      - b
      - c
    d: e
a: b"#;

    let yaml = from_str_yaml(input).unwrap();

    assert_eq!(input, to_string_yaml(&yaml));
}

#[test]
fn test_nested_map_de_ser() {
    let input = r#"---
a:
  b:
    c:
      d:
        e: f"#;

    let yaml = from_str_yaml(input).unwrap();

    assert_eq!(input, to_string_yaml(&yaml));
}

#[test]
fn test_nested_array_de_ser() {
    let input = r#"---
a:
  - b
  - - c
    - d
    - - e
      - - f
      - - e"#;

    let yaml = from_str_yaml(input).unwrap();

    assert_eq!(input, to_string_yaml(&yaml));
}
