use strict_yaml_rust::de::{AnyKind, ElementStep, EnumStart};
use strict_yaml_rust::{Deserializer, Error};

/// Reads one document the way the generic entry point does: the start of the
/// stream and of the document, the value, then the end of both.
fn from_str_with<T>(
    input: &str,
    read: impl FnOnce(&mut Deserializer) -> Result<T, Error>,
) -> Result<T, Error> {
    let mut de = Deserializer::from_str(input);
    de.begin_document()?;
    let value = read(&mut de)?;
    de.end_document()?;
    Ok(value)
}

/// Reads a stream of many documents as one sequence.
fn from_str_many_with<T>(
    input: &str,
    read: impl FnMut(&mut Deserializer) -> Result<T, Error>,
) -> Result<Vec<T>, Error> {
    let mut de = Deserializer::from_str_many(input);
    read_seq(&mut de, read)
}

/// Reads a sequence whose elements `read` reads.
fn read_seq<T>(
    de: &mut Deserializer,
    mut read: impl FnMut(&mut Deserializer) -> Result<T, Error>,
) -> Result<Vec<T>, Error> {
    let (is_root, _mark) = de.deserialize_seq()?;
    let mut items = Vec::new();
    loop {
        match de.next_element(is_root)? {
            ElementStep::End => break,
            ElementStep::Element => {
                let item = read(de);
                de.end_element(is_root)?;
                items.push(item?);
            }
            ElementStep::Unexpected => unreachable!(),
        }
    }
    de.end_seq(is_root)?;
    Ok(items)
}

/// Reads a mapping: each key, then its value with `read`.
fn read_map<T>(
    de: &mut Deserializer,
    mut read: impl FnMut(&str, &mut Deserializer) -> Result<T, Error>,
) -> Result<Vec<(String, T)>, Error> {
    let start = de.deserialize_map()?;
    let mut entries = Vec::new();
    while de.next_key()? {
        let key = de.deserialize_str()?;
        let value = read(&key, de)?;
        entries.push((key, value));
    }
    de.end_map(start)?;
    Ok(entries)
}

fn read_f64(de: &mut Deserializer) -> Result<f64, Error> {
    let (value, mark) = de.next_scalar()?;
    value
        .parse::<f64>()
        .map_err(|_| Error::invalid_value(&value, "a 64-bit floating point number").add_mark(mark))
}

#[test]
fn test_primitives() {
    let input = r#"
true
"#;

    assert_eq!(true, from_str_with(input, |de| de.deserialize_bool()).unwrap());

    let input = r#"
"false"
"#;

    assert_eq!(false, from_str_with(input, |de| de.deserialize_bool()).unwrap());

    let input = r#"
foobar
"#;

    assert_eq!("foobar".to_string(), from_str_with(input, |de| de.deserialize_str()).unwrap());

    let input = r#"
'foobar'
"#;

    assert_eq!("foobar".to_string(), from_str_with(input, |de| de.deserialize_str()).unwrap());

    let input = r#"
78
"#;

    assert_eq!(78, from_str_with(input, |de| de.deserialize_i32()).unwrap());

    let input = r#"
-78
"#;

    assert_eq!(-78, from_str_with(input, |de| de.deserialize_i32()).unwrap());

    let input = r#"
'-78'
"#;

    assert_eq!(-78, from_str_with(input, |de| de.deserialize_i32()).unwrap());

    let input = r#"
"-78"
"#;

    assert_eq!(-78, from_str_with(input, |de| de.deserialize_i32()).unwrap());

    let input = r#"
7.8
"#;

    assert_eq!(7.8, from_str_with(input, read_f64).unwrap());

    let input = r#"
-7.8
"#;

    assert_eq!(-7.8, from_str_with(input, read_f64).unwrap());

    let input = r#"
"%"
"#;

    assert_eq!('%', from_str_with(input, |de| de.deserialize_char()).unwrap());
}

#[test]
fn test_option() {
    let input = r#"
foobar
"#;

    assert_eq!(
        Some("foobar".to_string()),
        from_str_with(input, |de| {
            if de.deserialize_option()? {
                Ok(Some(de.deserialize_str()?))
            } else {
                Ok(None)
            }
        })
        .unwrap()
    );
}

#[test]
fn test_unit() {
    assert_eq!((), from_str_with("", |de| de.deserialize_unit()).unwrap());

    let input = r#"
---
"#;

    assert_eq!((), from_str_with(input, |de| de.deserialize_unit()).unwrap());
}

#[test]
fn test_unit_struct() {
    #[derive(Debug, PartialEq)]
    struct Test;

    let read = |de: &mut Deserializer| de.deserialize_unit().map(|_| Test);

    assert_eq!(Test, from_str_with("", read).unwrap());

    let input = r#"
---
"#;

    assert_eq!(Test, from_str_with(input, read).unwrap());
}

#[test]
fn test_newtype_struct() {
    #[derive(Debug, PartialEq)]
    struct Test(String);

    let input = r#"
foobar
"#;

    assert_eq!(
        Test("foobar".to_string()),
        from_str_with(input, |de| de.deserialize_str().map(Test)).unwrap()
    );
}

#[test]
fn test_seq() {
    let input = r#"
- foo
- bar
- foobar
"#;

    let expected = vec!["foo", "bar", "foobar"];

    assert_eq!(
        expected,
        from_str_with(input, |de| read_seq(de, |de| de.deserialize_str())).unwrap()
    );
}

fn read_tuple(de: &mut Deserializer) -> Result<(String, bool, u8), Error> {
    let (is_root, _mark) = de.deserialize_seq()?;
    let mut next = |de: &mut Deserializer| {
        assert_eq!(ElementStep::Element, de.next_element(is_root).unwrap());
    };
    next(de);
    let a = de.deserialize_str()?;
    next(de);
    let b = de.deserialize_bool()?;
    next(de);
    let c = de.deserialize_u8()?;
    de.end_seq(is_root)?;
    Ok((a, b, c))
}

#[test]
fn test_tuple() {
    let input = r#"
- foobar
- false
- 8
"#;

    let expected = ("foobar".to_string(), false, 8);

    assert_eq!(expected, from_str_with(input, read_tuple).unwrap());
}

#[test]
fn test_tuple_struct() {
    #[derive(Debug, PartialEq)]
    struct Test(String, bool, u8);

    let input = r#"
- foobar
- false
- 8
"#;

    let expected = Test("foobar".to_string(), false, 8);

    assert_eq!(
        expected,
        from_str_with(input, |de| read_tuple(de).map(|(a, b, c)| Test(a, b, c))).unwrap()
    );
}

#[test]
fn test_struct() {
    #[derive(Debug, PartialEq, Default)]
    struct Test {
        a: bool,
        b: String,
        c: i64,
        d: f64,
    }

    let input = r#"
a: true
b: |
  foo
  bar
c: -56
d: 5
"#;

    let expected = Test {
        a: true,
        b: "foo\nbar\n".to_string(),
        c: -56,
        d: 5.0,
    };

    let read = |de: &mut Deserializer| {
        let mut t = Test::default();
        read_map(de, |key, de| {
            match key {
                "a" => t.a = de.deserialize_bool()?,
                "b" => t.b = de.deserialize_str()?,
                "c" => t.c = de.deserialize_i64()?,
                "d" => t.d = read_f64(de)?,
                _ => panic!("unknown field"),
            }
            Ok(())
        })?;
        Ok(t)
    };

    assert_eq!(expected, from_str_with(input, read).unwrap());
}

#[test]
fn test_complex_struct() {
    #[derive(Debug, PartialEq, Default)]
    struct Test {
        a: bool,
        b: Vec<Item>,
        c: (u8, u8, bool),
        d: Sub,
    }

    #[derive(Debug, PartialEq, Default)]
    struct Item {
        foo: String,
        bar: f64,
    }

    #[derive(Debug, PartialEq, Default)]
    struct Sub {
        x: bool,
        y: String,
        z: i64,
    }

    let input = r#"
c:
  - 10
  - 12
  - false
b:
  - foo: some value
    bar: 100.1234
  - foo: other value
    bar: 101.1234
  - foo: final value
    bar: 102.1234
a: false
d:
  z: 6
  x: false
  y: |
    foo
    bar
"#;

    let expected = Test {
        a: false,
        b: vec![
            Item {
                foo: "some value".to_string(),
                bar: 100.1234,
            },
            Item {
                foo: "other value".to_string(),
                bar: 101.1234,
            },
            Item {
                foo: "final value".to_string(),
                bar: 102.1234,
            },
        ],
        c: (10, 12, false),
        d: Sub {
            z: 6,
            x: false,
            y: "foo\nbar\n".to_string(),
        },
    };

    let read_item = |de: &mut Deserializer| {
        let mut item = Item::default();
        read_map(de, |key, de| {
            match key {
                "foo" => item.foo = de.deserialize_str()?,
                "bar" => item.bar = read_f64(de)?,
                _ => panic!("unknown field"),
            }
            Ok(())
        })?;
        Ok(item)
    };
    let read_sub = |de: &mut Deserializer| {
        let mut sub = Sub::default();
        read_map(de, |key, de| {
            match key {
                "x" => sub.x = de.deserialize_bool()?,
                "y" => sub.y = de.deserialize_str()?,
                "z" => sub.z = de.deserialize_i64()?,
                _ => panic!("unknown field"),
            }
            Ok(())
        })?;
        Ok(sub)
    };
    let read_c = |de: &mut Deserializer| {
        let (is_root, _mark) = de.deserialize_seq()?;
        assert_eq!(ElementStep::Element, de.next_element(is_root)?);
        let x = de.deserialize_u8()?;
        assert_eq!(ElementStep::Element, de.next_element(is_root)?);
        let y = de.deserialize_u8()?;
        assert_eq!(ElementStep::Element, de.next_element(is_root)?);
        let z = de.deserialize_bool()?;
        de.end_seq(is_root)?;
        Ok((x, y, z))
    };
    let read = |de: &mut Deserializer| {
        let mut t = Test::default();
        read_map(de, |key, de| {
            match key {
                "a" => t.a = de.deserialize_bool()?,
                "b" => t.b = read_seq(de, read_item)?,
                "c" => t.c = read_c(de)?,
                "d" => t.d = read_sub(de)?,
                _ => panic!("unknown field"),
            }
            Ok(())
        })?;
        Ok(t)
    };

    assert_eq!(expected, from_str_with(input, read).unwrap());
}

#[derive(Debug, PartialEq)]
enum TestUnit {
    First,
    Second,
}

fn read_test_unit(de: &mut Deserializer) -> Result<TestUnit, Error> {
    match de.deserialize_enum()? {
        EnumStart::Name(name, _mark) => match name.as_str() {
            "First" => Ok(TestUnit::First),
            "Second" => Ok(TestUnit::Second),
            _ => panic!("unknown variant"),
        },
        EnumStart::Complex(_mark) => panic!("unexpected variant with content"),
    }
}

#[test]
fn test_enum_unit_variant() {
    let input = r#"
First
"#;

    assert_eq!(TestUnit::First, from_str_with(input, read_test_unit).unwrap());

    let input = r#"
---
First
---
Second
"#;

    let expected = vec![TestUnit::First, TestUnit::Second];

    assert_eq!(expected, from_str_many_with(input, read_test_unit).unwrap());
}

#[test]
fn test_enum_newtype_variant() {
    #[derive(Debug, PartialEq)]
    enum Test {
        First(String),
        Second(bool),
    }

    let input = r#"
First: foobar
"#;

    let read = |de: &mut Deserializer| match de.deserialize_enum()? {
        EnumStart::Complex(_mark) => {
            let name = de.deserialize_str()?;
            let value = match name.as_str() {
                "First" => Test::First(de.deserialize_str()?),
                "Second" => Test::Second(de.deserialize_bool()?),
                _ => panic!("unknown variant"),
            };
            de.end_enum()?;
            Ok(value)
        }
        EnumStart::Name(..) => panic!("unexpected unit variant"),
    };

    assert_eq!(Test::First("foobar".to_string()), from_str_with(input, read).unwrap());
}

#[test]
fn test_enum_tuple_variant() {
    #[derive(Debug, PartialEq)]
    enum Test {
        Foo(u8, bool, String),
        Bar,
    }

    let input = r#"
---
Foo:
  - 10
  - true
  - bar
---
Bar
"#;

    let read = |de: &mut Deserializer| match de.deserialize_enum()? {
        EnumStart::Name(name, _mark) => {
            assert_eq!("Bar", name);
            Ok(Test::Bar)
        }
        EnumStart::Complex(_mark) => {
            assert_eq!("Foo", de.deserialize_str()?);
            let (is_root, _mark) = de.deserialize_seq()?;
            assert_eq!(ElementStep::Element, de.next_element(is_root)?);
            let a = de.deserialize_u8()?;
            assert_eq!(ElementStep::Element, de.next_element(is_root)?);
            let b = de.deserialize_bool()?;
            assert_eq!(ElementStep::Element, de.next_element(is_root)?);
            let c = de.deserialize_str()?;
            de.end_seq(is_root)?;
            de.end_enum()?;
            Ok(Test::Foo(a, b, c))
        }
    };

    let expected = vec![Test::Foo(10, true, "bar".to_string()), Test::Bar];

    assert_eq!(expected, from_str_many_with(input, read).unwrap());
}

#[test]
fn test_enum_struct_variant() {
    #[derive(Debug, PartialEq)]
    enum Test {
        Foo { a: u8, b: bool, c: String },
        Bar,
    }

    let input = r#"
---
foo:
  b: true
  c: bar
  a: 10
---
bar
"#;

    let read = |de: &mut Deserializer| match de.deserialize_enum()? {
        EnumStart::Name(name, _mark) => {
            assert_eq!("bar", name);
            Ok(Test::Bar)
        }
        EnumStart::Complex(_mark) => {
            assert_eq!("foo", de.deserialize_str()?);
            let (mut a, mut b, mut c) = (0, false, String::new());
            read_map(de, |key, de| {
                match key {
                    "a" => a = de.deserialize_u8()?,
                    "b" => b = de.deserialize_bool()?,
                    "c" => c = de.deserialize_str()?,
                    _ => panic!("unknown field"),
                }
                Ok(())
            })?;
            de.end_enum()?;
            Ok(Test::Foo { a, b, c })
        }
    };

    let expected = vec![
        Test::Foo {
            a: 10,
            b: true,
            c: "bar".to_string(),
        },
        Test::Bar,
    ];

    assert_eq!(expected, from_str_many_with(input, read).unwrap());
}

#[test]
fn test_multiple_documents() {
    let input = r#"
---
foobar
---
barfoo
---
end
"#;

    let expected = vec![
        "foobar".to_string(),
        "barfoo".to_string(),
        "end".to_string(),
    ];

    assert_eq!(expected, from_str_many_with(input, |de| de.deserialize_str()).unwrap());

    #[derive(Debug, PartialEq, Default)]
    struct Test {
        a: String,
        b: usize,
        c: bool,
    }

    let input = r#"
---
a: foo
b: 50
c: true
---
b: 10
a: bar
c: false
...
---
c: false
b: 20
a: end
...
"#;

    let expected = vec![
        Test {
            a: "foo".to_string(),
            b: 50,
            c: true,
        },
        Test {
            a: "bar".to_string(),
            b: 10,
            c: false,
        },
        Test {
            a: "end".to_string(),
            b: 20,
            c: false,
        },
    ];

    let read = |de: &mut Deserializer| {
        let mut t = Test::default();
        read_map(de, |key, de| {
            match key {
                "a" => t.a = de.deserialize_str()?,
                "b" => t.b = de.deserialize_u64()? as usize,
                "c" => t.c = de.deserialize_bool()?,
                _ => panic!("unknown field"),
            }
            Ok(())
        })?;
        Ok(t)
    };

    assert_eq!(expected, from_str_many_with(input, read).unwrap());
}

#[test]
fn test_deeply_nested() {
    let input = r#"
apiVersion: apps/v1
kind: Deployment
metadata:
  name: nginx-deployment
  labels:
    app: nginx
spec:
  replicas: 3
  selector:
    matchLabels:
      app: nginx
  template:
    metadata:
      labels:
        app: nginx
    spec:
      containers:
      - name: nginx
        image: nginx:1.14.2
        ports:
        - containerPort: 80
"#;

    fn read_labels(de: &mut Deserializer) -> Result<Vec<(String, String)>, Error> {
        read_map(de, |_key, de| de.deserialize_str())
    }

    fn read_metadata(de: &mut Deserializer) -> Result<(Option<String>, Vec<(String, String)>), Error> {
        let mut name = None;
        let mut labels = Vec::new();
        read_map(de, |key, de| {
            match key {
                "name" => name = Some(de.deserialize_str()?),
                "labels" => labels = read_labels(de)?,
                _ => panic!("unknown field"),
            }
            Ok(())
        })?;
        Ok((name, labels))
    }

    let mut seen = Vec::new();
    let result = from_str_with(input, |de| {
        read_map(de, |key, de| {
            match key {
                "apiVersion" => seen.push(format!("apiVersion={}", de.deserialize_str()?)),
                "kind" => match de.deserialize_enum()? {
                    EnumStart::Name(name, _) => seen.push(format!("kind={}", name)),
                    EnumStart::Complex(_) => panic!("unexpected"),
                },
                "metadata" => {
                    let (name, labels) = read_metadata(de)?;
                    seen.push(format!("metadata={:?} {:?}", name, labels));
                }
                "spec" => {
                    read_map(de, |key, de| {
                        match key {
                            "replicas" => seen.push(format!("replicas={}", de.deserialize_u64()?)),
                            "selector" => match de.deserialize_enum()? {
                                EnumStart::Complex(_) => {
                                    assert_eq!("matchLabels", de.deserialize_str()?);
                                    let labels = read_labels(de)?;
                                    de.end_enum()?;
                                    seen.push(format!("selector={:?}", labels));
                                }
                                EnumStart::Name(..) => panic!("unexpected"),
                            },
                            "template" => {
                                read_map(de, |key, de| {
                                    match key {
                                        "metadata" => {
                                            let (name, labels) = read_metadata(de)?;
                                            seen.push(format!("template.metadata={:?} {:?}", name, labels));
                                        }
                                        "spec" => {
                                            read_map(de, |key, de| {
                                                assert_eq!("containers", key);
                                                let containers = read_seq(de, |de| {
                                                    let mut fields = Vec::new();
                                                    read_map(de, |key, de| {
                                                        match key {
                                                            "name" | "image" => fields.push(de.deserialize_str()?),
                                                            "ports" => {
                                                                let ports = read_seq(de, |de| match de.deserialize_enum()? {
                                                                    EnumStart::Complex(_) => {
                                                                        assert_eq!("containerPort", de.deserialize_str()?);
                                                                        let port = de.deserialize_u64()?;
                                                                        de.end_enum()?;
                                                                        Ok(port)
                                                                    }
                                                                    EnumStart::Name(..) => panic!("unexpected"),
                                                                })?;
                                                                fields.push(format!("{:?}", ports));
                                                            }
                                                            _ => panic!("unknown field"),
                                                        }
                                                        Ok(())
                                                    })?;
                                                    Ok(fields)
                                                })?;
                                                seen.push(format!("containers={:?}", containers));
                                                Ok(())
                                            })?;
                                        }
                                        _ => panic!("unknown field"),
                                    }
                                    Ok(())
                                })?;
                            }
                            _ => panic!("unknown field"),
                        }
                        Ok(())
                    })?;
                }
                _ => panic!("unknown field"),
            }
            Ok(())
        })
    });
    result.unwrap();

    assert_eq!(
        vec![
            "apiVersion=apps/v1".to_string(),
            "kind=Deployment".to_string(),
            "metadata=Some(\"nginx-deployment\") [(\"app\", \"nginx\")]".to_string(),
            "replicas=3".to_string(),
            "selector=[(\"app\", \"nginx\")]".to_string(),
            "template.metadata=None [(\"app\", \"nginx\")]".to_string(),
            "containers=[[\"nginx\", \"nginx:1.14.2\", \"[80]\"]]".to_string(),
        ],
        seen
    );
}

#[test]
fn test_any_kind() {
    let de = Deserializer::from_str("- a\n");
    let mut de = de;
    de.begin_document().unwrap();
    assert_eq!(AnyKind::Sequence, de.deserialize_any().unwrap());
}
