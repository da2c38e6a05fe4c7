use strict_yaml_rust::de::ElementStep;
use strict_yaml_rust::{Deserializer, Error};

#[derive(Debug, PartialEq)]
struct Deployment {
    kind: String,
    spec: Spec,
}

#[derive(Debug, PartialEq)]
struct Spec {
    replicas: u16,
    name: String,
}

fn read_spec(de: &mut Deserializer) -> Result<Spec, Error> {
    let start = de.deserialize_map()?;
    let mut replicas = None;
    let mut name = None;
    while de.next_key()? {
        match de.deserialize_str()?.as_str() {
            "replicas" => replicas = Some(de.deserialize_u16()?),
            "name" => name = Some(de.deserialize_str()?),
            other => panic!("unknown field {other}"),
        }
    }
    de.end_map(start)?;
    Ok(Spec { replicas: replicas.unwrap(), name: name.unwrap() })
}

fn read_deployment(de: &mut Deserializer) -> Result<Deployment, Error> {
    let start = de.deserialize_map()?;
    let mut kind = None;
    let mut spec = None;
    while de.next_key()? {
        match de.deserialize_str()?.as_str() {
            "kind" => kind = Some(de.deserialize_str()?),
            "spec" => spec = Some(read_spec(de)?),
            other => panic!("unknown field {other}"),
        }
    }
    de.end_map(start)?;
    Ok(Deployment { kind: kind.unwrap(), spec: spec.unwrap() })
}

#[test]
fn test_from_str_example() {
    let yaml = r#"
---
kind: deployment
spec:
  replicas: 5
  name: "nginx"
...
"#;

    let mut de = Deserializer::from_str(yaml);
    de.begin_document().unwrap();
    let deployment = read_deployment(&mut de).unwrap();
    de.end_document().unwrap();

    assert_eq!(deployment.spec.name, "nginx".to_string());
    assert_eq!(5, deployment.spec.replicas);
    assert_eq!("deployment", deployment.kind);
}

#[test]
fn test_from_str_many_example() {
    let yaml = r#"
---
kind: deployment
spec:
  replicas: 5
  name: "nginx"
---
kind: container
spec:
  replicas: 1
  name: "redis"
---
kind: deployment
spec:
  replicas: 3
  name: "webapp"
...
"#;

    let mut de = Deserializer::from_str_many(yaml);
    let (is_root, _) = de.deserialize_seq().unwrap();
    let mut deployments = Vec::new();
    loop {
        match de.next_element(is_root).unwrap() {
            ElementStep::End => break,
            ElementStep::Element => {
                let d = read_deployment(&mut de);
                de.end_element(is_root).unwrap();
                deployments.push(d.unwrap());
            }
            ElementStep::Unexpected => unreachable!(),
        }
    }
    de.end_seq(is_root).unwrap();

    assert!(deployments.len() == 3);
    assert!(deployments.first().is_some_and(|d| d.spec.name == "nginx".to_string()));
    assert_eq!("redis", deployments[1].spec.name);
    assert_eq!(3, deployments[2].spec.replicas);
}
