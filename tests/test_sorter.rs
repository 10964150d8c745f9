use yabe::sorter::{sort_yaml, SortConfig};
use yabe::Value;
use yaml_rust2::{Yaml, YamlEmitter, YamlLoader};

fn from_yaml(y: &Yaml) -> Value {
    match y {
        Yaml::Real(s) => Value::Real(s.clone()),
        Yaml::Integer(i) => Value::Integer(*i),
        Yaml::String(s) => Value::String(s.clone()),
        Yaml::Boolean(b) => Value::Boolean(*b),
        Yaml::Array(a) => Value::Sequence(a.iter().map(from_yaml).collect()),
        Yaml::Hash(h) => {
            Value::Mapping(h.iter().map(|(k, v)| (from_yaml(k), from_yaml(v))).collect())
        }
        _ => Value::Null,
    }
}

fn load(text: &str) -> Value {
    let docs = YamlLoader::load_from_str(text).unwrap();
    from_yaml(&docs.into_iter().next().unwrap_or(Yaml::Null))
}

fn to_yaml(v: &Value) -> Yaml {
    match v {
        Value::Null => Yaml::Null,
        Value::Boolean(b) => Yaml::Boolean(*b),
        Value::Integer(i) => Yaml::Integer(*i),
        Value::Real(s) => Yaml::Real(s.clone()),
        Value::String(s) => Yaml::String(s.clone()),
        Value::Sequence(items) => Yaml::Array(items.iter().map(to_yaml).collect()),
        Value::Mapping(entries) => {
            Yaml::Hash(entries.iter().map(|(k, v)| (to_yaml(k), to_yaml(v))).collect())
        }
    }
}

const CONFIG: &str = "preOrder:\n  - enabled\n  - apiVersion\n  - name\n  - namespace\n  - spec\nsortKey: name\n";

fn string(s: &str) -> Value {
    Value::String(s.to_string())
}

#[test]
fn test_load_config() {
    let config = SortConfig::from_value(&load(CONFIG));

    assert!(config.pre_order.is_some());
    assert_eq!(config.sort_key.unwrap(), "name");
}

#[test]
fn test_hash_sorter() {
    let config = load(CONFIG);

    let test_str = r#"
        c: 3
        b: 2
        a: 1
        "#;

    let doc = load(test_str);
    let processed_doc = sort_yaml(&doc, &config);
    println!("{:?}", processed_doc);
    assert_eq!(
        processed_doc,
        Value::Mapping(vec![
            (string("a"), Value::Integer(1)),
            (string("b"), Value::Integer(2)),
            (string("c"), Value::Integer(3)),
        ])
    );
}

#[test]
fn test_array_sorter() {
    let config = load(CONFIG);
    let test_str = r#"
        - name: Bob
        - name: Alice
        - name: Carol
        "#;

    let doc = load(test_str);
    let processed_doc = sort_yaml(&doc, &config);
    assert_eq!(
        processed_doc,
        Value::Sequence(vec![
            Value::Mapping(vec![(string("name"), string("Alice"))]),
            Value::Mapping(vec![(string("name"), string("Bob"))]),
            Value::Mapping(vec![(string("name"), string("Carol"))]),
        ])
    );
}

#[test]
fn full_test() {
    let config = load(CONFIG);

    let test_str = r#"
test: yaml
namespace: argocd
name: test
apiVersion: argoproj.io/v1alpha1
arr:
  - test: without sort key
  - test: yaml
    namespace: argocd
    name: test
    apiVersion: argoproj.io/v1alpha1
    arr2:
      - namespace: argocd
        name: test
        apiVersion: argoproj.io/v1alpha1
        test: yaml
        enabled: false
  - enabled: false
    name: arr
enabled: false
spec:
  generators:
    - list:
        elements:
          - name: c
          - name: b
          - name: a
            ord:
              - name: c
              - name: b
              - name: a

  name: cluster-resources

# Comment
anchor: &test
  - anchor
anchor-test: *test
    "#;

    let result = r#"---
enabled: false
apiVersion: argoproj.io/v1alpha1
name: test
namespace: argocd
spec:
  name: cluster-resources
  generators:
    - list:
        elements:
          - name: a
            ord:
              - name: a
              - name: b
              - name: c
          - name: b
          - name: c
anchor:
  - anchor
anchor-test:
  - anchor
arr:
  - enabled: false
    name: arr
  - apiVersion: argoproj.io/v1alpha1
    name: test
    namespace: argocd
    arr2:
      - enabled: false
        apiVersion: argoproj.io/v1alpha1
        name: test
        namespace: argocd
        test: yaml
    test: yaml
  - test: without sort key
test: yaml"#;

    let doc = load(test_str);
    let processed_doc = to_yaml(&sort_yaml(&doc, &config));

    let mut out_str = String::new();
    {
        let mut emitter = YamlEmitter::new(&mut out_str);
        emitter.dump(&processed_doc).unwrap();
    }

    assert_eq!(out_str, result);
}
