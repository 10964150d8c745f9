use yabe::deep_equal::deep_equal;
use yabe::Value;
use yaml_rust2::{Yaml, YamlLoader};

fn from_yaml(y: &Yaml) -> Value {
    match y {
        Yaml::Real(s) => Value::Real(s.clone()),
        Yaml::Integer(i) => Value::Integer(*i),
        Yaml::String(s) => Value::String(s.clone()),
        Yaml::Boolean(b) => Value::Boolean(*b),
        Yaml::Array(a) => Value::Sequence(a.iter().map(from_yaml).collect()),
        Yaml::Hash(h) => {
            Value::Mapping(h.iter().map(|(k, v)| (from_yaml(k), from_yaml(v))).collect())
        }
        _ => Value::Null,
    }
}

fn load(text: &str) -> Value {
    let docs = YamlLoader::load_from_str(text).unwrap();
    from_yaml(&docs.into_iter().next().unwrap_or(Yaml::Null))
}

const NESTED_ENV: &str = "app-backend:\n  migrationJob:\n    extraEnv:\n      - name: POSTGRESQL_CONNECTION_STRING\n        valueFrom:\n          secretKeyRef:\n            name: app-backend\n            key: POSTGRESQL_CONNECTION_STRING";
const NESTED_ENV_CHANGED: &str = "app-backend:\n  migrationJob:\n    extraEnv:\n      - name: POSTGRESQL_CONNECTION_STRING\n        valueFrom:\n          secretKeyRef:\n            name: app-backend\n            key: POSTGRESQL_CONNECTION_STRING1";

#[test]
fn test_deep_equal_scalars() {
    assert!(deep_equal(&Value::Integer(42), &Value::Integer(42)));
    assert!(!deep_equal(&Value::Integer(42), &Value::Integer(43)));

    assert!(deep_equal(&Value::String("hello".into()), &Value::String("hello".into())));
    assert!(!deep_equal(&Value::String("hello".into()), &Value::String("world".into())));

    assert!(deep_equal(&Value::Boolean(true), &Value::Boolean(true)));
    assert!(!deep_equal(&Value::Boolean(true), &Value::Boolean(false)));

    assert!(deep_equal(&Value::Null, &Value::Null));
    assert!(!deep_equal(&Value::Null, &Value::Integer(0)));
}

#[test]
fn test_deep_equal_arrays() {
    let yaml1 = load("- 1\n- 2\n- 3");
    let yaml2 = load("- 1\n- 2\n- 3");
    let yaml3 = load("- 1\n- 2\n- 4");

    assert!(deep_equal(&yaml1, &yaml2));
    assert!(!deep_equal(&yaml1, &yaml3));
}

#[test]
fn test_deep_equal_hashes() {
    let yaml1 = load("a: 1\nb: 2");
    let yaml2 = load("a: 1\nb: 2");
    let yaml3 = load("a: 1\nb: 3");

    assert!(deep_equal(&yaml1, &yaml2));
    assert!(!deep_equal(&yaml1, &yaml3));
}

#[test]
fn test_deep_equal_nested() {
    let yaml1 = load("a:\n  b: 1\n  c:\n    - x\n    - y");
    let yaml2 = load("a:\n  b: 1\n  c:\n    - x\n    - y");
    let yaml3 = load("a:\n  b: 2\n  c:\n    - x\n    - z");

    assert!(deep_equal(&yaml1, &yaml2));
    assert!(!deep_equal(&yaml1, &yaml3));
}

#[test]
fn test_deep_equal_arrays_nested() {
    let yaml1 = load(NESTED_ENV);
    let yaml2 = load(NESTED_ENV);
    let yaml3 = load(NESTED_ENV_CHANGED);

    assert!(deep_equal(&yaml1, &yaml2));
    assert!(!deep_equal(&yaml1, &yaml3));
}
