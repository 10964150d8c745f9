use yabe::deep_equal::deep_equal;
use yabe::diff::{compute_diff, diff_and_common_multiple};
use yabe::Value;
use yaml_rust2::{Yaml, YamlLoader};

fn from_yaml(y: &Yaml) -> Value {
    match y {
        Yaml::Real(s) => Value::Real(s.clone()),
        Yaml::Integer(i) => Value::Integer(*i),
        Yaml::String(s) => Value::String(s.clone()),
        Yaml::Boolean(b) => Value::Boolean(*b),
        Yaml::Array(a) => Value::Sequence(a.iter().map(from_yaml).collect()),
        Yaml::Hash(h) => {
            Value::Mapping(h.iter().map(|(k, v)| (from_yaml(k), from_yaml(v))).collect())
        }
        _ => Value::Null,
    }
}

fn load(text: &str) -> Value {
    let docs = YamlLoader::load_from_str(text).unwrap();
    from_yaml(&docs.into_iter().next().unwrap_or(Yaml::Null))
}

const NESTED_ENV: &str = "app-backend:\n  migrationJob:\n    extraEnv:\n      - name: POSTGRESQL_CONNECTION_STRING\n        valueFrom:\n          secretKeyRef:\n            name: app-backend\n            key: POSTGRESQL_CONNECTION_STRING";
const NESTED_ENV_CHANGED: &str = "app-backend:\n  migrationJob:\n    extraEnv:\n      - name: POSTGRESQL_CONNECTION_STRING\n        valueFrom:\n          secretKeyRef:\n            name: app-backend\n            key: POSTGRESQL_CONNECTION_STRING1";

#[test]
fn test_compute_diff_identical() {
    let helm_yaml = load("a: 1\nb: 2");
    let obj_yaml = load("a: 1\nb: 2");

    let diff = compute_diff(&obj_yaml, &helm_yaml);
    assert!(diff.is_none());
}

#[test]
fn test_compute_diff_simple_diff() {
    let helm_yaml = load("a: 1\nb: 2");
    let obj_yaml = load("a: 1\nb: 3");

    let diff = compute_diff(&obj_yaml, &helm_yaml).unwrap();
    let expected_diff = load("b: 3");

    assert!(deep_equal(&diff, &expected_diff));
}

#[test]
fn test_compute_diff_nested() {
    let helm_yaml = load("a:\n  b: 1\n  c: 2");
    let obj_yaml = load("a:\n  b: 1\n  c: 3");

    let diff = compute_diff(&obj_yaml, &helm_yaml).unwrap();
    let expected_diff = load("a:\n  c: 3");

    assert!(deep_equal(&diff, &expected_diff));
}

#[test]
fn test_compute_diff_array() {
    let helm_yaml = load("items:\n  - a\n  - b");
    let obj_yaml = load("items:\n  - a\n  - c");

    let diff = compute_diff(&obj_yaml, &helm_yaml).unwrap();
    let expected_diff = load("items:\n  - null\n  - c");

    assert!(deep_equal(&diff, &expected_diff));
}

#[test]
fn test_compute_diff_additional_key() {
    let helm_yaml = load("a: 1");
    let obj_yaml = load("a: 1\nb: 2");

    let diff = compute_diff(&obj_yaml, &helm_yaml).unwrap();
    let expected_diff = load("b: 2");

    assert!(deep_equal(&diff, &expected_diff));
}

#[test]
fn test_compute_diff_missing_key() {
    let helm_yaml = load("a: 1\nb: 2");
    let obj_yaml = load("a: 1");

    // Only the keys of the candidate are compared, so nothing differs.
    let diff = compute_diff(&obj_yaml, &helm_yaml);
    assert!(diff.is_none());
}

#[test]
fn test_diff_and_common_multiple_identical() {
    let yaml1 = load("a: 1\nb: 2");
    let yaml2 = load("a: 1\nb: 2");
    let objs = vec![&yaml1, &yaml2];

    let (base, diffs) = diff_and_common_multiple(&objs, 51, 100);

    assert!(base.is_some());
    let expected_base = load("a: 1\nb: 2");
    assert!(deep_equal(base.as_ref().unwrap(), &expected_base));

    assert!(diffs.iter().all(|d| d.is_none()));
}

#[test]
fn test_diff_and_common_multiple_different() {
    let yaml1 = load("a: 1\nb: 2");
    let yaml2 = load("a: 1\nb: 3");
    let objs = vec![&yaml1, &yaml2];

    let (base, diffs) = diff_and_common_multiple(&objs, 51, 100);

    assert!(base.is_some());
    let expected_base = load("a: 1");
    assert!(deep_equal(base.as_ref().unwrap(), &expected_base));

    let expected_diffs = [load("b: 2"), load("b: 3")];

    for (diff, expected_diff) in diffs.iter().zip(expected_diffs.iter()) {
        assert!(diff.is_some());
        assert!(deep_equal(diff.as_ref().unwrap(), expected_diff));
    }
}

#[test]
fn test_diff_and_common_multiple_three_files_quorum_66() {
    let yaml1 = load("a: 1\nb: 2\nc: 3");
    let yaml2 = load("a: 1\nb: 2\nc: 4");
    let yaml3 = load("a: 1\nb: 5\nc: 3");
    let objs = vec![&yaml1, &yaml2, &yaml3];

    let (base, diffs) = diff_and_common_multiple(&objs, 66, 100);

    assert!(base.is_some());
    let expected_base = load("a: 1\nb: 2\nc: 3");
    assert!(deep_equal(base.as_ref().unwrap(), &expected_base));

    let expected_diffs = [None, Some(load("c: 4")), Some(load("b: 5"))];

    for (diff, expected_diff) in diffs.iter().zip(expected_diffs.iter()) {
        match expected_diff {
            Some(expected) => {
                assert!(diff.is_some());
                assert!(deep_equal(diff.as_ref().unwrap(), expected));
            }
            None => assert!(diff.is_none()),
        }
    }
}

#[test]
fn test_arrays_with_base() {
    let yaml1 = load(NESTED_ENV);
    let yaml2 = load(NESTED_ENV);
    let yaml3 = load(NESTED_ENV_CHANGED);

    let objs = vec![&yaml1, &yaml2, &yaml3];
    let (base, diffs) = diff_and_common_multiple(&objs, 51, 100);

    assert!(base.is_some());
    let expected_base = load(NESTED_ENV);
    assert!(deep_equal(base.as_ref().unwrap(), &expected_base));

    let expected_diffs = [None, None, Some(load(NESTED_ENV_CHANGED))];

    for (diff, expected_diff) in diffs.iter().zip(expected_diffs.iter()) {
        match expected_diff {
            Some(expected) => {
                assert!(diff.is_some());
                assert!(deep_equal(diff.as_ref().unwrap(), expected));
            }
            None => assert!(diff.is_none()),
        }
    }
}
