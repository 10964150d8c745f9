use yabe::deep_equal::deep_equal;
use yabe::diff::{compute_diff, diff_and_common_multiple};
use yabe::Value;
use yaml_rust2::{Yaml, YamlLoader};

fn from_yaml(y: &Yaml) -> Value {
    match y {
        Yaml::Real(s) => Value::Real(s.clone()),
        Yaml::Integer(i) => Value::Integer(*i),
        Yaml::String(s) => Value::String(s.clone()),
        Yaml::Boolean(b) => Value::Boolean(*b),
        Yaml::Array(a) => Value::Sequence(a.iter().map(from_yaml).collect()),
        Yaml::Hash(h) => {
            Value::Mapping(h.iter().map(|(k, v)| (from_yaml(k), from_yaml(v))).collect())
        }
        _ => Value::Null,
    }
}

fn load(text: &str) -> Value {
    let docs = YamlLoader::load_from_str(text).unwrap();
    from_yaml(&docs.into_iter().next().unwrap_or(Yaml::Null))
}

#[test]
fn test_empty_documents() {
    let yaml1 = load("");
    let yaml2 = load("");

    assert!(deep_equal(&yaml1, &yaml2));

    let diff = compute_diff(&yaml1, &yaml2);
    assert!(diff.is_none());

    let objs = vec![&yaml1, &yaml2];
    let (base, diffs) = diff_and_common_multiple(&objs, 51, 100);

    assert!(base.is_some());
    assert!(deep_equal(base.as_ref().unwrap(), &Value::Null));
    assert!(diffs.iter().all(|d| d.is_none()));
}

#[test]
fn test_different_types_same_key() {
    let yaml1 = load("key: value");
    let yaml2 = load("key:\n  subkey: value");

    let objs = vec![&yaml1, &yaml2];
    let (base, diffs) = diff_and_common_multiple(&objs, 51, 100);

    assert!(base.is_none());

    let expected_diffs = [load("key: value"), load("key:\n  subkey: value")];

    for (diff, expected_diff) in diffs.iter().zip(expected_diffs.iter()) {
        assert!(diff.is_some());
        assert!(deep_equal(diff.as_ref().unwrap(), expected_diff));
    }
}

#[test]
fn test_quorum_base_determination() {
    let yaml1 = load("key: value1");
    let yaml2 = load("key: value1");
    let yaml3 = load("key: value2");
    let objs = vec![&yaml1, &yaml2, &yaml3];

    let (base, diffs) = diff_and_common_multiple(&objs, 66, 100);

    assert!(base.is_some());
    let expected_base = load("key: value1");
    assert!(deep_equal(base.as_ref().unwrap(), &expected_base));

    assert!(diffs[2].is_some());
    let expected_diff = load("key: value2");
    assert!(deep_equal(diffs[2].as_ref().unwrap(), &expected_diff));
}

#[test]
fn test_recursive_diff_with_nested_structures() {
    let yaml1 = load("a:\n  b:\n    c: 1\n    f: 2");
    let yaml2 = load("a:\n  b:\n    c: 1\n    e: 2");
    let yaml3 = load("a:\n  b:\n    c: 1\n    d: 2");
    let objs = vec![&yaml1, &yaml2, &yaml3];

    let (base, diffs) = diff_and_common_multiple(&objs, 51, 100);

    let expected_base = load("a:\n  b:\n    c: 1");
    assert!(base.is_some());
    assert!(deep_equal(base.as_ref().unwrap(), &expected_base));

    let expected_diffs_strs = [
        "a:\n  b:\n    f: 2",
        "a:\n  b:\n    e: 2",
        "a:\n  b:\n    d: 2",
    ];
    for (diff, expected_diff_str) in diffs.iter().zip(expected_diffs_strs.iter()) {
        let expected_diff = load(expected_diff_str);
        assert!(diff.is_some());
        assert!(deep_equal(diff.as_ref().unwrap(), &expected_diff));
    }
}
