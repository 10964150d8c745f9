use yabe::deep_equal::deep_equal;
use yabe::diff::{compute_diff, diff_and_common_multiple};
use yabe::merge::merge_yaml;
use yabe::sorter::{array_sorter, hash_sorter, sort_yaml};
use yabe::Value;

fn s(text: &str) -> Value {
    Value::String(text.to_string())
}

fn integer(i: i64) -> Value {
    Value::Integer(i)
}

fn map(entries: Vec<(&str, Value)>) -> Value {
    Value::Mapping(entries.into_iter().map(|(k, v)| (s(k), v)).collect())
}

fn seq(items: Vec<Value>) -> Value {
    Value::Sequence(items)
}

#[test]
fn deep_equal_is_reflexive_and_symmetric() {
    let a = map(vec![("a", integer(1)), ("b", seq(vec![s("x"), Value::Null]))]);
    let b = map(vec![("b", seq(vec![s("x"), Value::Null])), ("a", integer(1))]);
    let c = map(vec![("a", integer(1)), ("b", seq(vec![Value::Null, s("x")]))]);
    assert!(deep_equal(&a, &a));
    assert!(deep_equal(&a, &b));
    assert!(deep_equal(&b, &a));
    assert!(!deep_equal(&a, &c));
    assert!(!deep_equal(&c, &a));
}

#[test]
fn deep_equal_never_crosses_variants() {
    assert!(!deep_equal(&integer(1), &s("1")));
    assert!(!deep_equal(&Value::Real("1.0".to_string()), &integer(1)));
    assert!(!deep_equal(&Value::Real("1.0".to_string()), &Value::Real("1.00".to_string())));
    assert!(!deep_equal(&seq(vec![]), &Value::Mapping(vec![])));
}

#[test]
fn compute_diff_of_value_with_itself_is_none() {
    let a = map(vec![("a", integer(1)), ("b", seq(vec![integer(1), integer(2)]))]);
    assert!(compute_diff(&a, &a).is_none());
    assert!(compute_diff(&integer(3), &integer(3)).is_none());
    assert!(compute_diff(&Value::Null, &Value::Null).is_none());
}

#[test]
fn compute_diff_reports_changed_key() {
    let obj = map(vec![("a", integer(1)), ("b", integer(3))]);
    let helm = map(vec![("a", integer(1)), ("b", integer(2))]);
    assert_eq!(compute_diff(&obj, &helm), Some(map(vec![("b", integer(3))])));
}

#[test]
fn compute_diff_pads_unchanged_positions_with_null() {
    let obj = map(vec![("items", seq(vec![s("a"), s("b")]))]);
    let helm = map(vec![("items", seq(vec![s("a"), s("c")]))]);
    assert_eq!(
        compute_diff(&obj, &helm),
        Some(map(vec![("items", seq(vec![Value::Null, s("b")]))]))
    );
}

#[test]
fn compute_diff_sequences_of_different_length_are_whole() {
    let obj = seq(vec![integer(1), integer(2), integer(3)]);
    let helm = seq(vec![integer(1), integer(2)]);
    assert_eq!(compute_diff(&obj, &helm), Some(seq(vec![integer(1), integer(2), integer(3)])));
}

#[test]
fn compute_diff_type_mismatch_is_whole() {
    assert_eq!(compute_diff(&integer(1), &s("1")), Some(integer(1)));
    let obj = map(vec![("a", integer(1))]);
    assert_eq!(compute_diff(&obj, &seq(vec![])), Some(map(vec![("a", integer(1))])));
}

#[test]
fn consensus_three_documents() {
    let d1 = map(vec![("a", integer(1)), ("b", integer(2)), ("c", integer(3))]);
    let d2 = map(vec![("a", integer(1)), ("b", integer(2)), ("c", integer(4))]);
    let d3 = map(vec![("a", integer(1)), ("b", integer(5)), ("c", integer(3))]);
    let (base, diffs) = diff_and_common_multiple(&[&d1, &d2, &d3], 66, 100);
    assert_eq!(base, Some(map(vec![("a", integer(1)), ("b", integer(2)), ("c", integer(3))])));
    assert_eq!(diffs, vec![None, Some(map(vec![("c", integer(4))])), Some(map(vec![("b", integer(5))]))]);
}

#[test]
fn consensus_unanimous_copies() {
    let v = integer(7);
    let (base, diffs) = diff_and_common_multiple(&[&v, &v, &v], 100, 100);
    assert_eq!(base, Some(integer(7)));
    assert_eq!(diffs, vec![None, None, None]);
}

#[test]
fn consensus_zero_quorum_distinct_values() {
    let (a, b, c) = (integer(1), integer(2), integer(3));
    let (base, diffs) = diff_and_common_multiple(&[&a, &b, &c], 0, 100);
    assert_eq!(base, Some(integer(1)));
    assert_eq!(diffs, vec![None, Some(integer(2)), Some(integer(3))]);
}

#[test]
fn consensus_mixed_variants_have_no_base() {
    let (a, b) = (integer(1), s("a"));
    let (base, diffs) = diff_and_common_multiple(&[&a, &b], 0, 100);
    assert_eq!(base, None);
    assert_eq!(diffs, vec![Some(integer(1)), Some(s("a"))]);
}

#[test]
fn consensus_of_nothing() {
    let (base, diffs) = diff_and_common_multiple(&[], 51, 100);
    assert_eq!(base, None);
    assert!(diffs.is_empty());
}

#[test]
fn consensus_below_quorum_reports_everything() {
    let (a, b, c) = (s("x"), s("x"), s("y"));
    let (base, diffs) = diff_and_common_multiple(&[&a, &b, &c], 100, 100);
    assert_eq!(base, None);
    assert_eq!(diffs, vec![Some(s("x")), Some(s("x")), Some(s("y"))]);
}

#[test]
fn consensus_suppresses_null_without_base() {
    let d1 = map(vec![("a", integer(1)), ("b", integer(2))]);
    let d2 = map(vec![("a", integer(1))]);
    let (base, diffs) = diff_and_common_multiple(&[&d1, &d2], 51, 100);
    assert_eq!(base, Some(map(vec![("a", integer(1))])));
    assert_eq!(diffs, vec![Some(map(vec![("b", integer(2))])), None]);
}

#[test]
fn merge_override_not_mapping_wins() {
    let base = map(vec![("a", integer(1))]);
    let over = seq(vec![integer(1), integer(2)]);
    assert_eq!(merge_yaml(&base, &over), seq(vec![integer(1), integer(2)]));
    assert_eq!(merge_yaml(&integer(5), &s("x")), s("x"));
    assert_eq!(merge_yaml(&seq(vec![integer(1)]), &seq(vec![integer(2)])), seq(vec![integer(2)]));
}

#[test]
fn merge_mappings_key_by_key() {
    let base = map(vec![("a", integer(1)), ("b", map(vec![("x", integer(1))]))]);
    let over = map(vec![("b", map(vec![("y", integer(2))])), ("c", integer(3))]);
    assert_eq!(
        merge_yaml(&base, &over),
        map(vec![
            ("a", integer(1)),
            ("b", map(vec![("x", integer(1)), ("y", integer(2))])),
            ("c", integer(3)),
        ])
    );
}

#[test]
fn sort_is_idempotent() {
    let config = map(vec![
        ("preOrder", seq(vec![s("name"), integer(4)])),
        ("sortKey", s("name")),
    ]);
    let doc = map(vec![
        ("z", seq(vec![map(vec![("name", s("b"))]), integer(1), map(vec![("name", s("a"))])])),
        ("name", s("n")),
        ("b", map(vec![("y", integer(1)), ("x", integer(2))])),
    ]);
    let once = sort_yaml(&doc, &config);
    let twice = sort_yaml(&once, &config);
    assert_eq!(once, twice);
    assert_eq!(
        once,
        map(vec![
            ("name", s("n")),
            ("b", map(vec![("x", integer(2)), ("y", integer(1))])),
            ("z", seq(vec![map(vec![("name", s("a"))]), map(vec![("name", s("b"))]), integer(1)])),
        ])
    );
}

#[test]
fn sort_without_config_changes_nothing() {
    let doc = map(vec![("b", integer(1)), ("a", seq(vec![integer(2), integer(1)]))]);
    assert_eq!(sort_yaml(&doc, &Value::Null), map(vec![("b", integer(1)), ("a", seq(vec![integer(2), integer(1)]))]));
    let bad = map(vec![("preOrder", s("oops")), ("sortKey", integer(3))]);
    assert_eq!(sort_yaml(&doc, &bad), map(vec![("b", integer(1)), ("a", seq(vec![integer(2), integer(1)]))]));
}

#[test]
fn hash_sorter_orders_keys() {
    let mut entries = vec![
        (s("b"), integer(1)),
        (s("kind"), integer(2)),
        (integer(10), integer(3)),
        (s("a"), integer(4)),
        (Value::Null, integer(5)),
        (Value::Boolean(true), integer(6)),
        (integer(2), integer(7)),
    ];
    hash_sorter(&mut entries, &vec!["kind".to_string(), "missing".to_string()]);
    assert_eq!(
        entries,
        vec![
            (s("kind"), integer(2)),
            (integer(2), integer(7)),
            (integer(10), integer(3)),
            (s("a"), integer(4)),
            (s("b"), integer(1)),
            (Value::Boolean(true), integer(6)),
            (Value::Null, integer(5)),
        ]
    );
}

#[test]
fn array_sorter_is_stable_and_puts_missing_last() {
    let mut items = vec![
        map(vec![("id", integer(1))]),
        map(vec![("name", s("b"))]),
        map(vec![("name", s("B"))]),
        integer(9),
        map(vec![("name", s("ab"))]),
        map(vec![("name", s("a"))]),
    ];
    array_sorter(&mut items, "name");
    assert_eq!(
        items,
        vec![
            map(vec![("name", s("B"))]),
            map(vec![("name", s("a"))]),
            map(vec![("name", s("ab"))]),
            map(vec![("name", s("b"))]),
            map(vec![("id", integer(1))]),
            integer(9),
        ]
    );
}

#[test]
fn hash_sorter_orders_composite_keys_by_content() {
    let mut entries = vec![
        (map(vec![("b", integer(1))]), integer(1)),
        (seq(vec![integer(2)]), integer(2)),
        (map(vec![("a", integer(9))]), integer(3)),
        (seq(vec![integer(1), integer(5)]), integer(4)),
        (seq(vec![integer(1)]), integer(5)),
        (map(vec![("a", integer(2))]), integer(6)),
    ];
    hash_sorter(&mut entries, &vec![]);
    assert_eq!(
        entries,
        vec![
            (seq(vec![integer(1)]), integer(5)),
            (seq(vec![integer(1), integer(5)]), integer(4)),
            (seq(vec![integer(2)]), integer(2)),
            (map(vec![("a", integer(2))]), integer(6)),
            (map(vec![("a", integer(9))]), integer(3)),
            (map(vec![("b", integer(1))]), integer(1)),
        ]
    );
}

#[test]
fn consensus_zero_denominator() {
    let (a, b) = (integer(1), integer(1));
    let (base, diffs) = diff_and_common_multiple(&[&a, &b], 1, 0);
    assert_eq!(base, None);
    assert_eq!(diffs, vec![Some(integer(1)), Some(integer(1))]);
    let (base, diffs) = diff_and_common_multiple(&[&a, &b], 0, 0);
    assert_eq!(base, Some(integer(1)));
    assert_eq!(diffs, vec![None, None]);
}
