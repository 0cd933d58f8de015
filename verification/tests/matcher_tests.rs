use docdb::json::JsonValue;
use docdb::matcher::matches_pattern;

fn s(x: &str) -> String {
    x.to_string()
}

fn obj(pairs: Vec<(&str, JsonValue)>) -> JsonValue {
    JsonValue::Obj(pairs.into_iter().map(|(k, v)| (s(k), v)).collect())
}

fn arr(items: Vec<JsonValue>) -> JsonValue {
    JsonValue::Arr(items)
}

fn num(n: i128) -> JsonValue {
    JsonValue::Int(n)
}

#[test]
fn empty_pattern_matches_any_mapping() {
    let data = obj(vec![("a", num(1)), ("b", num(2))]);
    let empty = obj(vec![]);
    assert!(matches_pattern(&data, &empty));
    let nested = obj(vec![("x", arr(vec![num(1)]))]);
    assert!(matches_pattern(&nested, &empty));
    assert!(matches_pattern(&obj(vec![]), &empty));
}

#[test]
fn empty_pattern_rejects_non_mappings() {
    let empty = obj(vec![]);
    assert!(!matches_pattern(&num(1), &empty));
    assert!(!matches_pattern(&JsonValue::Null, &empty));
    assert!(!matches_pattern(&JsonValue::Str(s("x")), &empty));
    assert!(!matches_pattern(&arr(vec![]), &empty));
    assert!(!matches_pattern(&JsonValue::Bool(true), &empty));
}

#[test]
fn mapping_match_is_not_symmetric() {
    let small = obj(vec![("a", num(1))]);
    let big = obj(vec![("a", num(1)), ("b", num(2))]);
    assert!(matches_pattern(&big, &small));
    assert!(!matches_pattern(&small, &big));
}

#[test]
fn mapping_match_requires_key_and_value() {
    let data = obj(vec![("a", num(1))]);
    assert!(!matches_pattern(&data, &obj(vec![("a", num(2))])));
    assert!(!matches_pattern(&data, &obj(vec![("b", num(1))])));
    assert!(matches_pattern(&data, &obj(vec![("a", num(1))])));
}

#[test]
fn mapping_match_recurses() {
    let data = obj(vec![("a", obj(vec![("b", num(2)), ("c", num(3))]))]);
    assert!(matches_pattern(&data, &obj(vec![("a", obj(vec![("b", num(2))]))])));
    assert!(matches_pattern(&data, &obj(vec![("a", obj(vec![]))])));
    assert!(!matches_pattern(&data, &obj(vec![("a", obj(vec![("b", num(9))]))])));
}

#[test]
fn sequence_match_is_existential() {
    let data = arr(vec![num(1), num(2)]);
    assert!(matches_pattern(&data, &arr(vec![num(1)])));
    assert!(matches_pattern(&data, &arr(vec![num(2), num(1)])));
    assert!(!matches_pattern(&data, &arr(vec![num(3)])));
    assert!(matches_pattern(&data, &arr(vec![])));
}

#[test]
fn sequence_match_does_not_consume() {
    // one literal 1 in the data satisfies both pattern elements
    let data = arr(vec![num(1)]);
    let pattern = arr(vec![num(1), num(1)]);
    assert!(matches_pattern(&data, &pattern));
}

#[test]
fn sequence_pattern_rejects_non_sequences() {
    let pattern = arr(vec![num(1)]);
    assert!(!matches_pattern(&num(1), &pattern));
    assert!(!matches_pattern(&obj(vec![("a", num(1))]), &pattern));
}

#[test]
fn scalar_patterns_compare_by_value_and_type() {
    assert!(matches_pattern(&num(5), &num(5)));
    assert!(!matches_pattern(&num(5), &num(6)));
    assert!(matches_pattern(&JsonValue::Null, &JsonValue::Null));
    assert!(matches_pattern(&JsonValue::Bool(true), &JsonValue::Bool(true)));
    assert!(!matches_pattern(&JsonValue::Bool(true), &JsonValue::Bool(false)));
    assert!(matches_pattern(&JsonValue::Str(s("ab")), &JsonValue::Str(s("ab"))));
    assert!(!matches_pattern(&JsonValue::Str(s("ab")), &JsonValue::Str(s("ac"))));
    assert!(!matches_pattern(&num(1), &JsonValue::Bool(true)));
    assert!(!matches_pattern(&JsonValue::Str(s("1")), &num(1)));
    assert!(matches_pattern(&JsonValue::Double(42), &JsonValue::Double(42)));
    assert!(!matches_pattern(&JsonValue::Double(42), &num(42)));
}
