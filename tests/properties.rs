use json_merge_patch::generate;
use json_merge_patch::value::{find_key, number_eq, values_equal, Number, Value};

fn s(text: &str) -> Value {
    Value::String(String::from(text))
}

fn num(n: u64) -> Value {
    Value::Number(Number::PosInt(n))
}

fn float(x: f64) -> Value {
    Value::Number(Number::Float(x.to_bits()))
}

fn arr(items: Vec<Value>) -> Value {
    Value::Array(items)
}

fn obj(members: Vec<(&str, Value)>) -> Value {
    Value::Object(members.into_iter().map(|(k, v)| (String::from(k), v)).collect())
}

fn member<'a>(v: &'a Value, key: &str) -> Option<&'a Value> {
    match v {
        Value::Object(es) => find_key(es, &String::from(key)).map(|i| &es[i].1),
        _ => None,
    }
}

#[test]
fn null_roots_give_a_null_patch() {
    let patch = generate(&Value::Null, &Value::Null).unwrap();
    assert!(matches!(patch, Value::Null));
}

#[test]
fn identical_scalar_roots_are_replaced() {
    let patch = generate(&s("a"), &s("a")).unwrap();
    assert!(values_equal(&patch, &s("a")));
    let patch = generate(&num(7), &num(7)).unwrap();
    assert!(values_equal(&patch, &num(7)));
}

#[test]
fn scalar_root_replaced_by_object() {
    let after = obj(vec![("a", num(1))]);
    let patch = generate(&Value::Bool(true), &after).unwrap();
    assert!(values_equal(&patch, &after));
}

#[test]
fn array_against_object_is_replaced() {
    let before = arr(vec![num(1)]);
    let after = obj(vec![("a", num(1))]);
    let patch = generate(&before, &after).unwrap();
    assert!(values_equal(&patch, &after));
}

#[test]
fn equal_containers_need_no_patch() {
    let v = obj(vec![
        ("a", obj(vec![("b", arr(vec![num(1), Value::Null]))])),
        ("c", Value::Bool(false)),
        ("d", Value::Null),
    ]);
    let w = obj(vec![
        ("d", Value::Null),
        ("c", Value::Bool(false)),
        ("a", obj(vec![("b", arr(vec![num(1), Value::Null]))])),
    ]);
    assert!(generate(&v, &w).is_none());
    assert!(generate(&arr(vec![]), &arr(vec![])).is_none());
    assert!(generate(&obj(vec![]), &obj(vec![])).is_none());
}

#[test]
fn array_order_matters() {
    let patch = generate(&arr(vec![num(1), num(2)]), &arr(vec![num(2), num(1)])).unwrap();
    assert!(values_equal(&patch, &arr(vec![num(2), num(1)])));
}

#[test]
fn change_two_levels_deep_is_merged() {
    let before = obj(vec![("a", obj(vec![("b", obj(vec![("c", num(1))])), ("x", num(5))]))]);
    let after = obj(vec![("a", obj(vec![("b", obj(vec![("c", num(2))])), ("x", num(5))]))]);
    let patch = generate(&before, &after).unwrap();
    let expected = obj(vec![("a", obj(vec![("b", obj(vec![("c", num(2))]))]))]);
    assert!(values_equal(&patch, &expected));
    assert!(member(member(&patch, "a").unwrap(), "x").is_none());
}

#[test]
fn removed_member_becomes_a_tombstone() {
    let before = obj(vec![("gone", num(1)), ("kept", obj(vec![("x", num(2))])), ("same", s("v"))]);
    let after = obj(vec![("kept", obj(vec![("x", num(2))])), ("same", s("v"))]);
    let patch = generate(&before, &after).unwrap();
    assert!(values_equal(&patch, &obj(vec![("gone", Value::Null)])));
}

#[test]
fn null_member_in_both_is_left_out() {
    let before = obj(vec![("n", Value::Null), ("a", num(1))]);
    let after = obj(vec![("n", Value::Null), ("a", num(2))]);
    let patch = generate(&before, &after).unwrap();
    assert!(member(&patch, "n").is_none());
    assert!(values_equal(&patch, &obj(vec![("a", num(2))])));
}

#[test]
fn member_set_to_null_is_a_change() {
    let before = obj(vec![("a", num(1))]);
    let after = obj(vec![("a", Value::Null)]);
    let patch = generate(&before, &after).unwrap();
    assert!(values_equal(&patch, &obj(vec![("a", Value::Null)])));
}

#[test]
fn object_member_replaced_by_scalar() {
    let before = obj(vec![("a", obj(vec![("b", num(1))]))]);
    let after = obj(vec![("a", num(3))]);
    let patch = generate(&before, &after).unwrap();
    assert!(values_equal(&patch, &obj(vec![("a", num(3))])));
}

#[test]
fn added_removed_and_changed_together() {
    let before = obj(vec![("a", num(1)), ("b", num(2)), ("c", num(3))]);
    let after = obj(vec![("b", num(2)), ("c", num(4)), ("d", num(5))]);
    let patch = generate(&before, &after).unwrap();
    let expected = obj(vec![("a", Value::Null), ("c", num(4)), ("d", num(5))]);
    assert!(values_equal(&patch, &expected));
}

#[test]
fn zeros_of_either_sign_are_equal() {
    assert!(number_eq(Number::Float(0.0f64.to_bits()), Number::Float((-0.0f64).to_bits())));
    let before = obj(vec![("z", float(0.0))]);
    let after = obj(vec![("z", float(-0.0))]);
    assert!(generate(&before, &after).is_none());
}

#[test]
fn numbers_of_different_kinds_differ() {
    assert!(!number_eq(Number::PosInt(1), Number::Float(1.0f64.to_bits())));
    assert!(!number_eq(Number::NegInt(-1), Number::Float((-1.0f64).to_bits())));
    assert!(number_eq(Number::NegInt(-3), Number::NegInt(-3)));
    let patch = generate(&obj(vec![("n", num(1))]), &obj(vec![("n", float(1.0))])).unwrap();
    assert!(values_equal(&patch, &obj(vec![("n", float(1.0))])));
}

#[test]
fn values_equal_compares_structure() {
    assert!(values_equal(&obj(vec![("a", num(1)), ("b", num(2))]), &obj(vec![("b", num(2)), ("a", num(1))])));
    assert!(!values_equal(&obj(vec![("a", num(1))]), &obj(vec![("a", num(1)), ("b", num(2))])));
    assert!(!values_equal(&obj(vec![("a", num(1)), ("b", num(2))]), &obj(vec![("a", num(1))])));
    assert!(!values_equal(&s("1"), &num(1)));
    assert!(!values_equal(&arr(vec![num(1)]), &arr(vec![num(1), num(1)])));
    assert!(values_equal(&Value::Null, &Value::Null));
}

#[test]
fn deep_copy_is_equal_and_independent() {
    let original = obj(vec![("a", arr(vec![s("x"), obj(vec![("b", Value::Bool(true))])]))]);
    let mut copy = original.deep_copy();
    assert!(values_equal(&copy, &original));
    if let Value::Object(es) = &mut copy {
        es[0].1 = Value::Null;
    }
    assert!(!values_equal(&copy, &original));
    assert!(values_equal(&original, &obj(vec![("a", arr(vec![s("x"), obj(vec![("b", Value::Bool(true))])]))])));
}

#[test]
fn find_key_locates_members() {
    let es = vec![(String::from("a"), num(1)), (String::from("b"), num(2))];
    assert_eq!(find_key(&es, &String::from("b")), Some(1));
    assert_eq!(find_key(&es, &String::from("c")), None);
}
