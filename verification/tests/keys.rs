use c4::keys::{insert_key, split_segment, ArrayPart};
use c4::Value;

fn obj(entries: &[(&str, Value)]) -> Value {
    Value::Object(entries.iter().map(|(k, v)| (k.to_string(), v.clone())).collect())
}

fn chars(s: &str) -> Vec<char> {
    s.chars().collect()
}

#[test]
fn segments_split_into_name_and_suffixes() {
    let (name, parts) = split_segment(&chars("a[1][]")).unwrap();
    assert_eq!(name, chars("a"));
    assert_eq!(parts, vec![ArrayPart::Index(1), ArrayPart::Append]);
    assert_eq!(split_segment(&chars("plain")), None);
    assert_eq!(split_segment(&chars("[1]")), None);
    assert_eq!(split_segment(&chars("a[1]b")), None);
    assert_eq!(split_segment(&chars("a[18446744073709551615]")), None);
    let (_, parts) = split_segment(&chars("a[007]")).unwrap();
    assert_eq!(parts, vec![ArrayPart::Index(7)]);
}

#[test]
fn dotted_keys_nest_objects() {
    let mut root = obj(&[]);
    insert_key(&mut root, "a.b.c", Value::Int(1), true);
    assert_eq!(root, obj(&[("a", obj(&[("b", obj(&[("c", Value::Int(1))]))]))]));
    insert_key(&mut root, "a.b.d", Value::Int(2), true);
    assert_eq!(
        root,
        obj(&[("a", obj(&[("b", obj(&[("c", Value::Int(1)), ("d", Value::Int(2))]))]))])
    );
}

#[test]
fn without_dot_key_the_key_is_literal() {
    let mut root = obj(&[]);
    insert_key(&mut root, "a.b", Value::Int(1), false);
    assert_eq!(root, obj(&[("a.b", Value::Int(1))]));
}

#[test]
fn a_plain_key_inserts_the_same_either_way() {
    let mut on = obj(&[("x", obj(&[("k", Value::Int(1))]))]);
    let mut off = on.clone();
    insert_key(&mut on, "x", obj(&[("j", Value::Int(2))]), true);
    insert_key(&mut off, "x", obj(&[("j", Value::Int(2))]), false);
    assert_eq!(on, off);
    assert_eq!(on, obj(&[("x", obj(&[("j", Value::Int(2)), ("k", Value::Int(1))]))]));
}

#[test]
fn inserting_into_a_scalar_root_replaces_it() {
    let mut root = Value::Int(3);
    insert_key(&mut root, "a[]", Value::Bool(true), true);
    assert_eq!(root, obj(&[("a", Value::Array(vec![Value::Bool(true)]))]));
}
