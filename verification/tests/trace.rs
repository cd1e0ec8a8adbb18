use c4::merge::deep_merge;
use c4::trace::{merge_traced, to_traced, untrace};
use c4::{SourceRef, TracedValue, Value};

fn obj(entries: &[(&str, Value)]) -> Value {
    Value::Object(entries.iter().map(|(k, v)| (k.to_string(), v.clone())).collect())
}

#[test]
fn labels_name_their_source() {
    assert_eq!(SourceRef::File("config/app.json".into()).label(), "config/app.json");
    assert_eq!(SourceRef::String(0).label(), "string:0");
    assert_eq!(SourceRef::Value(12).label(), "value:12");
}

#[test]
fn traced_leaves_carry_the_source() {
    let v = obj(&[("port", Value::Int(8080)), ("tags", Value::Array(vec![Value::Int(1)]))]);
    let t = to_traced(v, &SourceRef::String(0), false);
    let TracedValue::Object(entries) = &t else { panic!("root must be an object") };
    assert_eq!(entries.len(), 2);
    for (_, leaf) in entries {
        let TracedValue::Leaf { source, .. } = leaf else { panic!("must be a leaf") };
        assert_eq!(source, &SourceRef::String(0));
    }
}

#[test]
fn loading_is_tracing_minus_the_labels() {
    let a = obj(&[("db", obj(&[("host", Value::String("a".into())), ("port", Value::Int(1))]))]);
    let b = obj(&[("db", obj(&[("port", Value::Int(2))])), ("x", Value::Bool(true))]);
    let mut t = TracedValue::Object(vec![]);
    merge_traced(&mut t, a.clone(), &SourceRef::File("a.json".into()), false);
    merge_traced(&mut t, b.clone(), &SourceRef::Value(1), false);
    let plain = deep_merge(deep_merge(obj(&[]), a), b);
    assert_eq!(untrace(t), plain);
}

#[test]
fn later_source_labels_the_leaves_it_wrote() {
    let mut t = TracedValue::Object(vec![]);
    merge_traced(&mut t, obj(&[("a", Value::Int(1)), ("b", Value::Int(2))]), &SourceRef::String(0), false);
    merge_traced(&mut t, obj(&[("b", Value::Int(3))]), &SourceRef::String(1), false);
    let TracedValue::Object(entries) = &t else { panic!() };
    let find = |k: &str| entries.iter().find(|(key, _)| key == k).map(|(_, v)| v).unwrap();
    assert_eq!(
        find("a"),
        &TracedValue::Leaf { value: Value::Int(1), source: SourceRef::String(0) }
    );
    assert_eq!(
        find("b"),
        &TracedValue::Leaf { value: Value::Int(3), source: SourceRef::String(1) }
    );
}

#[test]
fn case_insensitive_merge_folds_keys() {
    let mut t = TracedValue::Object(vec![]);
    merge_traced(&mut t, obj(&[("Port", Value::Int(1))]), &SourceRef::String(0), true);
    merge_traced(&mut t, obj(&[("PORT", Value::Int(2))]), &SourceRef::String(1), true);
    assert_eq!(untrace(t), obj(&[("port", Value::Int(2))]));
}
