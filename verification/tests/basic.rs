use c4::loader::{claimed_format, extension_map, Claim};
use c4::merge::deep_merge;
use c4::value::well_formed;
use c4::Value;

fn obj(entries: &[(&str, Value)]) -> Value {
    // entries given in ascending key order
    Value::Object(entries.iter().map(|(k, v)| (k.to_string(), v.clone())).collect())
}

fn s(x: &str) -> Value {
    Value::String(x.into())
}

#[test]
fn format_ids_derive_from_values() {
    assert_eq!(Value::Null.format_id(), "null");
    assert_eq!(Value::Bool(true).format_id(), "bool");
    assert_eq!(Value::Int(1).format_id(), "i64");
    assert_eq!(Value::Uint(1).format_id(), "u64");
    assert_eq!(Value::Int128(1).format_id(), "i128");
    assert_eq!(Value::Uint128(1).format_id(), "u128");
    assert_eq!(Value::Float(1.5f64.to_bits()).format_id(), "f64");
    assert_eq!(Value::String("x".into()).format_id(), "str");
    assert_eq!(
        Value::Array(vec![Value::Int(1), Value::Int(2)]).format_id(),
        "arr:i64"
    );
    // mixed, nested and empty arrays are just "arr"
    assert_eq!(
        Value::Array(vec![Value::Int(1), Value::String("x".into())]).format_id(),
        "arr"
    );
    assert_eq!(Value::Array(vec![]).format_id(), "arr");
}

#[test]
fn format_ids_of_typed_values() {
    assert_eq!(Value::Ipv4(1).format_id(), "ipv4");
    assert_eq!(Value::Date("2024-01-02".into()).format_id(), "date");
    assert_eq!(Value::Uuid("x".into()).format_id(), "uuid");
    assert_eq!(obj(&[]).format_id(), "object");
    assert_eq!(Value::Array(vec![obj(&[])]).format_id(), "arr");
    assert_eq!(
        Value::Array(vec![Value::Array(vec![Value::Int(1)])]).format_id(),
        "arr"
    );
}

#[test]
fn accessors_convert_leaves() {
    let v = obj(&[
        ("db", obj(&[("host", s("localhost")), ("port", Value::Uint(5432))])),
        ("port", Value::Int(8080)),
    ]);
    assert_eq!(v.get("db").and_then(|d| d.get("host")).and_then(|h| h.as_str()), Some("localhost"));
    assert_eq!(v.get("db").and_then(|d| d.get("port")).and_then(|p| p.as_u64()), Some(5432));
    assert_eq!(v.get("port").and_then(|p| p.as_i64()), Some(8080));
    assert_eq!(v.get("nope"), None);
    assert_eq!(s("x").get("x"), None);
    assert!(Value::Null.is_null());
    assert_eq!(Value::Int(-1).as_u64(), None);
    assert_eq!(Value::Uint(u64::MAX).as_i64(), None);
    assert_eq!(Value::Uint128(7).as_u64(), Some(7));
    assert_eq!(Value::Int128(i128::MAX).as_i128(), Some(i128::MAX));
    assert_eq!(Value::Int(-3).as_u128(), None);
    assert_eq!(Value::Bool(true).as_bool(), Some(true));
    assert_eq!(Value::Cidr("10.0.0.0/8".into()).as_str(), Some("10.0.0.0/8"));
    assert_eq!(v.as_object().map(|o| o.len()), Some(2));
    let arr = Value::Array(vec![Value::Int(1)]);
    assert_eq!(arr.get_index(0), Some(&Value::Int(1)));
    assert_eq!(arr.get_index(1), None);
    assert_eq!(arr.as_array().map(|a| a.len()), Some(1));
}

#[test]
fn clone_is_a_deep_copy() {
    let v = obj(&[("a", Value::Array(vec![obj(&[("b", s("c"))])]))]);
    assert_eq!(v.clone(), v);
    assert_eq!(v.deep_copy(), v);
}

#[test]
fn objects_merge_deeply_and_later_wins() {
    let target = obj(&[
        ("a", obj(&[("x", Value::Int(1)), ("y", Value::Int(2))])),
        ("keep", s("t")),
    ]);
    let incoming = obj(&[
        ("a", obj(&[("y", Value::Int(20)), ("z", Value::Int(30))])),
        ("new", s("i")),
    ]);
    let merged = deep_merge(target, incoming);
    assert_eq!(
        merged,
        obj(&[
            ("a", obj(&[("x", Value::Int(1)), ("y", Value::Int(20)), ("z", Value::Int(30))])),
            ("keep", s("t")),
            ("new", s("i")),
        ])
    );
}

#[test]
fn arrays_and_scalars_replace() {
    let target = obj(&[("a", Value::Array(vec![Value::Int(1), Value::Int(2)]))]);
    let incoming = obj(&[("a", Value::Array(vec![Value::Int(3)]))]);
    assert_eq!(deep_merge(target, incoming), obj(&[("a", Value::Array(vec![Value::Int(3)]))]));
    // a scalar over an object replaces it, and an object over a scalar too
    assert_eq!(deep_merge(obj(&[("a", Value::Int(1))]), Value::Int(5)), Value::Int(5));
    assert_eq!(deep_merge(Value::Int(5), obj(&[("a", Value::Int(1))])), obj(&[("a", Value::Int(1))]));
}

#[test]
fn error_texts() {
    let e = c4::Error::Table { path: "a.csv".into(), row: 12, message: "bad".into() };
    assert_eq!(e.to_text(), "a.csv row 12: bad");
    let e = c4::Error::Parse { path: "x.ini".into(), message: "oops".into() };
    assert_eq!(e.to_text(), "x.ini: oops");
    assert_eq!(c4::Error::NotFound("cfg".into()).to_text(), "source not found: cfg");
    assert_eq!(c4::Error::Io("denied".into()).to_text(), "io error: denied");
    assert_eq!(c4::Error::Deserialize("m".into()).to_text(), "deserialize error: m");
    assert_eq!(c4::Error::Unsupported("u".into()).to_text(), "unsupported: u");
}

#[test]
fn well_formed_values_have_ascending_keys() {
    let good = Value::Object(vec![("a".into(), Value::Int(1)), ("b".into(), Value::Array(vec![Value::Null]))]);
    assert!(well_formed(&good));
    let unsorted = Value::Object(vec![("b".into(), Value::Int(1)), ("a".into(), Value::Int(2))]);
    assert!(!well_formed(&unsorted));
    let twice = Value::Object(vec![("a".into(), Value::Int(1)), ("a".into(), Value::Int(2))]);
    assert!(!well_formed(&twice));
    let nested = Value::Array(vec![unsorted]);
    assert!(!well_formed(&nested));
}

#[test]
fn enabled_formats_put_jsonc_after_json() {
    let specs: Vec<(Claim, Vec<String>)> = c4::options::enabled_formats()
        .into_iter()
        .map(|f| (Claim::Builtin(f), f.default_extensions()))
        .collect();
    let map = extension_map(&specs);
    assert_eq!(claimed_format("app.json", &map), Some(Claim::Builtin(c4::Format::Jsonc)));
    assert_eq!(claimed_format("book.xlsx", &map), Some(Claim::Builtin(c4::Format::Excel)));
}

#[test]
fn indexing_reads_null_where_nothing_is() {
    let v = obj(&[("db", obj(&[("port", Value::Int(5432))])), ("list", Value::Array(vec![s("a")]))]);
    assert_eq!(v["db"]["port"], Value::Int(5432));
    assert_eq!(v["nope"], Value::Null);
    assert_eq!(v["db"]["nope"]["deeper"], Value::Null);
    assert_eq!(v["list"][0], s("a"));
    assert_eq!(v["list"][1], Value::Null);
    assert_eq!(v[0], Value::Null);
}

#[test]
fn merging_the_same_value_twice_changes_nothing() {
    let t = || obj(&[("a", Value::Int(1)), ("b", obj(&[("c", Value::Int(2))]))]);
    let v = || obj(&[("b", obj(&[("d", Value::Array(vec![Value::Int(3)]))])), ("e", s("x"))]);
    let once = deep_merge(t(), v());
    let twice = deep_merge(deep_merge(t(), v()), v());
    assert_eq!(once, twice);
    assert_eq!(deep_merge(v(), v()), v());
}
