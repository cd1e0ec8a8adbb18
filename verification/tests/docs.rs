use c4::docs::{parse_document, INF_BITS, NAN_BITS, NEG_INF_BITS};
use c4::formats::parse_csv;
use c4::{Error, Format, TableLayout, Value};

/// Floats through `str::parse::<f64>`.
fn cells(kind: &str, text: &str) -> Option<Value> {
    match kind {
        "f64" => text.parse::<f64>().ok().map(|f| Value::Float(f.to_bits())),
        _ => None,
    }
}

fn no_cells(_kind: &str, _text: &str) -> Option<Value> {
    None
}

fn obj(entries: Vec<(&str, Value)>) -> Value {
    Value::Object(entries.into_iter().map(|(k, v)| (k.to_string(), v)).collect())
}

fn s(x: &str) -> Value {
    Value::String(x.into())
}

fn float(f: f64) -> Value {
    Value::Float(f.to_bits())
}

#[test]
fn json_numbers_classify_as_i64_then_u64_then_float() {
    let v = parse_document(Format::Json, r#"{"a":1,"b":-2,"c":18446744073709551615,"d":1.5}"#, &cells).unwrap();
    assert_eq!(
        v,
        obj(vec![
            ("a", Value::Int(1)),
            ("b", Value::Int(-2)),
            ("c", Value::Uint(u64::MAX)),
            ("d", float(1.5)),
        ])
    );
}

#[test]
fn json_float_the_float_parser_refuses_is_nan() {
    let v = parse_document(Format::Json, "[2.5]", &no_cells).unwrap();
    assert_eq!(v, Value::Array(vec![Value::Float(NAN_BITS)]));
}

#[test]
fn json_document_keeps_nesting_and_sorts_keys() {
    let v = parse_document(Format::Json, r#"{"z":{"y":[true,null,"s"]},"a":"b"}"#, &cells).unwrap();
    assert_eq!(
        v,
        obj(vec![
            ("a", s("b")),
            ("z", obj(vec![("y", Value::Array(vec![Value::Bool(true), Value::Null, s("s")]))])),
        ])
    );
}

#[test]
fn strict_json_document_rejects_comments() {
    assert!(parse_document(Format::Json, "{\"a\": 1 // note\n}", &cells).is_err());
}

#[test]
fn jsonc_document_allows_comments_and_trailing_commas() {
    let v = parse_document(Format::Jsonc, "{\n  // note\n  \"a\": 1,\n  \"b\": [2, 3,],\n}", &cells).unwrap();
    assert_eq!(v, obj(vec![("a", Value::Int(1)), ("b", Value::Array(vec![Value::Int(2), Value::Int(3)]))]));
}

#[test]
fn jsonc_empty_document_is_null() {
    assert_eq!(parse_document(Format::Jsonc, "// nothing here\n", &cells).unwrap(), Value::Null);
}

#[test]
fn jsonc_number_that_is_no_float_is_an_error() {
    assert_eq!(
        parse_document(Format::Jsonc, "{\"a\": 1.5}", &no_cells),
        Err("invalid number literal: 1.5".to_string())
    );
}

#[test]
fn yaml_bool_and_number_keys_become_strings() {
    let v = parse_document(Format::Yaml, "true: 1\n2: b\nx: y\n", &cells).unwrap();
    assert_eq!(v, obj(vec![("2", s("b")), ("true", Value::Int(1)), ("x", s("y"))]));
}

#[test]
fn yaml_unsupported_key_is_an_error() {
    let err = parse_document(Format::Yaml, "[1, 2]: x\n", &cells).unwrap_err();
    assert!(err.starts_with("unsupported mapping key: "), "{err}");
}

#[test]
fn yaml_tagged_values_unwrap() {
    let v = parse_document(Format::Yaml, "a: !custom 3\n", &cells).unwrap();
    assert_eq!(v, obj(vec![("a", Value::Int(3))]));
}

#[test]
fn yaml_special_floats() {
    let v = parse_document(Format::Yaml, "a: .inf\nb: -.inf\nc: .nan\nd: 0.25\ne: 18446744073709551615\n", &cells)
        .unwrap();
    assert_eq!(
        v,
        obj(vec![
            ("a", Value::Float(INF_BITS)),
            ("b", Value::Float(NEG_INF_BITS)),
            ("c", Value::Float(NAN_BITS)),
            ("d", float(0.25)),
            ("e", Value::Uint(u64::MAX)),
        ])
    );
}

#[test]
fn toml_datetime_becomes_a_datetime() {
    let v = parse_document(Format::Toml, "when = 2024-01-02T03:04:05Z\n", &cells).unwrap();
    assert_eq!(v, obj(vec![("when", Value::DateTime("2024-01-02T03:04:05Z".into()))]));
}

#[test]
fn toml_floats_and_integers_stay_apart() {
    let v = parse_document(Format::Toml, "f = 3.0\ni = 3\n[t]\nk = \"v\"\n", &cells).unwrap();
    assert_eq!(v, obj(vec![("f", float(3.0)), ("i", Value::Int(3)), ("t", obj(vec![("k", s("v"))]))]));
}

#[test]
fn toml_syntax_error_is_an_error() {
    assert!(parse_document(Format::Toml, "a = = 1", &cells).is_err());
}

#[test]
fn other_formats_have_no_document_parser() {
    assert_eq!(
        parse_document(Format::Ini, "a = 1", &cells),
        Err("format 'ini' has no document parser".to_string())
    );
}

#[test]
fn json_cell_is_strict() {
    let err = parse_csv(r#"meta,"{""x"":1,}",json"#, &TableLayout::Kv, "string:0", true, &cells).unwrap_err();
    assert!(matches!(err, Error::Table { row: 1, .. }));
}

#[test]
fn jsonc_cell_allows_jsonc_syntax() {
    let value = parse_csv(r#"meta,"{""x"":1,} // note",jsonc"#, &TableLayout::Kv, "string:0", true, &cells).unwrap();
    assert_eq!(value.get("meta").and_then(|m| m.get("x")).and_then(|x| x.as_i64()), Some(1));
}

#[test]
fn toml_negative_nan_keeps_its_sign() {
    let v = parse_document(Format::Toml, "a = -nan\nb = inf\n", &cells).unwrap();
    assert_eq!(v["a"], Value::Float((-f64::NAN).to_bits()));
    assert_eq!(v["b"], Value::Float(f64::INFINITY.to_bits()));
}

#[test]
fn jsonc_objects_come_out_sorted_whatever_the_text_order() {
    let v = parse_document(Format::Jsonc, "{\"z\": 1, \"a\": 2, \"z\": 3}", &cells).unwrap();
    assert_eq!(v, obj(vec![("a", Value::Int(2)), ("z", Value::Int(3))]));
}
