use c4::cli::{csv_escape, flatten, quote_if_needed, resolve_format, OutFormat};
use c4::Value;

fn obj(entries: &[(&str, Value)]) -> Value {
    Value::Object(entries.iter().map(|(k, v)| (k.to_string(), v.clone())).collect())
}

#[test]
fn format_flag_wins_over_output_extension() {
    assert_eq!(resolve_format(Some("yaml"), Some("json")), Ok(OutFormat::Yaml));
    assert_eq!(resolve_format(Some("jsonc"), None), Ok(OutFormat::Json));
    assert_eq!(
        resolve_format(Some("xml"), None),
        Err("unknown output format 'xml'".to_string())
    );
}

#[test]
fn output_extension_decides_else_debug() {
    assert_eq!(resolve_format(None, Some("YML")), Ok(OutFormat::Yaml));
    assert_eq!(resolve_format(None, Some("toml")), Ok(OutFormat::Toml));
    assert_eq!(resolve_format(None, Some("debug")), Ok(OutFormat::Debug));
    assert_eq!(resolve_format(None, Some("txt")), Ok(OutFormat::Debug));
    assert_eq!(resolve_format(None, None), Ok(OutFormat::Debug));
    assert_eq!(OutFormat::from_id("yml"), None);
    assert_eq!(OutFormat::from_extension("yml"), Some(OutFormat::Yaml));
}

#[test]
fn env_values_are_quoted_when_needed() {
    assert_eq!(quote_if_needed("plain"), "plain");
    assert_eq!(quote_if_needed(""), "\"\"");
    assert_eq!(quote_if_needed("two words"), "\"two words\"");
    assert_eq!(quote_if_needed("a#b"), "\"a#b\"");
    assert_eq!(quote_if_needed("say \"hi\""), "\"say \\\"hi\\\"\"");
    assert_eq!(quote_if_needed("back\\slash"), "back\\slash");
    assert_eq!(quote_if_needed("it's \\"), "\"it's \\\\\"");
}

#[test]
fn csv_cells_are_quoted_when_needed() {
    assert_eq!(csv_escape("plain"), "plain");
    assert_eq!(csv_escape("a,b"), "\"a,b\"");
    assert_eq!(csv_escape("say \"hi\""), "\"say \"\"hi\"\"\"");
    assert_eq!(csv_escape("two\nlines"), "\"two\nlines\"");
}

#[test]
fn nested_objects_flatten_to_dotted_keys() {
    let v = obj(&[
        ("a", obj(&[("b", Value::Int(1)), ("c", obj(&[("d", Value::Bool(true))]))])),
        ("e", Value::Array(vec![Value::Int(2)])),
    ]);
    let flat = flatten(&v);
    let keys: Vec<&str> = flat.iter().map(|(k, _)| k.as_str()).collect();
    assert_eq!(keys, vec!["a.b", "a.c.d", "e"]);
    assert_eq!(flat[1].1, Value::Bool(true));
    assert_eq!(flatten(&Value::Int(5)), vec![(String::new(), Value::Int(5))]);
    assert_eq!(flatten(&obj(&[])), vec![]);
}
