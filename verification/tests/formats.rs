use c4::formats::{csv_rows, parse_claimed, parse_env, parse_ini, parse_text, table_source_error, unquote};
use c4::loader::Claim;
use c4::{Error, Format, TableLayout, Value};

fn s(x: &str) -> Value {
    Value::String(x.into())
}

fn obj(entries: &[(&str, Value)]) -> Value {
    Value::Object(entries.iter().map(|(k, v)| (k.to_string(), v.clone())).collect())
}

#[test]
fn env_keys_take_array_suffixes() {
    let value = parse_env("A[]=1\nA[]=2\nB[0].C=x", true);
    let a = value.get("A").unwrap();
    assert_eq!(a.get_index(0).and_then(|v| v.as_str()), Some("1")); // env values stay strings
    assert_eq!(a.get_index(1).and_then(|v| v.as_str()), Some("2"));
    let b0 = value.get("B").and_then(|b| b.get_index(0)).unwrap();
    assert_eq!(b0.get("C").and_then(|v| v.as_str()), Some("x"));
}

#[test]
fn env_lines_comments_exports_and_quotes() {
    let text = "# a comment\n\nexport NAME=\"c4 app\"\nPORT = 8080\r\nQUOTE='x'\nnot a pair\n=nokey\nMIXED=\"a'\n";
    let value = parse_env(text, true);
    assert_eq!(
        value,
        obj(&[
            ("MIXED", s("\"a'")),
            ("NAME", s("c4 app")),
            ("PORT", s("8080")),
            ("QUOTE", s("x")),
        ])
    );
}

#[test]
fn env_dotted_keys_follow_dot_key() {
    assert_eq!(parse_env("a.b=1", true), obj(&[("a", obj(&[("b", s("1"))]))]));
    assert_eq!(parse_env("a.b=1", false), obj(&[("a.b", s("1"))]));
    assert_eq!(parse_env("", true), obj(&[]));
}

#[test]
fn unquote_strips_one_matching_pair() {
    let c = |x: &str| x.chars().collect::<Vec<char>>();
    assert_eq!(unquote(&c("\"x\"")), c("x"));
    assert_eq!(unquote(&c("'x'")), c("x"));
    assert_eq!(unquote(&c("\"x'")), c("\"x'"));
    assert_eq!(unquote(&c("\"")), c("\""));
    assert_eq!(unquote(&c("\"\"")), c(""));
}

#[test]
fn ini_sections_nest_one_level() {
    let text = "; comment\ntop = 1\n[db]\nhost = localhost\nport=5432\n# another\n[empty]\n";
    let value = parse_ini(text, "x.ini").unwrap();
    assert_eq!(
        value,
        obj(&[
            ("db", obj(&[("host", s("localhost")), ("port", s("5432"))])),
            ("top", s("1")),
        ])
    );
}

#[test]
fn ini_bad_line_is_a_parse_error() {
    match parse_ini("a = 1\njunk\n", "x.ini") {
        Err(Error::Parse { path, message }) => {
            assert_eq!(path, "x.ini");
            assert_eq!(message, "line 2: expected 'key = value' or '[section]'");
        }
        other => panic!("expected a parse error, got {other:?}"),
    }
}

#[test]
fn ini_section_named_like_a_key_keeps_the_key() {
    let value = parse_ini("a = 1\n[a]\nb = 2\n", "x.ini").unwrap();
    assert_eq!(value, obj(&[("a", s("1"))]));
}

fn no_cells(_kind: &str, _text: &str) -> Option<c4::Value> {
    None
}

#[test]
fn text_formats_dispatch() {
    let kv = TableLayout::Kv;
    assert_eq!(parse_text(Format::Json, "1", &kv, "p", true, &no_cells).unwrap(), Value::Int(1));
    assert_eq!(
        parse_text(Format::Toml, "a = 1", &kv, "p", true, &no_cells).unwrap(),
        obj(&[("a", Value::Int(1))])
    );
    match parse_text(Format::Yaml, "a: [1", &kv, "p", true, &no_cells) {
        Err(Error::Parse { path, message }) => {
            assert_eq!(path, "p");
            assert!(!message.is_empty());
        }
        other => panic!("unexpected {other:?}"),
    }
    match parse_text(Format::Excel, "x", &kv, "string:0", true, &no_cells) {
        Err(Error::Parse { message, .. }) => {
            assert_eq!(message, "'excel' is a binary format \u{2014} file sources only")
        }
        other => panic!("unexpected {other:?}"),
    }
    let env = parse_text(Format::Env, "A=1", &kv, "p", true, &no_cells).unwrap();
    assert_eq!(env.get("A"), Some(&Value::String("1".into())));
    let csv = parse_text(Format::Csv, "a,1", &kv, "p", true, &no_cells).unwrap();
    assert_eq!(csv.get("a"), Some(&Value::Int(1)));
    assert!(matches!(
        parse_text(Format::Csv, "a,x,u8", &kv, "p", true, &no_cells),
        Err(Error::Table { row: 1, .. })
    ));
}

#[test]
fn table_source_requires_a_table_format() {
    assert_eq!(
        table_source_error(Format::Toml, None),
        Some("'toml' is not a table format (csv, excel, ods)".to_string())
    );
    assert_eq!(table_source_error(Format::Excel, Some("items")), None);
    assert_eq!(table_source_error(Format::Csv, None), None);
}

#[test]
fn csv_source_cannot_name_a_sheet() {
    assert_eq!(
        table_source_error(c4::Format::Csv, Some("sheet1")),
        Some("csv sources cannot name a sheet (got 'sheet1'; did you mean a layout \u{2014} kv, db?)".to_string())
    );
}

#[test]
fn custom_claims_go_to_the_user_parser() {
    let user = |i: usize, t: &str, p: &str| -> Result<Value, Error> { Ok(Value::String(format!("{i}:{t}:{p}"))) };
    let kv = TableLayout::Kv;
    assert_eq!(parse_claimed(Claim::Custom(3), "x", &kv, "p", true, &no_cells, &user).unwrap(), s("3:x:p"));
    assert_eq!(
        parse_claimed(Claim::Builtin(Format::Env), "A=1", &kv, "p", true, &no_cells, &user).unwrap(),
        obj(&[("A", s("1"))])
    );
    let failing = |_: usize, _: &str, p: &str| -> Result<Value, Error> {
        Err(Error::Parse { path: p.to_string(), message: "nope".into() })
    };
    assert!(matches!(
        parse_claimed(Claim::Custom(0), "x", &kv, "q", true, &no_cells, &failing),
        Err(Error::Parse { .. })
    ));
}

#[test]
fn csv_rows_hand_over_the_raw_rows() {
    let rows = csv_rows("a,b\nc\n\"x,y\",z", b',').unwrap();
    assert_eq!(rows, vec![vec!["a", "b"], vec!["c"], vec!["x,y", "z"]]);
    assert_eq!(csv_rows("a;b", b';').unwrap(), vec![vec!["a", "b"]]);
}
