use c4::formats::parse_csv;
use c4::table::convert;
use c4::{parse_table, Error, TableLayout, Value};

/// The outside parsers as the command line wires them: floats through
/// `str::parse::<f64>` (f32 rounding through single precision).
fn hook(kind: &str, text: &str) -> Option<Value> {
    match kind {
        "f64" => text.parse::<f64>().ok().map(|f| Value::Float(f.to_bits())),
        "f32" => text
            .parse::<f64>()
            .ok()
            .map(|f| Value::Float(((f as f32) as f64).to_bits())),
        _ => None,
    }
}

fn load_csv(text: &str) -> Result<Value, Error> {
    parse_csv(text, &TableLayout::Kv, "string:0", true, &hook)
}

fn csv_leaf(row: &str, key: &str) -> Value {
    let value = load_csv(row).unwrap();
    value.get(key).expect("key must be present").clone()
}

fn assert_row_error(text: &str, want: usize) {
    match load_csv(text) {
        Err(Error::Table { row, .. }) => assert_eq!(row, want, "row for {text:?}"),
        other => panic!("expected Error::Table for {text:?}, got {other:?}"),
    }
}

fn s(x: &str) -> Value {
    Value::String(x.into())
}

fn kv_rows(rows: &[[&str; 2]], dot_key: bool) -> Value {
    let rows = rows
        .iter()
        .map(|row| row.iter().map(|cell| cell.to_string()).collect())
        .collect();
    parse_table(rows, &TableLayout::Kv, "mem", dot_key, &hook).unwrap()
}

fn at<'a>(v: &'a Value, path: &[&str]) -> &'a Value {
    let mut cur = v;
    for p in path {
        cur = match p.parse::<usize>() {
            Ok(i) => cur.get_index(i).expect("index must be present"),
            Err(_) => cur.get(p).expect("key must be present"),
        };
    }
    cur
}

#[test]
fn array_splits_flat_and_auto_types_each_element() {
    // custom separator; elements go through the shared auto detection
    assert_eq!(
        csv_leaf("tags,a|b|c,array|", "tags"),
        Value::Array(vec![s("a"), s("b"), s("c")])
    );
    // default separator is `,` (quoted so the outer csv keeps one field)
    assert_eq!(
        csv_leaf("nums,\"1,2,3\",array", "nums"),
        Value::Array(vec![Value::Int(1), Value::Int(2), Value::Int(3)])
    );
}

#[test]
fn array_empty_cell_is_empty_array() {
    assert_eq!(csv_leaf("x,,array", "x"), Value::Array(vec![]));
}

#[test]
fn array_with_a_per_element_format() {
    // `array|u8`: every element parsed as u8 (not the auto-guessed i64)
    assert_eq!(
        csv_leaf("lvls,3|5|8,array|u8", "lvls"),
        Value::Array(vec![Value::Uint(3), Value::Uint(5), Value::Uint(8)])
    );
    // `str` keeps the digits as strings
    assert_eq!(
        csv_leaf("ids,1|2|3,array|str", "ids"),
        Value::Array(vec![s("1"), s("2"), s("3")])
    );
}

#[test]
fn array_element_out_of_range_errors() {
    assert_row_error("a,1|999,array|u8", 1);
}

#[test]
fn i128_and_u128_typed_cells() {
    // 128-bit is explicit-only; full-width values round-trip
    assert_eq!(
        csv_leaf("a,170141183460469231731687303715884105727,i128", "a"),
        Value::Int128(i128::MAX)
    );
    assert_eq!(
        csv_leaf("a,340282366920938463463374607431768211455,u128", "a"),
        Value::Uint128(u128::MAX)
    );
    assert_eq!(csv_leaf("a,-5,i128", "a"), Value::Int128(-5));
    // a value past the declared type's range is an error
    assert_row_error("a,340282366920938463463374607431768211455,i128", 1);
}

#[test]
fn auto_never_widens_past_u64() {
    // an integer beyond u64 stays a float under auto
    assert!(matches!(
        csv_leaf("a,340282366920938463463374607431768211455", "a"),
        Value::Float(_)
    ));
}

#[test]
fn explicit_bool_accepts_loose_tokens() {
    for t in ["true", "TRUE", "t", "yes", "Y", "on", "1"] {
        assert_eq!(csv_leaf(&format!("a,{t},bool"), "a"), Value::Bool(true), "true token {t}");
    }
    for f in ["false", "False", "f", "no", "N", "off", "0"] {
        assert_eq!(csv_leaf(&format!("a,{f},bool"), "a"), Value::Bool(false), "false token {f}");
    }
    // an unrecognized token in a bool cell errors
    assert_row_error("a,maybe,bool", 1);
}

#[test]
fn auto_bool_is_strict_case_insensitive() {
    // auto accepts only the words true/false (any case) — not yes/on/1
    assert_eq!(csv_leaf("a,True", "a"), Value::Bool(true));
    assert_eq!(csv_leaf("a,FALSE", "a"), Value::Bool(false));
    assert_eq!(csv_leaf("a,yes", "a"), s("yes"));
    assert_eq!(csv_leaf("a,1", "a"), Value::Int(1));
}

#[test]
fn dt_is_a_typed_value() {
    assert_eq!(
        csv_leaf("born,2024-01-02T03:04:05Z,dt", "born"),
        Value::DateTime("2024-01-02T03:04:05Z".into())
    );
}

#[test]
fn date_is_a_typed_value() {
    assert_eq!(csv_leaf("d,2024-01-02,date", "d"), Value::Date("2024-01-02".into()));
}

#[test]
fn time_is_a_typed_value() {
    assert_eq!(csv_leaf("t,03:04:05,time", "t"), Value::Time("03:04:05".into()));
}

#[test]
fn ipv4_is_a_typed_value() {
    assert_eq!(csv_leaf("ip4,10.0.0.1,ipv4", "ip4"), Value::Ipv4(0x0a00_0001));
}

#[test]
fn ipv6_is_a_typed_value() {
    assert_eq!(csv_leaf("ip6,::1,ipv6", "ip6"), Value::Ipv6(1));
}

#[test]
fn inet_parses_either_ip_family() {
    assert_eq!(csv_leaf("a,10.0.0.1,inet", "a"), Value::Ipv4(0x0a00_0001));
    assert_eq!(csv_leaf("a,::1,inet", "a"), Value::Ipv6(1));
}

#[test]
fn inet_with_netmask_keeps_host_bits() {
    // PostgreSQL inet: optional netmask, host bits below it allowed
    assert_eq!(csv_leaf("a,10.0.0.1/24,inet", "a"), Value::Inet("10.0.0.1/24".into()));
    assert_row_error("a,10.0.0.1/33,inet", 1);
}

#[test]
fn cidr_is_a_typed_value() {
    assert_eq!(csv_leaf("a,10.0.0.0/8,cidr", "a"), Value::Cidr("10.0.0.0/8".into()));
    // the netmask is optional — a bare address is a full-length network
    assert_eq!(csv_leaf("a,10.1.2.3,cidr", "a"), Value::Cidr("10.1.2.3".into()));
}

#[test]
fn cidr_rejects_host_bits_below_the_mask() {
    // valid inet, but not a cidr network
    assert_row_error("a,10.0.0.1/24,cidr", 1);
}

#[test]
fn bad_cidr_prefix_reports_row() {
    assert_row_error("a,10.0.0.0/33,cidr", 1);
}

#[test]
fn auto_guesses_masked_forms() {
    // proper networks are cidr, addresses with host bits set fall to
    // inet; bare hosts stay ipv4/ipv6
    assert_eq!(csv_leaf("a,10.0.0.0/8", "a"), Value::Cidr("10.0.0.0/8".into()));
    assert_eq!(csv_leaf("a,10.0.0.1/24", "a"), Value::Inet("10.0.0.1/24".into()));
    assert_eq!(csv_leaf("a,10.0.0.1", "a"), Value::Ipv4(0x0a00_0001));
}

#[test]
fn macaddr_is_a_typed_value() {
    assert_eq!(
        csv_leaf("a,aa:bb:cc:dd:ee:ff,macaddr", "a"),
        Value::MacAddr("aa:bb:cc:dd:ee:ff".into())
    );
    assert_eq!(
        csv_leaf("a,aa-bb-cc-dd-ee-ff,macaddr", "a"),
        Value::MacAddr("aa-bb-cc-dd-ee-ff".into())
    );
}

#[test]
fn explicit_macaddr_accepts_postgres_forms() {
    for form in [
        "08:00:2b:01:02:03",
        "08-00-2b-01-02-03",
        "08002b:010203",
        "08002b-010203",
        "0800.2b01.0203",
        "0800-2b01-0203",
        "08002b010203",
    ] {
        assert_eq!(
            csv_leaf(&format!("a,{form},macaddr"), "a"),
            Value::MacAddr(form.into()),
            "form {form}"
        );
    }
    for bad in ["08002b:0102", "08:00-2b:01:02:03", "0800:2b01:0203"] {
        assert_row_error(&format!("a,{bad},macaddr"), 1);
    }
}

#[test]
fn explicit_macaddr8_accepts_postgres_forms() {
    for form in [
        "08:00:2b:01:02:03:04:05",
        "08002b:0102030405",
        "08002b01:02030405",
        "0800.2b01.0203.0405",
        "08002b0102030405",
    ] {
        assert_eq!(
            csv_leaf(&format!("a,{form},macaddr8"), "a"),
            Value::MacAddr8(form.into()),
            "form {form}"
        );
    }
}

#[test]
fn auto_only_guesses_pair_form_macs() {
    assert_eq!(csv_leaf("a,08002b:010203", "a"), s("08002b:010203"));
}

#[test]
fn macaddr8_is_a_typed_value() {
    assert_eq!(
        csv_leaf("a,aa:bb:cc:dd:ee:ff:00:11,macaddr8", "a"),
        Value::MacAddr8("aa:bb:cc:dd:ee:ff:00:11".into())
    );
}

#[test]
fn uuid_is_a_typed_value() {
    assert_eq!(
        csv_leaf("a,550e8400-e29b-41d4-a716-446655440000,uuid", "a"),
        Value::Uuid("550e8400-e29b-41d4-a716-446655440000".into())
    );
    // the explicit format also takes the bare 32-hex spelling
    assert_eq!(
        csv_leaf("a,550e8400e29b41d4a716446655440000,uuid", "a"),
        Value::Uuid("550e8400e29b41d4a716446655440000".into())
    );
}

#[test]
fn auto_only_guesses_hyphenated_uuids() {
    assert_eq!(
        csv_leaf("a,550e8400e29b41d4a716446655440000", "a"),
        s("550e8400e29b41d4a716446655440000")
    );
}

#[test]
fn auto_guesses_uuid() {
    assert_eq!(
        csv_leaf("a,550e8400-e29b-41d4-a716-446655440000", "a"),
        Value::Uuid("550e8400-e29b-41d4-a716-446655440000".into())
    );
}

#[test]
fn auto_guesses_macaddr() {
    assert_eq!(
        csv_leaf("a,aa:bb:cc:dd:ee:ff", "a"),
        Value::MacAddr("aa:bb:cc:dd:ee:ff".into())
    );
}

#[test]
fn numeric_literals_in_auto() {
    for (raw, want) in [
        ("0xff", Value::Int(255)),
        ("0b101", Value::Int(5)),
        ("0o17", Value::Int(15)),
        ("-0x10", Value::Int(-16)),
        ("1_000_000", Value::Int(1_000_000)),
        ("123n", Value::Int(123)),
        ("0xffn", Value::Int(255)),
        ("18_446_744_073_709_551_615", Value::Uint(u64::MAX)),
        // leading-zero decimals still stay strings
        ("007", s("007")),
        // misplaced separators are not numbers
        ("1__0", s("1__0")),
        ("_1", s("_1")),
        ("1_", s("1_")),
    ] {
        assert_eq!(csv_leaf(&format!("a,{raw}"), "a"), want, "raw {raw}");
    }
}

#[test]
fn numeric_literals_in_explicit_types() {
    assert_eq!(csv_leaf("a,0x10,u8", "a"), Value::Uint(16));
    assert_eq!(csv_leaf("a,1_000,i64", "a"), Value::Int(1000));
    assert_eq!(csv_leaf("a,1_000.5,f64", "a"), Value::Float(1000.5f64.to_bits()));
    assert_eq!(csv_leaf("a,0xff,f64", "a"), Value::Float(255.0f64.to_bits()));
}

#[test]
fn auto_guesses_dt() {
    assert_eq!(
        csv_leaf("when,2024-01-02T03:04:05Z", "when"),
        Value::DateTime("2024-01-02T03:04:05Z".into())
    );
}

#[test]
fn auto_guesses_date() {
    assert_eq!(csv_leaf("day,2024-01-02", "day"), Value::Date("2024-01-02".into()));
}

#[test]
fn auto_guesses_time() {
    assert_eq!(csv_leaf("at,03:04:05", "at"), Value::Time("03:04:05".into()));
}

#[test]
fn auto_guesses_ipv4() {
    assert_eq!(csv_leaf("a,1.1.1.1", "a"), Value::Ipv4(0x0101_0101));
}

#[test]
fn auto_guesses_ipv6() {
    assert_eq!(
        csv_leaf("a,2001:db8::1", "a"),
        Value::Ipv6(0x2001_0db8_0000_0000_0000_0000_0000_0001)
    );
}

#[test]
fn bad_dt_reports_row() {
    assert_row_error("when,tomorrow,datetime", 1);
}

#[test]
fn bad_ipv4_reports_row() {
    assert_row_error("ip,10.0.0.999,ipv4", 1);
}

#[test]
fn bad_cell_reports_row() {
    // 999 does not fit i8; no header, so the bad row is row 1
    assert_row_error("a,999,i8", 1);
}

#[test]
fn array_type_id_needs_no_feature() {
    let rows = vec![vec!["tags".to_string(), "a|b|c".to_string(), "array|".to_string()]];
    let value = parse_table(rows, &TableLayout::Kv, "mem", true, &hook).unwrap();
    assert_eq!(
        value.get("tags").unwrap(),
        &Value::Array(vec![s("a"), s("b"), s("c")])
    );
}

#[test]
fn kv_index_keys_build_a_sorted_array() {
    let value = kv_rows(&[["a[0].b", "1"], ["a[2].c", "3"], ["a[1].c", "2"]], true);
    assert_eq!(at(&value, &["a"]).as_array().unwrap().len(), 3);
    assert_eq!(at(&value, &["a", "0", "b"]).as_i64(), Some(1));
    assert_eq!(at(&value, &["a", "1", "c"]).as_i64(), Some(2));
    assert_eq!(at(&value, &["a", "2", "c"]).as_i64(), Some(3));
}

#[test]
fn kv_append_keys_push_one_element_per_row() {
    let value = kv_rows(
        &[
            ["ports[]", "80"],
            ["ports[]", "443"],
            ["servers[].host", "a"],
            ["servers[].host", "b"],
        ],
        true,
    );
    assert_eq!(
        at(&value, &["ports"]),
        &Value::Array(vec![Value::Int(80), Value::Int(443)])
    );
    // each `[]` occurrence appends — two rows give two elements
    assert_eq!(at(&value, &["servers"]).as_array().unwrap().len(), 2);
    assert_eq!(at(&value, &["servers", "0", "host"]).as_str(), Some("a"));
    assert_eq!(at(&value, &["servers", "1", "host"]).as_str(), Some("b"));
}

#[test]
fn kv_same_index_deep_merges_into_one_element() {
    let value = kv_rows(&[["a[0].b", "1"], ["a[0].c", "2"]], true);
    assert_eq!(at(&value, &["a"]).as_array().unwrap().len(), 1);
    assert_eq!(at(&value, &["a", "0", "b"]).as_i64(), Some(1));
    assert_eq!(at(&value, &["a", "0", "c"]).as_i64(), Some(2));
}

#[test]
fn kv_index_gaps_stay_null() {
    // skipped indexes leave Null gaps: a[1] + a[4] → 5 elements
    let value = kv_rows(&[["a[1]", "1"], ["a[4]", "4"]], true);
    assert_eq!(
        at(&value, &["a"]),
        &Value::Array(vec![
            Value::Null,
            Value::Int(1),
            Value::Null,
            Value::Null,
            Value::Int(4),
        ])
    );
    // leading zeros parse as the same index
    let value = kv_rows(&[["b[01]", "5"]], true);
    assert_eq!(at(&value, &["b", "1"]).as_i64(), Some(5));
    assert!(at(&value, &["b", "0"]).is_null());
}

#[test]
fn kv_chained_suffixes_nest_arrays() {
    // each suffix is one nesting level: m[1][2] → {m: [null, [null, null, 9]]}
    let value = kv_rows(&[["m[1][2]", "9"]], true);
    assert!(at(&value, &["m", "0"]).is_null());
    assert_eq!(at(&value, &["m", "1", "2"]).as_i64(), Some(9));
    // g[][] appends a new inner array per occurrence
    let value = kv_rows(&[["g[][]", "1"], ["g[][]", "2"]], true);
    assert_eq!(at(&value, &["g", "0", "0"]).as_i64(), Some(1));
    assert_eq!(at(&value, &["g", "1", "0"]).as_i64(), Some(2));
    // h[0][] appends inside element 0
    let value = kv_rows(&[["h[0][]", "1"], ["h[0][]", "2"]], true);
    assert_eq!(at(&value, &["h", "0", "0"]).as_i64(), Some(1));
    assert_eq!(at(&value, &["h", "0", "1"]).as_i64(), Some(2));
    // chains keep walking the dotted path
    let value = kv_rows(&[["m[0][0].v", "5"]], true);
    assert_eq!(at(&value, &["m", "0", "0", "v"]).as_i64(), Some(5));
}

#[test]
fn kv_suffixes_chain_through_the_path() {
    let value = kv_rows(&[["a[0].b[].c", "1"], ["a[0].b[].c", "2"]], true);
    assert_eq!(at(&value, &["a", "0", "b", "0", "c"]).as_i64(), Some(1));
    assert_eq!(at(&value, &["a", "0", "b", "1", "c"]).as_i64(), Some(2));
}

#[test]
fn only_valid_suffix_shapes_make_arrays() {
    for key in [
        "[]",
        "[3]",
        "[0][1]", // no base name
        "a[x]",
        "a[-1]",
        "a[]b",
        "a[1]x[2]", // groups must run back-to-back to the end
        "a[[1]]",
        "a[99999999999999999999]", // does not fit usize
    ] {
        let value = kv_rows(&[[key, "1"]], true);
        // the whole segment stays a literal object key
        assert_eq!(value.get(key).and_then(|v| v.as_i64()), Some(1), "key {key:?}");
    }
}

#[test]
fn dot_key_off_keeps_array_suffixes_literal() {
    let value = kv_rows(&[["a[].b", "1"], ["a[0]", "2"]], false);
    assert_eq!(value.get("a[].b").and_then(|v| v.as_i64()), Some(1));
    assert_eq!(value.get("a[0]").and_then(|v| v.as_i64()), Some(2));
}

#[test]
fn array_kind_collisions_later_row_wins() {
    // an array suffix over a non-array replaces it with an array
    let value = kv_rows(&[["a.b", "1"], ["a[]", "2"]], true);
    assert_eq!(at(&value, &["a"]), &Value::Array(vec![Value::Int(2)]));
    // a plain segment descending into an array replaces it with an object
    let value = kv_rows(&[["a[]", "1"], ["a.b", "2"]], true);
    assert_eq!(at(&value, &["a", "b"]).as_i64(), Some(2));
}

#[test]
fn db_append_columns_push_per_record() {
    let rows: Vec<Vec<String>> = vec![
        vec!["a[].b".into(), "a[].c".into()],
        vec![String::new(), String::new()], // type row: all auto
        vec!["1".into(), "2".into()],
        vec!["3".into(), "4".into()],
    ];
    let value = parse_table(rows, &TableLayout::Db, "mem", true, &hook).unwrap();
    // each record grows its own array — one element per `[]` column
    assert_eq!(at(&value, &["0", "a", "0", "b"]).as_i64(), Some(1));
    assert_eq!(at(&value, &["0", "a", "1", "c"]).as_i64(), Some(2));
    assert_eq!(at(&value, &["1", "a", "0", "b"]).as_i64(), Some(3));
    assert_eq!(at(&value, &["1", "a", "1", "c"]).as_i64(), Some(4));
}

// ---- further cases of the table stage ----

#[test]
fn scalar_types_and_aliases_convert() {
    assert_eq!(csv_leaf("a,-128,i8", "a"), Value::Int(-128));
    assert_row_error("a,128,i8", 1);
    assert_eq!(csv_leaf("a,65535,u16", "a"), Value::Uint(65535));
    assert_eq!(csv_leaf("a,-7,int", "a"), Value::Int(-7));
    assert_eq!(csv_leaf("a,7,uint", "a"), Value::Uint(7));
    assert_row_error("a,-1,uint", 1);
    assert_eq!(csv_leaf("a,1.5,number", "a"), Value::Float(1.5f64.to_bits()));
    assert_eq!(csv_leaf("a,0.1,f32", "a"), Value::Float(((0.1f64 as f32) as f64).to_bits()));
    assert_eq!(csv_leaf("a,42,text", "a"), s("42"));
    assert_eq!(csv_leaf("a,yes,boolean", "a"), Value::Bool(true));
    assert_eq!(csv_leaf("a,anything,null", "a"), Value::Null);
    assert_eq!(csv_leaf("a,2024-01-02,auto", "a"), Value::Date("2024-01-02".into()));
}

#[test]
fn unknown_type_is_a_row_error_with_its_message() {
    match load_csv("k,v,str\nx,1,nope") {
        Err(Error::Table { path, row, message }) => {
            assert_eq!(path, "string:0");
            assert_eq!(row, 2);
            assert_eq!(message, "unknown or disabled type 'nope'");
        }
        other => panic!("expected a table error, got {other:?}"),
    }
    match load_csv("x,300,u8") {
        Err(Error::Table { message, .. }) => assert_eq!(message, "'300' is not a valid u8"),
        other => panic!("expected a table error, got {other:?}"),
    }
}

#[test]
fn blank_rows_skip_and_a_lone_key_errors() {
    let v = load_csv("a,1\n,,\nb,2").unwrap();
    assert_eq!(v.get("a"), Some(&Value::Int(1)));
    assert_eq!(v.get("b"), Some(&Value::Int(2)));
    assert_row_error("a,1\nlonely", 2);
}

#[test]
fn keys_and_format_cells_are_trimmed_values_are_not() {
    let v = load_csv(" a , x ,  str ").unwrap();
    assert_eq!(v.get("a"), Some(&s(" x ")));
}

#[test]
fn later_rows_override_and_objects_merge() {
    let v = load_csv("a.b,1\na.c,2\na.b,3").unwrap();
    assert_eq!(at(&v, &["a", "b"]).as_i64(), Some(3));
    assert_eq!(at(&v, &["a", "c"]).as_i64(), Some(2));
}

#[test]
fn db_layout_records_and_type_row() {
    let rows: Vec<Vec<String>> = vec![
        vec![],
        vec!["id".into(), "name".into(), "".into()],
        vec!["u8".into(), "".into()],
        vec!["1".into(), "sword".into(), "ignored".into()],
        vec![],
        vec!["2".into(), "".into()],
    ];
    let value = parse_table(rows, &TableLayout::Db, "mem", true, &hook).unwrap();
    let items = value.as_array().unwrap();
    assert_eq!(items.len(), 2);
    assert_eq!(at(&value, &["0", "id"]), &Value::Uint(1));
    assert_eq!(at(&value, &["0", "name"]), &s("sword"));
    // empty cells are left out of their record
    assert_eq!(value.get_index(1).unwrap().get("name"), None);
    // a grid with only its keys row is an empty array
    let rows: Vec<Vec<String>> = vec![vec!["id".into()]];
    assert_eq!(parse_table(rows, &TableLayout::Db, "mem", true, &hook).unwrap(), Value::Array(vec![]));
}

#[test]
fn db_type_row_is_checked_up_front() {
    let rows: Vec<Vec<String>> = vec![
        vec!["name".into(), "c4".into(), "str".into()],
        vec!["port".into(), "8080".into(), "u16".into()],
    ];
    match parse_table(rows, &TableLayout::Db, "mem", true, &hook) {
        Err(Error::Table { row, message, .. }) => {
            assert_eq!(row, 2);
            assert!(message.contains("kv"), "hint missing: {message}");
        }
        other => panic!("expected a table error, got {other:?}"),
    }
}

#[test]
fn db_bad_record_reports_its_row() {
    let rows: Vec<Vec<String>> = vec![
        vec!["n".into()],
        vec!["u8".into()],
        vec!["1".into()],
        vec!["999".into()],
    ];
    match parse_table(rows, &TableLayout::Db, "mem", true, &hook) {
        Err(Error::Table { row, .. }) => assert_eq!(row, 4),
        other => panic!("expected a table error, got {other:?}"),
    }
}

#[test]
fn convert_and_auto_directly() {
    assert_eq!(convert("12", "i16", true, &hook).unwrap(), Value::Int(12));
    assert_eq!(convert("x", "i16", true, &hook).unwrap_err(), "'x' is not a valid i16");
    assert_eq!(convert("1", "array|json", true, &hook).unwrap_err(), "unknown or disabled type 'array|json'");
    assert_eq!(c4::table::auto("1.5e3", &hook), Value::Float(1500.0f64.to_bits()));
    assert_eq!(c4::table::auto("-0", &hook), Value::Int(0));
    assert_eq!(c4::table::auto("1.2.3", &hook), s("1.2.3"));
    assert_eq!(c4::table::auto("", &hook), s(""));
}

#[test]
fn quoted_csv_cells_keep_their_commas() {
    let v = load_csv("\"a,b\",1").unwrap();
    assert_eq!(v.get("a,b"), Some(&Value::Int(1)));
}

#[test]
fn relaxed_numeric_forms_in_explicit_types() {
    let cell = |value: &str, ty: &str| -> Value {
        let rows = vec![vec!["k".to_string(), value.to_string(), ty.to_string()]];
        let v = parse_table(rows, &TableLayout::Kv, "doc", true, &hook).unwrap();
        v.get("k").unwrap().clone()
    };

    assert_eq!(cell("1,000.1", "f64"), Value::Float(1000.1f64.to_bits()));
    assert_eq!(cell("10 234 345.111", "f64"), Value::Float(10_234_345.111f64.to_bits()));
    assert_eq!(cell("$123.12", "f64"), Value::Float(123.12f64.to_bits()));
    assert_eq!(cell("€99", "i64"), Value::Int(99));
    assert_eq!(cell("£1,000", "u64"), Value::Uint(1000));
    assert_eq!(cell("¥1,234", "i32"), Value::Int(1234));
    assert_eq!(cell("-$5", "i8"), Value::Int(-5));
    // fullwidth digits
    assert_eq!(cell("１２３", "i64"), Value::Int(123));
    // the standard literal forms still win first
    assert_eq!(cell("0xff", "u8"), Value::Uint(255));
    // a fraction still fails an integer id after cleaning
    let rows = vec![vec!["k".to_string(), "1,000.5".to_string(), "i64".to_string()]];
    assert!(parse_table(rows, &TableLayout::Kv, "doc", true, &hook).is_err());

    // auto never runs the relaxed pass — it stays a string
    let rows = vec![vec!["k".to_string(), "1,000.1".to_string()]];
    let v = parse_table(rows, &TableLayout::Kv, "doc", true, &hook).unwrap();
    assert_eq!(v.get("k"), Some(&Value::String("1,000.1".into())));
}

#[test]
fn csv_cell_kv_layout_yields_an_object() {
    let value = load_csv("sub,\"a,1\nb,2\",\"csv,kv\"").unwrap();
    let sub = value.get("sub").unwrap();
    assert_eq!(sub.get("a"), Some(&Value::Int(1)));
    assert_eq!(sub.get("b"), Some(&Value::Int(2)));
}

#[test]
fn csv_cell_db_layout_yields_records() {
    let value = load_csv("recs,\"a,b\ni64,i64\n1,2\",\"csv,db\"").unwrap();
    let first = value.get("recs").unwrap().get_index(0).unwrap();
    assert_eq!(first.get("a"), Some(&Value::Int(1)));
    assert_eq!(first.get("b"), Some(&Value::Int(2)));
}

#[test]
fn csv_cell_custom_separator() {
    let value = load_csv("m,\"a;1\nb;2\",csv;kv").unwrap();
    let m = value.get("m").unwrap();
    assert_eq!(m.get("a"), Some(&Value::Int(1)));
    assert_eq!(m.get("b"), Some(&Value::Int(2)));
}

#[test]
fn csv_cell_unknown_layout_is_unknown_type() {
    assert_row_error("m,x,\"csv,nope\"", 1);
}

#[test]
fn csv_layout_is_positional_after_the_separator() {
    assert_row_error("m,x,csvdb", 1);
}

#[test]
fn csv_non_ascii_separator_is_unknown_type() {
    assert_row_error("m,x,\"csv｜kv\"", 1);
}

#[test]
fn csv_cell_defaults_to_comma_and_kv() {
    let value = load_csv("m,\"a,1\",csv").unwrap();
    assert_eq!(value.get("m").unwrap().get("a"), Some(&Value::Int(1)));
}

#[test]
fn csv_cell_inner_error_names_the_inner_row() {
    match load_csv("x,1\nm,\"a,1\nb,300,u8\",csv") {
        Err(Error::Table { row, message, .. }) => {
            assert_eq!(row, 2);
            assert_eq!(message, "csv cell row 2: '300' is not a valid u8");
        }
        other => panic!("expected a table error, got {other:?}"),
    }
}

#[test]
fn csv_cells_nest() {
    // the inner document's own row names a `csv;kv` cell
    let value = load_csv("outer,\"inner,k;7,csv;kv\",csv").unwrap();
    let inner = value.get("outer").unwrap().get("inner").unwrap();
    assert_eq!(inner.get("k"), Some(&Value::Int(7)));
}

#[test]
fn csv_cell_unknown_type_message() {
    assert_eq!(
        convert("x", "csv,nope", true, &hook).unwrap_err(),
        "unknown or disabled type 'csv,nope'"
    );
}
