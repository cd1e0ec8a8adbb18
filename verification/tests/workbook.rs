use c4::loader::{absorb, keyed_by_file, nest, tree_file_action, Claim, FileAction};
use c4::trace::{SourceRef, TracedValue};
use c4::workbook::{pick_sheets, combine_sheets, fold_value, has_sheet, merge_folded, order_sheet_names, select_sheets, sheet_key};
use c4::{Format, Order, Value};

fn obj(entries: Vec<(&str, Value)>) -> Value {
    let mut es: Vec<(String, Value)> = entries.into_iter().map(|(k, v)| (k.to_string(), v)).collect();
    es.sort_by(|a, b| a.0.cmp(&b.0));
    Value::Object(es)
}

fn names(v: &[&str]) -> Vec<String> {
    v.iter().map(|s| s.to_string()).collect()
}

#[test]
fn sheets_are_selected_in_workbook_order() {
    let meta = vec![
        ("config".to_string(), true, true),
        ("_notes".to_string(), true, true),
        ("#draft".to_string(), true, true),
        ("secret".to_string(), true, false),
        ("chart".to_string(), false, true),
        ("b".to_string(), true, true),
    ];
    assert_eq!(select_sheets(&meta, true, true), names(&["config", "b"]));
    assert_eq!(select_sheets(&meta, false, true), names(&["config", "secret", "b"]));
    assert_eq!(select_sheets(&meta, true, false), names(&["config", "_notes", "#draft", "b"]));
    assert!(has_sheet(&meta, "secret"));
    assert!(has_sheet(&meta, "chart"));
    assert!(!has_sheet(&meta, "missing"));
}

#[test]
fn sheet_names_sort_for_merging() {
    assert_eq!(order_sheet_names(names(&["b", "a", "c"]), Order::FoldersFirstAlphabetic), names(&["a", "b", "c"]));
    assert_eq!(order_sheet_names(names(&["b", "a", "c"]), Order::Alphabetic), names(&["a", "b", "c"]));
    assert_eq!(order_sheet_names(names(&["b", "a", "c"]), Order::ReverseAlphabetic), names(&["c", "b", "a"]));
}

#[test]
fn merged_sheets_override_in_order_and_skip_null() {
    let sheets = vec![
        ("a".to_string(), obj(vec![("x", Value::Int(1)), ("y", Value::Int(1))])),
        ("b".to_string(), Value::Null),
        ("c".to_string(), obj(vec![("y", Value::Int(2))])),
    ];
    let v = combine_sheets(sheets, false, true, false);
    assert_eq!(v, obj(vec![("x", Value::Int(1)), ("y", Value::Int(2))]));
    assert_eq!(combine_sheets(vec![("a".to_string(), Value::Null)], false, true, false), Value::Null);
    assert_eq!(combine_sheets(vec![], false, true, false), Value::Null);
}

#[test]
fn keyed_sheets_nest_under_their_names() {
    let sheets = vec![
        ("c".to_string(), obj(vec![("k1", Value::String("v1".into()))])),
        ("a.b".to_string(), Value::Int(3)),
    ];
    let v = combine_sheets(sheets, true, true, false);
    assert_eq!(
        v,
        obj(vec![
            ("a", obj(vec![("b", Value::Int(3))])),
            ("c", obj(vec![("k1", Value::String("v1".into()))])),
        ])
    );
    assert_eq!(combine_sheets(vec![], true, true, false), Value::Null);
    assert_eq!(sheet_key("s", Value::Int(1), true), obj(vec![("s", Value::Int(1))]));
}

#[test]
fn case_folding_merge_lowercases_incoming_keys() {
    let target = obj(vec![("port", Value::Int(1))]);
    let incoming = obj(vec![("PORT", Value::Int(2)), ("Name", obj(vec![("X", Value::Int(3))]))]);
    let v = merge_folded(target, incoming, true);
    assert_eq!(v, obj(vec![("name", obj(vec![("x", Value::Int(3))])), ("port", Value::Int(2))]));
    // two keys that fold together: the later one wins
    let twice = obj(vec![("A", Value::Int(1)), ("a", Value::Int(2))]);
    assert_eq!(fold_value(twice, true), obj(vec![("a", Value::Int(2))]));
    let kept = obj(vec![("A", Value::Int(1))]);
    assert_eq!(fold_value(obj(vec![("A", Value::Int(1))]), false), kept);
}

#[test]
fn sources_nest_under_their_folder_keys_and_null_adds_nothing() {
    let prefix = names(&["a", "b"]);
    assert_eq!(nest(&prefix, Value::Int(1)), obj(vec![("a", obj(vec![("b", Value::Int(1))]))]));
    let mut root = TracedValue::Object(vec![]);
    absorb(&mut root, Value::Null, &prefix, &SourceRef::String(0), false);
    assert_eq!(root, TracedValue::Object(vec![]));
    absorb(&mut root, obj(vec![("k", Value::Int(7))]), &names(&["Dir"]), &SourceRef::Value(1), true);
    let TracedValue::Object(top) = &root else { panic!("object expected") };
    assert_eq!(top[0].0, "dir");
    assert_eq!(
        keyed_by_file("app.json", Value::Int(1)),
        obj(vec![("app", Value::Int(1))])
    );
}

#[test]
fn tree_mode_file_actions() {
    let map = vec![("json".to_string(), Claim::Builtin(Format::Json))];
    assert_eq!(tree_file_action("a.json", &map, true, true), FileAction::Parse(Claim::Builtin(Format::Json)));
    assert_eq!(tree_file_action("VERSION", &map, true, true), FileAction::Auto);
    assert_eq!(tree_file_action("VERSION", &map, false, true), FileAction::Skip);
    assert_eq!(tree_file_action("a.txt", &map, true, true), FileAction::Skip);
    assert_eq!(tree_file_action("a.txt", &map, true, false), FileAction::Reject);
}

#[test]
fn without_folding_the_sheet_merge_is_the_plain_merge() {
    let a = || obj(vec![("x", obj(vec![("y", Value::Int(1))])), ("z", Value::Bool(true))]);
    let b = || obj(vec![("x", obj(vec![("w", Value::Int(2))])), ("z", Value::Array(vec![]))]);
    assert_eq!(merge_folded(a(), b(), false), c4::merge::deep_merge(a(), b()));
}

#[test]
fn unknown_extensions_error_when_strict() {
    // with ignore_unknown_ext off, a file no format claims is refused
    // (the loader reports it as a parse error) instead of skipped
    let map = vec![("json".to_string(), Claim::Builtin(Format::Json)), ("yaml".to_string(), Claim::Builtin(Format::Yaml))];
    assert_eq!(tree_file_action("notes.txt", &map, true, false), FileAction::Reject);
    assert_eq!(tree_file_action("notes.txt", &map, true, true), FileAction::Skip);
}

#[test]
fn picking_sheets() {
    let meta = vec![
        ("b".to_string(), true, true),
        ("_wip".to_string(), true, true),
        ("a".to_string(), true, true),
        ("hidden".to_string(), true, false),
    ];
    assert_eq!(pick_sheets(Some("_wip"), &meta, true, true, false, Order::Alphabetic), Ok(names(&["_wip"])));
    assert_eq!(pick_sheets(Some("hidden"), &meta, true, true, false, Order::Alphabetic), Ok(names(&["hidden"])));
    assert_eq!(
        pick_sheets(Some("nope"), &meta, true, true, false, Order::Alphabetic),
        Err("sheet 'nope' not found".to_string())
    );
    assert_eq!(pick_sheets(None, &meta, true, true, true, Order::Alphabetic), Ok(names(&["b", "a"])));
    assert_eq!(pick_sheets(None, &meta, true, true, false, Order::Alphabetic), Ok(names(&["a", "b"])));
}
