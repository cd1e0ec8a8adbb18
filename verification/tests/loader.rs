use c4::loader::{
    claimed_format, descends, extension_map, file_extension, file_stem_key, is_commented, keep_sheet,
    layout_index, path_kind, path_step, sort_entries, sub_prefix, time_text, unclaimed, value_step, Claim,
    PathKind, PathStep,
};
use c4::{Error, Value};
use c4::{Format, Order};

fn specs(list: &[(Claim, &[&str])]) -> Vec<(Claim, Vec<String>)> {
    list.iter()
        .map(|(c, exts)| (*c, exts.iter().map(|e| e.to_string()).collect()))
        .collect()
}

#[test]
fn file_extensions_are_lowercased_and_hidden_files_count() {
    assert_eq!(file_extension("app.JSON"), Some("json".to_string()));
    assert_eq!(file_extension(".env"), Some("env".to_string()));
    assert_eq!(file_extension("prod.env"), Some("env".to_string()));
    assert_eq!(file_extension("a.b.yml"), Some("yml".to_string()));
    assert_eq!(file_extension("Makefile"), None);
    assert_eq!(file_extension("."), None);
}

#[test]
fn tree_keys_drop_the_extension() {
    assert_eq!(file_stem_key("b.json"), "b");
    assert_eq!(file_stem_key("a.b.yml"), "a.b");
    assert_eq!(file_stem_key(".env"), ".env");
    assert_eq!(file_stem_key(".local.env"), ".local");
    assert_eq!(file_stem_key("README"), "README");
}

#[test]
fn the_last_claimer_of_an_extension_wins() {
    let map = extension_map(&specs(&[
        (Claim::Builtin(Format::Json), &["json"]),
        (Claim::Builtin(Format::Jsonc), &["json", "jsonc"]),
        (Claim::Builtin(Format::Yaml), &["yml", "yaml"]),
        (Claim::Custom(3), &["YML"]),
    ]));
    assert_eq!(claimed_format("app.json", &map), Some(Claim::Builtin(Format::Jsonc)));
    assert_eq!(claimed_format("app.yml", &map), Some(Claim::Custom(3)));
    assert_eq!(claimed_format("app.yaml", &map), Some(Claim::Builtin(Format::Yaml)));
    assert_eq!(claimed_format("app.toml", &map), None);
    assert_eq!(claimed_format("noext", &map), None);
    // one entry per extension
    assert_eq!(map.len(), 4);
}

#[test]
fn folders_load_first_by_default() {
    let entries = vec![
        ("b.json".to_string(), false),
        ("a".to_string(), true),
        ("a.json".to_string(), false),
        ("z".to_string(), true),
    ];
    let sorted = sort_entries(entries.clone(), Order::FoldersFirstAlphabetic);
    let names: Vec<&str> = sorted.iter().map(|(n, _)| n.as_str()).collect();
    assert_eq!(names, vec!["a", "z", "a.json", "b.json"]);
    let sorted = sort_entries(entries.clone(), Order::Alphabetic);
    let names: Vec<&str> = sorted.iter().map(|(n, _)| n.as_str()).collect();
    assert_eq!(names, vec!["a", "a.json", "b.json", "z"]);
    let sorted = sort_entries(entries, Order::ReverseAlphabetic);
    let names: Vec<&str> = sorted.iter().map(|(n, _)| n.as_str()).collect();
    assert_eq!(names, vec!["z", "b.json", "a.json", "a"]);
}

#[test]
fn sheets_are_filtered_by_kind_visibility_and_prefix() {
    assert!(is_commented("#draft"));
    assert!(is_commented(".x"));
    assert!(is_commented("_tmp"));
    assert!(!is_commented("config"));
    assert!(!is_commented(""));
    assert!(keep_sheet(true, true, "config", true, true));
    assert!(!keep_sheet(false, true, "config", true, true));
    assert!(!keep_sheet(true, false, "config", true, true));
    assert!(keep_sheet(true, false, "config", false, true));
    assert!(!keep_sheet(true, true, "_draft", true, true));
    assert!(keep_sheet(true, true, "_draft", true, false));
}

#[test]
fn time_texts_pad_and_show_milliseconds_only_when_set() {
    assert_eq!(time_text(7, 8, 9, 0), "07:08:09");
    assert_eq!(time_text(6, 0, 25, 920), "06:00:25.920");
    assert_eq!(time_text(30, 0, 0, 0), "30:00:00");
    assert_eq!(time_text(1, 2, 3, 4), "01:02:03.004");
    assert_eq!(time_text(123, 0, 0, 0), "123:00:00");
}

#[test]
fn extension_map_keys_are_unique_and_lowercase() {
    let map = extension_map(&specs(&[
        (Claim::Builtin(Format::Yaml), &["YAML", "yml"]),
        (Claim::Builtin(Format::Jsonc), &["Yml", "json"]),
    ]));
    let mut keys: Vec<&str> = map.iter().map(|(k, _)| k.as_str()).collect();
    assert!(keys.iter().all(|k| *k == k.to_lowercase()));
    let n = keys.len();
    keys.sort();
    keys.dedup();
    assert_eq!(keys.len(), n);
    assert_eq!(n, 3);
}

#[test]
fn walk_depth_limits_and_folder_keys() {
    assert!(descends(0, 1));
    assert!(!descends(1, 1));
    assert!(!descends(0, 0));
    assert!(descends(7, -1));
    let p = vec!["a".to_string()];
    assert_eq!(sub_prefix(&p, "b", true), vec!["a".to_string(), "b".to_string()]);
    assert_eq!(sub_prefix(&p, "b", false), p);
    assert_eq!(path_kind(true, false), PathKind::Folder);
    assert_eq!(path_kind(false, true), PathKind::File);
    assert_eq!(path_kind(false, false), PathKind::Missing);
}

#[test]
fn path_sources_step() {
    assert!(matches!(path_step(PathKind::Folder, None, "cfg"), PathStep::Scan));
    assert!(matches!(
        path_step(PathKind::File, Some(Claim::Builtin(Format::Json)), "a.json"),
        PathStep::Parse(Claim::Builtin(Format::Json))
    ));
    match path_step(PathKind::File, None, "a.txt") {
        PathStep::Fail(Error::Parse { path, message }) => {
            assert_eq!(path, "a.txt");
            assert_eq!(message, "no active format claims this file's extension");
        }
        _ => panic!("expected a parse error"),
    }
    assert!(matches!(path_step(PathKind::Missing, None, "gone"), PathStep::Fail(Error::NotFound(p)) if p == "gone"));
    assert!(matches!(unclaimed("x"), Error::Parse { .. }));
}

#[test]
fn value_sources_step() {
    let ok = Value::Object(vec![("a".into(), Value::Int(1))]);
    assert_eq!(value_step(&Ok(ok.clone()), 2).unwrap(), ok);
    let unordered = Value::Object(vec![("b".into(), Value::Int(1)), ("a".into(), Value::Int(2))]);
    match value_step(&Ok(unordered), 3) {
        Err(Error::Parse { path, message }) => {
            assert_eq!(path, "value:3");
            assert_eq!(message, "object keys must be unique and ascending");
        }
        other => panic!("unexpected {other:?}"),
    }
    match value_step(&Err("bad".into()), 12) {
        Err(Error::Parse { path, message }) => {
            assert_eq!(path, "value:12");
            assert_eq!(message, "bad");
        }
        other => panic!("unexpected {other:?}"),
    }
}

#[test]
fn the_last_entry_of_a_format_gives_its_layout() {
    let claims = vec![Claim::Builtin(Format::Csv), Claim::Custom(1), Claim::Builtin(Format::Csv), Claim::Builtin(Format::Json)];
    assert_eq!(layout_index(&claims, Format::Csv), Some(2));
    assert_eq!(layout_index(&claims, Format::Excel), None);
}
