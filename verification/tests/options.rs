use c4::{Format, Order, TableLayout};

#[test]
fn order_converts_from_id() {
    // ids accept `-`/`_`
    assert_eq!(Order::from("alphabetic"), Order::Alphabetic);
    assert_eq!(Order::from("reverse-alphabetic"), Order::ReverseAlphabetic);
    assert_eq!(Order::from("reverse"), Order::ReverseAlphabetic);
    assert_eq!(Order::from("folders_first"), Order::FoldersFirstAlphabetic);
    assert_eq!(Order::from("default"), Order::FoldersFirstAlphabetic);
    assert_eq!(Order::from_id("nope"), None);
    // each order round-trips through its canonical id
    for o in [
        Order::FoldersFirstAlphabetic,
        Order::Alphabetic,
        Order::ReverseAlphabetic,
    ] {
        assert_eq!(Order::from(o.id()), o);
    }
}

#[test]
fn table_layout_converts_from_id() {
    assert_eq!(TableLayout::from("kv"), TableLayout::Kv);
    assert_eq!(TableLayout::from("kvf"), TableLayout::Kv);
    assert_eq!(TableLayout::from("db"), TableLayout::Db);
    assert_eq!(TableLayout::from_id("db_auto"), None); // removed on purpose
    assert_eq!(TableLayout::default(), TableLayout::Kv);
}

#[test]
fn format_ids_round_trip() {
    for f in [
        Format::Json,
        Format::Jsonc,
        Format::Yaml,
        Format::Toml,
        Format::Ini,
        Format::Env,
        Format::Csv,
        Format::Excel,
        Format::Ods,
    ] {
        assert_eq!(Format::from_id(f.id()), Some(f));
    }
    assert_eq!(Format::from_id("xml"), None);
    assert_eq!(Format::from_id("JSON"), None);
}

#[test]
fn order_ids_ignore_case_and_dashes() {
    assert_eq!(Order::from_id("Reverse-Alphabetic"), Some(Order::ReverseAlphabetic));
    assert_eq!(Order::from_id("FOLDERS-FIRST"), Some(Order::FoldersFirstAlphabetic));
    assert_eq!(Order::default(), Order::FoldersFirstAlphabetic);
    // an unknown id converts to the default order
    assert_eq!(Order::from("sideways"), Order::FoldersFirstAlphabetic);
}

#[test]
fn default_extensions_and_layouts() {
    assert_eq!(Format::Jsonc.default_extensions(), vec!["json".to_string(), "jsonc".to_string()]);
    assert_eq!(Format::Yaml.default_extensions(), vec!["yml".to_string(), "yaml".to_string()]);
    assert_eq!(Format::Excel.default_extensions(), vec!["xlsx".to_string(), "xlsm".to_string(), "xlsb".to_string(), "xls".to_string()]);
    assert_eq!(Format::Csv.default_layout(), TableLayout::Kv);
    assert_eq!(Format::Excel.default_layout(), TableLayout::Db);
    assert_eq!(Format::Ods.default_layout(), TableLayout::Db);
    assert_eq!(TableLayout::from("DB"), TableLayout::Db);
    assert_eq!(TableLayout::Db.id(), "db");
}

#[test]
fn layout_ids_round_trip() {
    for layout in [TableLayout::Kv, TableLayout::Db] {
        assert_eq!(TableLayout::from_id(layout.id()), Some(layout));
    }
}
