//! Workbooks written in memory, read back with calamine, and loaded the
//! way the command line loads a spreadsheet file: the library picks the
//! sheets, converts each one's rows and combines the sheet values.

use std::io::Cursor;

use calamine::{Data, Reader, SheetType, SheetVisible, Xlsx};

use c4::formats::parse_text;
use c4::loader::{keyed_by_file, nest};
use c4::table::parse_table;
use c4::workbook::{combine_sheets, has_sheet, order_sheet_names, select_sheets, sheet_key};
use c4::writer::{xlsx_bytes, Cell};
use c4::{Error, Format, Order, TableLayout, Value};

fn s(x: &str) -> Cell {
    Cell::S(x.to_string())
}

fn n(x: &str) -> Cell {
    Cell::N(x.to_string())
}

type Sheet = (String, bool, Vec<(u32, Vec<Cell>)>);

fn sheet(name: &str, hidden: bool, rows: Vec<(u32, Vec<Cell>)>) -> Sheet {
    (name.to_string(), hidden, rows)
}

fn grid(key: &str, ty: &str, value: Cell) -> Vec<(u32, Vec<Cell>)> {
    vec![(1, vec![s(key)]), (2, vec![s(ty)]), (3, vec![value])]
}

fn hook(kind: &str, text: &str) -> Option<Value> {
    match kind {
        "f64" => text.parse::<f64>().ok().map(|f| Value::Float(f.to_bits())),
        _ => None,
    }
}

fn text(cell: &Data) -> String {
    match cell {
        Data::Empty => String::new(),
        Data::String(s) => s.clone(),
        Data::Int(i) => i.to_string(),
        Data::Float(f) => f.to_string(),
        Data::Bool(b) => b.to_string(),
        other => format!("{other}"),
    }
}

struct Opts {
    keyed: bool,
    ignore_hidden: bool,
    ignore_prefix: bool,
    layout: TableLayout,
}

fn base() -> Opts {
    Opts { keyed: false, ignore_hidden: true, ignore_prefix: true, layout: TableLayout::Db }
}

fn rows_of(book: &mut Xlsx<Cursor<Vec<u8>>>, name: &str) -> Vec<Vec<String>> {
    let range = book.worksheet_range(name).unwrap();
    let mut rows: Vec<Vec<String>> = Vec::new();
    if let Some((start_row, start_col)) = range.start() {
        rows.resize(start_row as usize, Vec::new());
        for cells in range.rows() {
            let mut row = vec![String::new(); start_col as usize];
            row.extend(cells.iter().map(text));
            rows.push(row);
        }
    }
    rows
}

fn load(sheets: Vec<Sheet>, sheet_name: Option<&str>, o: &Opts) -> Result<Value, Error> {
    let mut book = Xlsx::new(Cursor::new(xlsx_bytes(&sheets))).unwrap();
    let meta: Vec<(String, bool, bool)> = book
        .sheets_metadata()
        .iter()
        .map(|m| (m.name.clone(), m.typ == SheetType::WorkSheet, m.visible == SheetVisible::Visible))
        .collect();
    if let Some(name) = sheet_name {
        if !has_sheet(&meta, name) {
            return Err(Error::Parse { path: "book.xlsx".into(), message: format!("sheet '{name}' not found") });
        }
        let value = parse_table(rows_of(&mut book, name), &o.layout, "book.xlsx", true, &hook)?;
        return Ok(sheet_key(name, value, true));
    }
    let mut names = select_sheets(&meta, o.ignore_hidden, o.ignore_prefix);
    if !o.keyed {
        names = order_sheet_names(names, Order::FoldersFirstAlphabetic);
    }
    let mut values = Vec::new();
    for name in names {
        let value = parse_table(rows_of(&mut book, &name), &o.layout, "book.xlsx", true, &hook)?;
        values.push((name, value));
    }
    Ok(combine_sheets(values, o.keyed, true, false))
}

fn obj(entries: Vec<(&str, Value)>) -> Value {
    Value::Object(entries.into_iter().map(|(k, v)| (k.to_string(), v)).collect())
}

fn tree_sheets() -> Vec<Sheet> {
    vec![
        sheet("c", false, grid("k1", "str", s("v1"))),
        sheet("d", false, grid("k2", "i32", n("2"))),
        sheet("#x", false, grid("p", "i64", n("1"))),
        sheet(".y", false, grid("p", "i64", n("2"))),
        sheet("_z", false, grid("p", "i64", n("3"))),
        sheet("h", true, grid("p", "i64", n("4"))),
    ]
}

#[test]
fn merge_mode_merges_every_sheet_like_a_file() {
    // c and d parse and merge by sheet name; as db arrays the later (d) wins
    let value = load(tree_sheets(), None, &base()).unwrap();
    assert_eq!(value, Value::Array(vec![obj(vec![("k2", Value::Int(2))])]));
}

#[test]
fn hidden_config_sheet_contributes_nothing() {
    let book = vec![sheet("config", true, vec![(1, vec![s("x")]), (2, vec![s("i64")]), (3, vec![n("1")])])];
    assert_eq!(load(book, None, &base()).unwrap(), Value::Null);
}

#[test]
fn hidden_sheets_load_when_option_off() {
    let book = vec![sheet("config", true, vec![(1, vec![s("x")]), (2, vec![s("i64")]), (3, vec![n("1")])])];
    let o = Opts { ignore_hidden: false, ..base() };
    assert_eq!(load(book, None, &o).unwrap(), Value::Array(vec![obj(vec![("x", Value::Int(1))])]));
}

#[test]
fn physically_absent_type_row_is_all_auto() {
    let book = vec![sheet(
        "config",
        false,
        vec![(1, vec![s("lv"), s("exp")]), (3, vec![n("0"), n("0")]), (4, vec![n("1"), n("5")])],
    )];
    let value = load(book, None, &base()).unwrap();
    assert_eq!(
        value,
        Value::Array(vec![
            obj(vec![("exp", Value::Int(0)), ("lv", Value::Int(0))]),
            obj(vec![("exp", Value::Int(5)), ("lv", Value::Int(1))]),
        ])
    );
}

#[test]
fn bad_typed_cell_reports_the_real_spreadsheet_row() {
    let book = vec![sheet("config", false, vec![(3, vec![s("id")]), (4, vec![s("i32")]), (5, vec![s("abc")])])];
    assert!(matches!(load(book, None, &base()), Err(Error::Table { row: 5, .. })));
}

#[test]
fn kv_shaped_sheet_under_the_db_default_fails_loudly() {
    let book = vec![sheet(
        "config",
        false,
        vec![(1, vec![s("title"), s("Hello"), s("str")]), (2, vec![s("max_players"), n("8"), s("u8")])],
    )];
    assert!(matches!(load(book, None, &base()), Err(Error::Table { row: 2, .. })));
    let kv = Opts { layout: TableLayout::Kv, ..base() };
    assert_eq!(
        load(
            vec![sheet(
                "config",
                false,
                vec![(1, vec![s("title"), s("Hello"), s("str")]), (2, vec![s("max_players"), n("8"), s("u8")])],
            )],
            None,
            &kv
        )
        .unwrap(),
        obj(vec![("max_players", Value::Uint(8)), ("title", Value::String("Hello".into()))])
    );
}

#[test]
fn missing_sheet_is_an_error() {
    let o = Opts { layout: TableLayout::Kv, ..base() };
    assert!(matches!(load(tree_sheets(), Some("nope"), &o), Err(Error::Parse { .. })));
    let found = load(tree_sheets(), Some("_z"), &base()).unwrap();
    assert_eq!(found, obj(vec![("_z", Value::Array(vec![obj(vec![("p", Value::Int(3))])]))]));
}

#[test]
fn keyed_sheets_skip_hidden_but_keep_prefixed_when_asked() {
    let o = Opts { keyed: true, ignore_prefix: false, ..base() };
    let value = load(tree_sheets(), None, &o).unwrap();
    let Value::Object(entries) = &value else { panic!("object expected") };
    let keys: Vec<&str> = entries.iter().map(|(k, _)| k.as_str()).collect();
    // `.y` expands on its dot: an empty key holding `y`
    assert_eq!(keys, vec!["", "#x", "_z", "c", "d"]);
}

fn basic_config() -> Vec<Sheet> {
    let junk = |x: &str| vec![(1, vec![s("junk"), n(x)])];
    vec![
        sheet(
            "config",
            false,
            vec![
                (1, vec![s("name"), s("port"), s("pi"), s("debug"), s("db.host")]),
                (2, vec![s("str"), s("u16"), s("f64"), s(""), s("str")]),
                (3, vec![s("c4"), n("8080"), n("1.5"), Cell::B(true), s("localhost")]),
                (4, vec![s("c5"), n("9090"), s(""), Cell::B(false)]),
            ],
        ),
        sheet("_notes", false, junk("1")),
        sheet("#draft", false, junk("2")),
        sheet("secret", true, junk("3")),
    ]
}

#[test]
fn formats_merge_mode_merges_non_ignored_sheets() {
    // only `config` is read; a second workbook whose one sheet is
    // commented out contributes nothing
    let value = load(basic_config(), None, &base()).unwrap();
    let extra = load(vec![sheet("_misc", false, vec![(1, vec![s("junk"), n("4")])])], None, &base()).unwrap();
    assert_eq!(extra, Value::Null);
    assert_eq!(
        value,
        Value::Array(vec![
            obj(vec![
                ("db", obj(vec![("host", Value::String("localhost".into()))])),
                ("debug", Value::Bool(true)),
                ("name", Value::String("c4".into())),
                ("pi", Value::Float(1.5f64.to_bits())),
                ("port", Value::Uint(8080)),
            ]),
            obj(vec![
                ("debug", Value::Bool(false)),
                ("name", Value::String("c5".into())),
                ("port", Value::Uint(9090)),
            ]),
        ])
    );
}

#[test]
fn formats_string_source_is_an_error() {
    let err = parse_text(Format::Excel, "name,c4", &TableLayout::Db, "string:0", true, &hook);
    assert!(matches!(err, Err(Error::Parse { .. })));
}

#[test]
fn formats_every_sheet_becomes_a_key() {
    // a/b.xlsx with sheets c and d: each sheet a key, the file and the
    // folder keys around them; commented and hidden sheets stay out
    let o = Opts { keyed: true, ..base() };
    let sheets = load(tree_sheets(), None, &o).unwrap();
    let value = nest(&vec!["a".to_string()], keyed_by_file("b.xlsx", sheets));
    assert_eq!(
        value,
        obj(vec![(
            "a",
            obj(vec![(
                "b",
                obj(vec![
                    ("c", Value::Array(vec![obj(vec![("k1", Value::String("v1".into()))])])),
                    ("d", Value::Array(vec![obj(vec![("k2", Value::Int(2))])])),
                ])
            )])
        )])
    );
}

#[test]
fn an_explicitly_named_sheet_is_never_filtered() {
    let value = load(tree_sheets(), Some("_z"), &base()).unwrap();
    assert_eq!(value, obj(vec![("_z", Value::Array(vec![obj(vec![("p", Value::Int(3))])]))]));
}
