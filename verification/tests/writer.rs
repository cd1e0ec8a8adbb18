use std::io::Cursor;

use c4::writer::{col_ref, crc32, esc, esc_attr, ods_bytes, xlsx_bytes, xlsx_cell, xlsx_sheet_xml, zip_files, Cell, Zip};

use calamine::{Data, Reader, SheetVisible};

fn s(x: &str) -> Cell {
    Cell::S(x.to_string())
}

fn n(x: &str) -> Cell {
    Cell::N(x.to_string())
}

fn le16(b: &[u8], at: usize) -> u16 {
    u16::from_le_bytes([b[at], b[at + 1]])
}

fn le32(b: &[u8], at: usize) -> u32 {
    u32::from_le_bytes([b[at], b[at + 1], b[at + 2], b[at + 3]])
}

#[test]
fn crc32_check_value() {
    assert_eq!(crc32(b"123456789"), 0xCBF4_3926);
    assert_eq!(crc32(b""), 0);
    assert_eq!(crc32(b"a"), 0xE8B7_BE43);
}

#[test]
fn column_letters() {
    assert_eq!(col_ref(0), "A");
    assert_eq!(col_ref(25), "Z");
    assert_eq!(col_ref(26), "AA");
    assert_eq!(col_ref(27), "AB");
    assert_eq!(col_ref(701), "ZZ");
    assert_eq!(col_ref(702), "AAA");
}

#[test]
fn xml_escapes() {
    assert_eq!(esc("a<b & c>d"), "a&lt;b &amp; c&gt;d");
    assert_eq!(esc("\"q\""), "\"q\"");
    assert_eq!(esc_attr("\"q\" & <x>"), "&quot;q&quot; &amp; &lt;x&gt;");
}

#[test]
fn xlsx_cell_forms() {
    assert_eq!(
        xlsx_cell(3, 1, &s("a&b")),
        "<c r=\"B3\" t=\"inlineStr\"><is><t xml:space=\"preserve\">a&amp;b</t></is></c>"
    );
    assert_eq!(xlsx_cell(1, 0, &n("8080")), "<c r=\"A1\"><v>8080</v></c>");
    assert_eq!(xlsx_cell(2, 26, &Cell::B(true)), "<c r=\"AA2\" t=\"b\"><v>1</v></c>");
    assert_eq!(xlsx_cell(4, 2, &Cell::Tm("0.5".into())), "<c r=\"C4\" s=\"2\"><v>0.5</v></c>");
}

#[test]
fn sheet_rows_sort_by_number_keeping_ties_in_order() {
    let rows = vec![(2, vec![s("b")]), (1, vec![s("a")]), (2, vec![s("c")])];
    let xml = xlsx_sheet_xml(&rows);
    let a = xml.find(">a<").unwrap();
    let b = xml.find(">b<").unwrap();
    let c = xml.find(">c<").unwrap();
    assert!(a < b && b < c);
    assert!(xml.starts_with("<?xml"));
    assert!(xml.ends_with("</sheetData></worksheet>"));
}

#[test]
fn zip_layout_of_one_entry() {
    let bytes = zip_files(&vec![("a.txt".to_string(), b"hello".to_vec())]);
    // local header + name + data, central header + name, end record
    assert_eq!(bytes.len(), 30 + 5 + 5 + 46 + 5 + 22);
    assert_eq!(le32(&bytes, 0), 0x0403_4b50);
    assert_eq!(le32(&bytes, 14), crc32(b"hello"));
    assert_eq!(le32(&bytes, 18), 5);
    assert_eq!(le16(&bytes, 26), 5);
    assert_eq!(&bytes[30..35], b"a.txt");
    assert_eq!(&bytes[35..40], b"hello");
    let central = 40;
    assert_eq!(le32(&bytes, central), 0x0201_4b50);
    assert_eq!(le32(&bytes, central + 42), 0);
    let end = central + 46 + 5;
    assert_eq!(le32(&bytes, end), 0x0605_4b50);
    assert_eq!(le16(&bytes, end + 8), 1);
    assert_eq!(le32(&bytes, end + 12), 51);
    assert_eq!(le32(&bytes, end + 16), 40);
}

#[test]
fn zip_add_then_finish_matches_zip_files() {
    let mut zip = Zip::new();
    zip.add("x", b"1");
    zip.add("y/z", b"22");
    let direct = zip.finish();
    let listed = zip_files(&vec![("x".to_string(), b"1".to_vec()), ("y/z".to_string(), b"22".to_vec())]);
    assert_eq!(direct, listed);
}

fn game_sheets() -> Vec<(String, bool, Vec<(u32, Vec<Cell>)>)> {
    vec![
        (
            "config".to_string(),
            false,
            vec![
                (1, vec![s("name"), s("port")]),
                (2, vec![s("str"), s("u16")]),
                (3, vec![s("c4"), n("8080")]),
            ],
        ),
        ("hidden".to_string(), true, vec![(1, vec![s("x"), Cell::B(false)])]),
    ]
}

#[test]
fn xlsx_workbook_reads_back() {
    let bytes = xlsx_bytes(&game_sheets());
    let mut book = calamine::Xlsx::new(Cursor::new(bytes)).unwrap();
    let meta = book.sheets_metadata().to_vec();
    assert_eq!(meta.len(), 2);
    assert_eq!(meta[0].name, "config");
    assert_eq!(meta[1].visible, SheetVisible::Hidden);
    let range = book.worksheet_range("config").unwrap();
    assert_eq!(range.get_value((0, 1)), Some(&Data::String("port".into())));
    assert_eq!(range.get_value((2, 1)), Some(&Data::Float(8080.0)));
}

#[test]
fn ods_workbook_reads_back() {
    let bytes = ods_bytes(&game_sheets());
    let mut book = calamine::Ods::new(Cursor::new(bytes)).unwrap();
    let meta = book.sheets_metadata().to_vec();
    assert_eq!(meta.len(), 2);
    assert_eq!(meta[1].visible, SheetVisible::Hidden);
    let range = book.worksheet_range("config").unwrap();
    assert_eq!(range.get_value((2, 0)), Some(&Data::String("c4".into())));
    assert_eq!(range.get_value((2, 1)), Some(&Data::Float(8080.0)));
}

#[test]
fn workbooks_are_byte_deterministic() {
    assert_eq!(xlsx_bytes(&game_sheets()), xlsx_bytes(&game_sheets()));
    assert_eq!(ods_bytes(&game_sheets()), ods_bytes(&game_sheets()));
}

#[test]
fn empty_archive_is_the_end_record() {
    let bytes = zip_files(&Vec::new());
    let mut want = vec![0x50u8, 0x4b, 0x05, 0x06];
    want.extend([0u8; 18]);
    assert_eq!(bytes, want);
    assert_eq!(Zip::new().finish(), want);
}

#[test]
fn archive_length_is_records_directory_and_end() {
    let files = vec![("a.txt".to_string(), b"hello".to_vec()), ("dir/b".to_string(), Vec::new())];
    let bytes = zip_files(&files);
    let local = (30 + 5 + 5) + (30 + 5);
    let central = (46 + 5) + (46 + 5);
    assert_eq!(bytes.len(), local + central + 22);
    assert_eq!(&bytes[30..35], b"a.txt");
    assert_eq!(&bytes[35..40], b"hello");
}

#[test]
fn a_zip_built_step_by_step_is_the_archive_of_its_files() {
    let files = vec![("x".to_string(), b"1".to_vec()), ("y/z".to_string(), b"22".to_vec())];
    let mut zip = Zip::new();
    for (n, b) in &files {
        zip.add(n, b);
    }
    let bytes = zip.finish();
    assert_eq!(bytes, zip_files(&files));
    let end = &bytes[bytes.len() - 22..];
    assert_eq!(&end[..4], &[0x50, 0x4b, 0x05, 0x06]);
    assert_eq!(&end[8..10], &[2, 0]);
    assert_eq!(&end[10..12], &[2, 0]);
    let local = (30 + 1 + 1) + (30 + 3 + 2);
    assert_eq!(&end[16..20], &(local as u32).to_le_bytes());
    assert_eq!(&end[12..16], &((46 + 1 + 46 + 3) as u32).to_le_bytes());
}
