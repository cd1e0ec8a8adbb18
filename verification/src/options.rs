//! The plain-data vocabulary of the configuration: the file formats, the
//! folder load orders and the built-in table layouts, with their string
//! ids.

use vstd::prelude::*;

use crate::text::{chars_of, same};

verus! {

/// A config file format.
#[derive(Debug, Clone, Copy, PartialEq, Eq, Hash, Structural)]
pub enum Format {
    Json,
    Jsonc,
    Yaml,
    Toml,
    Ini,
    Env,
    Csv,
    /// Excel workbooks (`xlsx`/`xlsm`/`xlsb`/`xls`) — a binary
    /// table-shaped format; file sources only.
    Excel,
    /// OpenDocument spreadsheets (`ods`) — a binary table-shaped format;
    /// file sources only.
    Ods,
}

/// The string id of a format.
pub open spec fn format_id_spec(f: Format) -> Seq<char> {
    match f {
        Format::Json => "json"@,
        Format::Jsonc => "jsonc"@,
        Format::Yaml => "yaml"@,
        Format::Toml => "toml"@,
        Format::Ini => "ini"@,
        Format::Env => "env"@,
        Format::Csv => "csv"@,
        Format::Excel => "excel"@,
        Format::Ods => "ods"@,
    }
}

/// The format a string id names, if any.
pub open spec fn format_from_id_spec(id: Seq<char>) -> Option<Format> {
    if id == "json"@ {
        Some(Format::Json)
    } else if id == "jsonc"@ {
        Some(Format::Jsonc)
    } else if id == "yaml"@ {
        Some(Format::Yaml)
    } else if id == "toml"@ {
        Some(Format::Toml)
    } else if id == "ini"@ {
        Some(Format::Ini)
    } else if id == "env"@ {
        Some(Format::Env)
    } else if id == "csv"@ {
        Some(Format::Csv)
    } else if id == "excel"@ {
        Some(Format::Excel)
    } else if id == "ods"@ {
        Some(Format::Ods)
    } else {
        None
    }
}

/// The extensions (without the dot) a format claims by default.
pub open spec fn default_extensions_spec(f: Format) -> Seq<Seq<char>> {
    match f {
        Format::Json => seq!["json"@],
        Format::Jsonc => seq!["json"@, "jsonc"@],
        Format::Yaml => seq!["yml"@, "yaml"@],
        Format::Toml => seq!["toml"@],
        Format::Ini => seq!["ini"@],
        Format::Env => seq!["env"@],
        Format::Csv => seq!["csv"@],
        Format::Excel => seq!["xlsx"@, "xlsm"@, "xlsb"@, "xls"@],
        Format::Ods => seq!["ods"@],
    }
}

/// The table formats: csv and the spreadsheets.
pub open spec fn is_table_spec(f: Format) -> bool {
    f == Format::Csv || f == Format::Excel || f == Format::Ods
}

/// The binary formats, which parse from files only.
pub open spec fn is_binary_spec(f: Format) -> bool {
    f == Format::Excel || f == Format::Ods
}

impl Format {
    /// Look a format up by its string id (`"json"`, `"jsonc"`, `"yaml"`,
    /// `"toml"`, `"ini"`, `"env"`, `"csv"`, `"excel"`, `"ods"`).
    pub fn from_id(id: &str) -> (r: Option<Format>)
        ensures
            r == format_from_id_spec(id@),
    {
        if same(id, "json") {
            Some(Format::Json)
        } else if same(id, "jsonc") {
            Some(Format::Jsonc)
        } else if same(id, "yaml") {
            Some(Format::Yaml)
        } else if same(id, "toml") {
            Some(Format::Toml)
        } else if same(id, "ini") {
            Some(Format::Ini)
        } else if same(id, "env") {
            Some(Format::Env)
        } else if same(id, "csv") {
            Some(Format::Csv)
        } else if same(id, "excel") {
            Some(Format::Excel)
        } else if same(id, "ods") {
            Some(Format::Ods)
        } else {
            None
        }
    }

    /// The string id of this format.
    pub fn id(self) -> (r: &'static str)
        ensures
            r@ == format_id_spec(self),
    {
        match self {
            Format::Json => "json",
            Format::Jsonc => "jsonc",
            Format::Yaml => "yaml",
            Format::Toml => "toml",
            Format::Ini => "ini",
            Format::Env => "env",
            Format::Csv => "csv",
            Format::Excel => "excel",
            Format::Ods => "ods",
        }
    }

    /// The extensions (without the dot) this format claims by default.
    ///
    /// Extension matching is always case-insensitive, and a hidden file
    /// named `.X` is treated as having extension `X` (so `.env` matches
    /// the `env` extension).
    pub fn default_extensions(self) -> (r: Vec<String>)
        ensures
            r@.len() == default_extensions_spec(self).len(),
            forall|i: int|
                0 <= i < r@.len() ==> #[trigger] r@[i]@ == default_extensions_spec(self)[i],
    {
        let mut r: Vec<String> = Vec::new();
        match self {
            Format::Json => {
                r.push("json".to_owned());
            },
            Format::Jsonc => {
                r.push("json".to_owned());
                r.push("jsonc".to_owned());
            },
            Format::Yaml => {
                r.push("yml".to_owned());
                r.push("yaml".to_owned());
            },
            Format::Toml => {
                r.push("toml".to_owned());
            },
            Format::Ini => {
                r.push("ini".to_owned());
            },
            Format::Env => {
                r.push("env".to_owned());
            },
            Format::Csv => {
                r.push("csv".to_owned());
            },
            Format::Excel => {
                r.push("xlsx".to_owned());
                r.push("xlsm".to_owned());
                r.push("xlsb".to_owned());
                r.push("xls".to_owned());
            },
            Format::Ods => {
                r.push("ods".to_owned());
            },
        }
        r
    }

    /// The default [`TableLayout`] of this format: `db` for the
    /// spreadsheet formats (excel/ods — a sheet is a record grid unless
    /// told otherwise), `kv` for csv (and, vacuously, for the non-table
    /// formats, which never consult a layout).
    pub fn default_layout(self) -> (r: TableLayout)
        ensures
            r == (if self == Format::Excel || self == Format::Ods {
                TableLayout::Db
            } else {
                TableLayout::Kv
            }),
    {
        match self {
            Format::Excel | Format::Ods => TableLayout::Db,
            _ => TableLayout::Kv,
        }
    }

    /// Whether this is a table format (csv, excel, ods) — the formats
    /// that a table layout applies to.
    pub fn is_table(self) -> (r: bool)
        ensures
            r == is_table_spec(self),
    {
        match self {
            Format::Csv | Format::Excel | Format::Ods => true,
            _ => false,
        }
    }

    /// Binary formats parse from the path, never from text.
    pub fn is_binary(self) -> (r: bool)
        ensures
            r == is_binary_spec(self),
    {
        match self {
            Format::Excel | Format::Ods => true,
            _ => false,
        }
    }
}

/// File load order inside a folder.
#[derive(Debug, Clone, Copy, PartialEq, Eq, Structural)]
pub enum Order {
    /// Subfolders first, then files, each group alphabetic — how
    /// directory listings are conventionally sorted.
    FoldersFirstAlphabetic,
    /// Pure lexicographic order, folders and files interleaved.
    Alphabetic,
    ReverseAlphabetic,
}

/// A character as `char::to_lowercase` maps it, where that mapping is a
/// single ASCII letter: the ASCII capitals and the Kelvin sign (which
/// lowercases to `k`). Every other character that lowercases to ASCII is
/// already that ASCII character; the remaining mappings never produce
/// ASCII, so they never change whether an id matches.
pub open spec fn lower_char(c: char) -> char {
    if 'A' <= c && c <= 'Z' {
        ((c as u32) + 32) as char
    } else if c == '\u{212A}' {
        'k'
    } else {
        c
    }
}

/// An id as the order lookup normalizes it: lowercased, `-` read as `_`.
pub open spec fn order_key(id: Seq<char>) -> Seq<char> {
    id.map_values(|c: char| if lower_char(c) == '-' { '_' } else { lower_char(c) })
}

/// The canonical id of an order.
pub open spec fn order_id_spec(o: Order) -> Seq<char> {
    match o {
        Order::FoldersFirstAlphabetic => "folders_first_alphabetic"@,
        Order::Alphabetic => "alphabetic"@,
        Order::ReverseAlphabetic => "reverse_alphabetic"@,
    }
}

/// The order an id names: any case, `-` or `_` between words, and the
/// short aliases `folders_first`, `default` and `reverse`.
pub open spec fn order_from_id_spec(id: Seq<char>) -> Option<Order> {
    let k = order_key(id);
    if k == "folders_first_alphabetic"@ || k == "folders_first"@ || k == "default"@ {
        Some(Order::FoldersFirstAlphabetic)
    } else if k == "alphabetic"@ {
        Some(Order::Alphabetic)
    } else if k == "reverse_alphabetic"@ || k == "reverse"@ {
        Some(Order::ReverseAlphabetic)
    } else {
        None
    }
}

fn lower(c: char) -> (r: char)
    ensures
        r == lower_char(c),
{
    if 'A' <= c && c <= 'Z' {
        ((c as u8) + 32) as char
    } else if c == '\u{212A}' {
        'k'
    } else {
        c
    }
}

/// `id` lowercased (see [`lower_char`]), with `-` turned into `_` when
/// `dash` is set.
fn normalized(id: &str, dash: bool) -> (r: Vec<char>)
    ensures
        dash ==> r@ == order_key(id@),
        !dash ==> r@ == id@.map_values(|c: char| lower_char(c)),
{
    let v = chars_of(id);
    let mut r: Vec<char> = Vec::new();
    let mut i: usize = 0;
    while i < v.len()
        invariant
            i <= v@.len(),
            v@ == id@,
            r@.len() == i,
            forall|k: int|
                0 <= k < i ==> #[trigger] r@[k] == (if dash && lower_char(v@[k]) == '-' {
                    '_'
                } else {
                    lower_char(v@[k])
                }),
        decreases v@.len() - i,
    {
        let c = lower(v[i]);
        if dash && c == '-' {
            r.push('_');
        } else {
            r.push(c);
        }
        i = i + 1;
    }
    if dash {
        assert(r@ =~= order_key(id@));
    } else {
        assert(r@ =~= id@.map_values(|c: char| lower_char(c)));
    }
    r
}

impl Order {
    /// Look an order up by its string id. Accepts `-` or `_` between
    /// words, any letter case, and a couple of short aliases:
    /// `folders_first_alphabetic` (`folders_first`, `default`),
    /// `alphabetic`, `reverse_alphabetic` (`reverse`).
    pub fn from_id(id: &str) -> (r: Option<Order>)
        ensures
            r == order_from_id_spec(id@),
    {
        let k = normalized(id, true);
        let k = k.as_slice();
        if crate::text::spells(k, "folders_first_alphabetic") || crate::text::spells(
            k,
            "folders_first",
        ) || crate::text::spells(k, "default") {
            Some(Order::FoldersFirstAlphabetic)
        } else if crate::text::spells(k, "alphabetic") {
            Some(Order::Alphabetic)
        } else if crate::text::spells(k, "reverse_alphabetic") || crate::text::spells(
            k,
            "reverse",
        ) {
            Some(Order::ReverseAlphabetic)
        } else {
            None
        }
    }

    /// The canonical string id of this order.
    pub fn id(self) -> (r: &'static str)
        ensures
            r@ == order_id_spec(self),
    {
        match self {
            Order::FoldersFirstAlphabetic => "folders_first_alphabetic",
            Order::Alphabetic => "alphabetic",
            Order::ReverseAlphabetic => "reverse_alphabetic",
        }
    }
}

impl Default for Order {
    fn default() -> (r: Order)
        ensures
            r == Order::FoldersFirstAlphabetic,
    {
        Order::FoldersFirstAlphabetic
    }
}

/// An order id as a conversion: [`Order::from_id`]; an id it does not
/// know gives the default order (this conversion never panics; use
/// `from_id` to tell an unknown id apart).
impl From<&str> for Order {
    fn from(id: &str) -> (r: Order) {
        match Order::from_id(id) {
            Some(o) => o,
            None => Order::FoldersFirstAlphabetic,
        }
    }
}

impl vstd::std_specs::convert::FromSpecImpl<&str> for Order {
    open spec fn obeys_from_spec() -> bool {
        true
    }

    open spec fn from_spec(id: &str) -> Order {
        match order_from_id_spec(id@) {
            Some(o) => o,
            None => Order::FoldersFirstAlphabetic,
        }
    }
}

/// How the table stage interprets a row grid.
#[derive(Debug, Clone, Copy, PartialEq, Eq, Structural)]
pub enum TableLayout {
    /// `key,value[,format]` positional rows — one config entry per row.
    /// The default for csv.
    Kv,
    /// A database-style grid: the first row holds the keys, the second
    /// always the type ids (an empty cell = `auto`), every following row
    /// is one record; parses to an array of one object per record.
    Db,
}

/// The layout an id names: `kv` (alias `kvf`) or `db`, any case.
pub open spec fn layout_from_id_spec(id: Seq<char>) -> Option<TableLayout> {
    let k = id.map_values(|c: char| lower_char(c));
    if k == "kv"@ || k == "kvf"@ {
        Some(TableLayout::Kv)
    } else if k == "db"@ {
        Some(TableLayout::Db)
    } else {
        None
    }
}

impl TableLayout {
    /// Look a layout up by its string id: `kv` (alias `kvf`) or `db`.
    pub fn from_id(id: &str) -> (r: Option<TableLayout>)
        ensures
            r == layout_from_id_spec(id@),
    {
        let k = normalized(id, false);
        let k = k.as_slice();
        if crate::text::spells(k, "kv") || crate::text::spells(k, "kvf") {
            Some(TableLayout::Kv)
        } else if crate::text::spells(k, "db") {
            Some(TableLayout::Db)
        } else {
            None
        }
    }

    /// The string id of this layout.
    pub fn id(self) -> (r: &'static str)
        ensures
            r@ == (match self {
                TableLayout::Kv => "kv"@,
                TableLayout::Db => "db"@,
            }),
    {
        match self {
            TableLayout::Kv => "kv",
            TableLayout::Db => "db",
        }
    }
}

impl Default for TableLayout {
    fn default() -> (r: TableLayout)
        ensures
            r == TableLayout::Kv,
    {
        TableLayout::Kv
    }
}

/// A layout id as a conversion: [`TableLayout::from_id`]; an id it
/// does not know gives the default layout (this conversion never
/// panics; use `from_id` to tell an unknown id apart).
impl From<&str> for TableLayout {
    fn from(id: &str) -> (r: TableLayout) {
        match TableLayout::from_id(id) {
            Some(l) => l,
            None => TableLayout::Kv,
        }
    }
}

impl vstd::std_specs::convert::FromSpecImpl<&str> for TableLayout {
    open spec fn obeys_from_spec() -> bool {
        true
    }

    open spec fn from_spec(id: &str) -> TableLayout {
        match layout_from_id_spec(id@) {
            Some(l) => l,
            None => TableLayout::Kv,
        }
    }
}

/// Every format id names its format: `from_id` inverts `id`.
pub proof fn lemma_format_id_round_trip(f: Format)
    ensures
        format_from_id_spec(format_id_spec(f)) == Some(f),
{
    reveal_strlit("json");
    reveal_strlit("jsonc");
    reveal_strlit("yaml");
    reveal_strlit("toml");
    reveal_strlit("ini");
    reveal_strlit("env");
    reveal_strlit("csv");
    reveal_strlit("excel");
    reveal_strlit("ods");
    assert("json"@.len() == 4 && "json"@[0] == 'j');
    assert("jsonc"@.len() == 5 && "jsonc"@[0] == 'j');
    assert("yaml"@.len() == 4 && "yaml"@[0] == 'y');
    assert("toml"@.len() == 4 && "toml"@[0] == 't');
    assert("ini"@.len() == 3 && "ini"@[0] == 'i');
    assert("env"@.len() == 3 && "env"@[0] == 'e');
    assert("csv"@.len() == 3 && "csv"@[0] == 'c');
    assert("excel"@.len() == 5 && "excel"@[0] == 'e');
    assert("ods"@.len() == 3 && "ods"@[0] == 'o');
}

/// Every canonical order id names its order: `from_id` inverts `id`.
pub proof fn lemma_order_id_round_trip(o: Order)
    ensures
        order_from_id_spec(order_id_spec(o)) == Some(o),
{
    reveal_strlit("folders_first_alphabetic");
    reveal_strlit("folders_first");
    reveal_strlit("default");
    reveal_strlit("alphabetic");
    reveal_strlit("reverse_alphabetic");
    reveal_strlit("reverse");
    let k = order_key(order_id_spec(o));
    assert(k =~= order_id_spec(o));
}



/// The id of a table layout names that layout again.
pub proof fn lemma_layout_id_round_trip(l: TableLayout)
    ensures
        layout_from_id_spec(match l {
            TableLayout::Kv => "kv"@,
            TableLayout::Db => "db"@,
        }) == Some(l),
{
    reveal_strlit("kv");
    reveal_strlit("kvf");
    reveal_strlit("db");
    let id = match l {
        TableLayout::Kv => "kv"@,
        TableLayout::Db => "db"@,
    };
    let k = id.map_values(|c: char| lower_char(c));
    assert(k =~= id);
    assert(k.len() != "kvf"@.len());
    if l is Db {
        assert(k[0] != "kv"@[0]);
    }
}

/// Every built-in format, in claim order: a later entry wins a contested
/// extension, so `jsonc` (a JSON superset) takes `.json` from `json`.
pub open spec fn enabled_formats_spec() -> Seq<Format> {
    seq![
        Format::Json,
        Format::Jsonc,
        Format::Yaml,
        Format::Toml,
        Format::Ini,
        Format::Env,
        Format::Csv,
        Format::Excel,
        Format::Ods,
    ]
}

/// Every built-in format, in claim order (see [`enabled_formats_spec`]).
pub fn enabled_formats() -> (r: Vec<Format>)
    ensures
        r@ == enabled_formats_spec(),
{
    let mut v: Vec<Format> = Vec::new();
    v.push(Format::Json);
    v.push(Format::Jsonc);
    v.push(Format::Yaml);
    v.push(Format::Toml);
    v.push(Format::Ini);
    v.push(Format::Env);
    v.push(Format::Csv);
    v.push(Format::Excel);
    v.push(Format::Ods);
    assert(v@ =~= enabled_formats_spec());
    v
}

} // verus!
