//! Load config from folders, files and in-code strings/values into one
//! deep-merged value: the data model, the merge and key rules, the table
//! stage with its typed cells, the small text formats, provenance, the
//! decisions of the loader and the command line, how a workbook's sheets
//! combine, and a writer for spreadsheet workbooks.

pub mod cli;
pub mod docs;
pub mod error;
pub mod formats;
pub mod keys;
pub mod literal;
pub mod loader;
pub mod merge;
pub mod net;
pub mod options;
pub mod parsers;
pub mod table;
pub mod text;
pub mod trace;
pub mod valid;
pub mod value;
pub mod workbook;
pub mod writer;

pub use error::Error;
pub use options::{Format, Order, TableLayout};
pub use table::parse_table;
pub use trace::{SourceRef, TracedValue};
pub use value::Value;
