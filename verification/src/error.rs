//! The crate error type: everything scanning, parsing, merging or
//! deserializing can fail with. Paths are carried as their text.

use vstd::prelude::*;

use crate::text::{decimal, push_decimal, push_str};

verus! {

/// Errors produced while scanning, parsing, merging or deserializing.
#[derive(Debug, PartialEq)]
pub enum Error {
    /// Underlying I/O failure, by its message.
    Io(String),
    /// A source path does not exist.
    NotFound(String),
    /// A file failed to parse.
    Parse { path: String, message: String },
    /// A table cell failed to convert. `row` is 1-based.
    Table { path: String, row: usize, message: String },
    /// The merged value could not deserialize into the requested type.
    Deserialize(String),
    /// An option requires something this build does not have.
    Unsupported(String),
}

/// The text an error reads as.
pub open spec fn error_text(e: Error) -> Seq<char> {
    match e {
        Error::Io(m) => "io error: "@ + m@,
        Error::NotFound(p) => "source not found: "@ + p@,
        Error::Parse { path, message } => path@ + ": "@ + message@,
        Error::Table { path, row, message } => path@ + " row "@ + decimal(row as nat) + ": "@
            + message@,
        Error::Deserialize(m) => "deserialize error: "@ + m@,
        Error::Unsupported(m) => "unsupported: "@ + m@,
    }
}

impl Error {
    /// The human-readable message: `path row N: message` for table
    /// errors, `path: message` for parse errors, and so on.
    pub fn to_text(&self) -> (r: String)
        ensures
            r@ == error_text(*self),
    {
        let mut out = String::new();
        match self {
            Error::Io(m) => {
                push_str(&mut out, "io error: ");
                push_str(&mut out, m.as_str());
            },
            Error::NotFound(p) => {
                push_str(&mut out, "source not found: ");
                push_str(&mut out, p.as_str());
            },
            Error::Parse { path, message } => {
                push_str(&mut out, path.as_str());
                push_str(&mut out, ": ");
                push_str(&mut out, message.as_str());
            },
            Error::Table { path, row, message } => {
                push_str(&mut out, path.as_str());
                push_str(&mut out, " row ");
                push_decimal(&mut out, *row as u64);
                push_str(&mut out, ": ");
                push_str(&mut out, message.as_str());
            },
            Error::Deserialize(m) => {
                push_str(&mut out, "deserialize error: ");
                push_str(&mut out, m.as_str());
            },
            Error::Unsupported(m) => {
                push_str(&mut out, "unsupported: ");
                push_str(&mut out, m.as_str());
            },
        }
        out
    }
}

} // verus!
