//! The crate's error type.

use vstd::prelude::*;
use globset::Error as GlobError;
use ini::ParseError as IniParseError;

verus! {

/// Errors that can occur while parsing input or configuring a diff.
///
/// Diffing itself is infallible once both sides have parsed; these errors all
/// come from reading, decoding, or configuring inputs.
#[derive(Debug)]
#[non_exhaustive]
pub enum Error {
    /// A format could not be inferred from a file's extension or contents.
    UnknownFormat(String),
    /// A document is not valid JSON; the message says why.
    Json(String),
    /// A document is not valid TOML; the message says why.
    Toml(String),
    /// A document is not valid YAML; the message says why.
    Yaml(String),
    /// A document is not valid INI.
    Ini(IniParseError),
    /// A line of a dotenv document is neither blank, a comment, nor an
    /// assignment; `line` counts from 1.
    Dotenv { line: usize },
    /// An ignore glob pattern was invalid.
    Glob(GlobError),
    /// Reading an input failed; the message says why.
    Io(String),
}

} // verus!
