//! Error taxonomy for the whole crate.
//!
//! Parse and alias failures are per-document and never halt processing of
//! the remaining corpus; regex-build failures abort only the query that
//! needed the pattern.

use vstd::prelude::*;

verus! {

/// A recoverable failure, always carried as a value, never a panic.
#[derive(Debug)]
pub enum Error {
    /// A miscellaneous per-document failure (for instance an alias entry
    /// that is not a string).
    Generic(String),
    /// An alternation pattern that the regex engine refused to compile.
    Regex(String),
    /// The document's text does not match the grammar; carries the path of
    /// the document and a diagnostic message.
    ParseError(Vec<u8>, String),
}

impl Error {
    /// The diagnostic message, for reporting at the host boundary.
    pub fn message(&self) -> &String {
        match self {
            Error::Generic(m) => m,
            Error::Regex(m) => m,
            Error::ParseError(_, m) => m,
        }
    }

    pub fn is_parse_error(&self) -> (r: bool)
        ensures
            r == self is ParseError,
    {
        match self {
            Error::ParseError(_, _) => true,
            _ => false,
        }
    }
}

} // verus!
