//! Deduplicates line-oriented records spread across many input files:
//! each line maps to a domain-specific key, the most recently committed
//! value per key wins, duplicate and conflicting occurrences are
//! reported, and the deduplicated result is regrouped into one output
//! file per derived path, in ascending key order.

use vstd::prelude::*;

pub mod db;
pub mod formats;
pub mod lex;
pub mod lines;
pub mod report;
pub mod session;

verus! {

use vstd::string::StringSliceAdditionalSpecFns;

/// The caller-supplied key/path capability: a pure mapping from a line's
/// content to its key bytes, and from key bytes to an output-relative path.
///
/// Implementors must uphold one obligation beyond the contracts written
/// here: all keys that map to the same `path` result must be contiguous
/// when keys are sorted in ascending byte order. Write-back rejects a
/// store whose keys breach it (see `db::LineDb::write_plan`).
pub trait Format: Sized {
    type Error;

    /// The key derived from a line, given as the line's UTF-8 bytes;
    /// `None` when the line is malformed for this domain.
    spec fn key_spec(line: Seq<u8>) -> Option<Seq<u8>>;

    /// The output-relative path derived from a key; `None` when the key
    /// is malformed for this domain.
    spec fn path_spec(key: Seq<u8>) -> Option<Seq<char>>;

    /// Derives the key for a line; fails exactly when `key_spec` gives
    /// `None` for the line's bytes.
    fn key(line: &str) -> (r: Result<Vec<u8>, Self::Error>)
        ensures
            match r {
                Ok(k) => Self::key_spec(line.spec_bytes()) == Some(k@),
                Err(_) => Self::key_spec(line.spec_bytes()) is None,
            },
    ;

    /// Derives the output-relative path for a key; fails exactly when
    /// `path_spec` gives `None` for the key.
    fn path(key: &[u8]) -> (r: Result<String, Self::Error>)
        ensures
            match r {
                Ok(p) => Self::path_spec(key@) == Some(p@),
                Err(_) => Self::path_spec(key@) is None,
            },
    ;

    /// Whether directory discovery descends into subdirectories.
    fn is_input_recursive() -> bool {
        false
    }

    /// Whether a discovered file takes part in the run.
    fn included(path: &str) -> bool {
        true
    }
}

/// Where a line was read from: the input file's path and the 1-based line
/// number inside it.
#[derive(Clone, Debug, PartialEq, Eq)]
pub struct Location {
    pub path: String,
    pub line_number: usize,
}

impl Location {
    pub fn new(path: &str, line_number: usize) -> (r: Self)
        ensures
            r.path@ == path@,
            r.line_number == line_number,
    {
        Self { path: path.to_owned(), line_number }
    }
}

/// The pair of values involved in a collision: the value that was stored
/// before the insert, and the value that replaced it.
#[derive(Clone, Debug, PartialEq, Eq)]
pub struct Replacement {
    pub old_value: String,
    pub new_value: String,
}

/// An instance of a repeated key.
///
/// May be either a duplicate (the line values are the same, `replacement` is
/// `None`) or a collision (the line values differ, `replacement` holds the
/// old and the new value).
#[derive(Clone, Debug, PartialEq, Eq)]
pub struct Repeat {
    pub location: Location,
    pub replacement: Option<Replacement>,
}

impl Repeat {
    pub fn is_collision(&self) -> (r: bool)
        ensures
            r == self.replacement is Some,
    {
        self.replacement.is_some()
    }
}

} // verus!
