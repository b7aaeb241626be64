//! A file as difftastic reports it: its status, how its lines align, and the
//! changed regions of each line.

use vstd::prelude::*;

use crate::app::str_eq;
use crate::types::SyntaxHighlight;

verus! {

/// difftastic's verdict on one file.
#[derive(Debug, Clone, Copy, PartialEq, Eq, Structural)]
pub enum Status {
    Unchanged,
    Changed,
    Created,
    Deleted,
}

/// A changed region of a line: byte offsets `[start, end)` and its syntax class.
#[derive(Debug, Clone, Copy)]
pub struct Change {
    pub start: u32,
    pub end: u32,
    pub highlight: SyntaxHighlight,
}

/// The changed regions of one line of one side (0-based line number).
#[derive(Debug, Clone)]
pub struct SideChange {
    pub line_number: u32,
    pub changes: Vec<Change>,
}

/// The changes of a pair of lines, old side (`lhs`) and new side (`rhs`).
#[derive(Debug, Clone)]
pub struct LineChange {
    pub lhs: Option<SideChange>,
    pub rhs: Option<SideChange>,
}

/// One file of difftastic's output.
#[derive(Debug, Clone)]
pub struct DifftFile {
    pub path: String,
    pub language: String,
    pub status: Status,
    /// Per displayed row: the old and new line numbers, where the side has a line.
    pub aligned_lines: Vec<(Option<u32>, Option<u32>)>,
    /// Groups of changed line pairs.
    pub chunks: Vec<Vec<LineChange>>,
}


/// The verdict that difftastic writes as `name`: "changed", "created",
/// "deleted"; anything else counts as unchanged.
pub open spec fn spec_status_named(name: Seq<char>) -> Status {
    if name == "changed"@ {
        Status::Changed
    } else if name == "created"@ {
        Status::Created
    } else if name == "deleted"@ {
        Status::Deleted
    } else {
        Status::Unchanged
    }
}

/// The verdict that difftastic writes as `name`.
pub fn status_named(name: &str) -> (r: Status)
    ensures
        r == spec_status_named(name@),
{
    if str_eq(name, "changed") {
        Status::Changed
    } else if str_eq(name, "created") {
        Status::Created
    } else if str_eq(name, "deleted") {
        Status::Deleted
    } else {
        Status::Unchanged
    }
}

/// The syntax class that difftastic writes as `name`: "keyword", "string",
/// "comment", "type", "delimiter"; anything else is normal text.
pub open spec fn spec_highlight_named(name: Seq<char>) -> SyntaxHighlight {
    if name == "keyword"@ {
        SyntaxHighlight::Keyword
    } else if name == "string"@ {
        SyntaxHighlight::String
    } else if name == "comment"@ {
        SyntaxHighlight::Comment
    } else if name == "type"@ {
        SyntaxHighlight::Type
    } else if name == "delimiter"@ {
        SyntaxHighlight::Delimiter
    } else {
        SyntaxHighlight::Normal
    }
}

/// The syntax class that difftastic writes as `name`.
pub fn highlight_named(name: &str) -> (r: SyntaxHighlight)
    ensures
        r == spec_highlight_named(name@),
{
    if str_eq(name, "keyword") {
        SyntaxHighlight::Keyword
    } else if str_eq(name, "string") {
        SyntaxHighlight::String
    } else if str_eq(name, "comment") {
        SyntaxHighlight::Comment
    } else if str_eq(name, "type") {
        SyntaxHighlight::Type
    } else if str_eq(name, "delimiter") {
        SyntaxHighlight::Delimiter
    } else {
        SyntaxHighlight::Normal
    }
}

} // verus!
