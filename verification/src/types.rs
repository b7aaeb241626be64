//! The display model of a diff: files, aligned rows, sides, hunks and highlights.

use vstd::prelude::*;

verus! {

/// How a file changed between the two sides of a diff.
#[derive(Debug, Clone, Copy, PartialEq, Eq, Structural)]
pub enum FileStatus {
    Created,
    Deleted,
    Modified,
    Unchanged,
}

/// What a hunk holds: only additions, only deletions, or both.
#[derive(Debug, Clone, Copy, PartialEq, Eq, Structural)]
pub enum HunkKind {
    AddOnly,
    DeleteOnly,
    Mixed,
}

/// Syntax class of a highlighted region, as difftastic reports it.
#[derive(Debug, Clone, Copy, PartialEq, Eq, Structural)]
pub enum SyntaxHighlight {
    Keyword,
    String,
    Comment,
    Type,
    Delimiter,
    Normal,
}

/// Region end that marks a highlight covering the whole line.
pub const FULL_LINE: u32 = 0xffff_ffffu32;

/// A changed region of a line, in byte offsets `[start, end)`.
#[derive(Debug, Clone, Copy)]
pub struct HighlightRegion {
    pub start: u32,
    pub end: u32,
    pub highlight: Option<SyntaxHighlight>,
}

/// One side (old or new) of an aligned row.
#[derive(Debug, Clone)]
pub struct Side {
    pub content: String,
    pub is_filler: bool,
    pub highlights: Vec<HighlightRegion>,
}

/// An aligned row: the old line on the left, the new line on the right.
#[derive(Debug, Clone)]
pub struct Row {
    pub left: Side,
    pub right: Side,
}

/// A file of the diff, ready for display.
#[derive(Debug, Clone)]
pub struct DisplayFile {
    pub path: String,
    pub language: String,
    pub status: FileStatus,
    pub rows: Vec<Row>,
    /// Per row: the old and new line numbers (0-based), where the side has a line.
    pub aligned_lines: Vec<(Option<u32>, Option<u32>)>,
    /// Per hunk: first row, last row, and kind.
    pub hunks: Vec<(u32, u32, HunkKind)>,
    pub additions: u32,
    pub deletions: u32,
    pub moved_from: Option<String>,
    pub content_hash: u64,
}

} // verus!
