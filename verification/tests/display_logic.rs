use review_everything::app::DiffFindMatch;
use review_everything::display::{
    highlight_at, hunk_number, line_cells, line_num_width, row_find_matches, DiffSideParams, FindMark, LineCell,
};
use review_everything::types::{DisplayFile, FileStatus, HighlightRegion, HunkKind, Row, Side, SyntaxHighlight, FULL_LINE};

fn with_rows(n: usize) -> DisplayFile {
    let side = Side { content: String::new(), is_filler: false, highlights: vec![] };
    DisplayFile {
        path: "a.rs".to_string(),
        language: "Rust".to_string(),
        status: FileStatus::Modified,
        rows: vec![Row { left: side.clone(), right: side }; n],
        aligned_lines: vec![],
        hunks: vec![],
        additions: 0,
        deletions: 0,
        moved_from: None,
        content_hash: 0,
    }
}

#[test]
fn display_line_number_width() {
    assert_eq!(line_num_width(&with_rows(0)), 3);
    assert_eq!(line_num_width(&with_rows(999)), 3);
    assert_eq!(line_num_width(&with_rows(1000)), 4);
    assert_eq!(line_num_width(&with_rows(12345)), 5);
}

#[test]
fn display_find_marks_of_a_row() {
    let ms = vec![
        DiffFindMatch { row: 2, col: 1, len: 3, is_left: false },
        DiffFindMatch { row: 2, col: 9, len: 3, is_left: true },
        DiffFindMatch { row: 2, col: 7, len: 3, is_left: false },
        DiffFindMatch { row: 5, col: 0, len: 3, is_left: false },
    ];
    let params = DiffSideParams {
        is_left: false,
        scroll: 0,
        h_scroll: 0,
        line_num_width: 3,
        cursor_row: 0,
        find_highlights: Some((ms.as_slice(), 2)),
    };
    assert_eq!(row_find_matches(&params, 2), vec![(1, 3, false), (7, 3, true)]);
    assert!(row_find_matches(&params, 3).is_empty());
    let off = DiffSideParams { find_highlights: None, ..params };
    assert!(row_find_matches(&off, 2).is_empty());
}

#[test]
fn display_highlight_under_a_byte() {
    let regions = vec![
        HighlightRegion { start: 2, end: 5, highlight: Some(SyntaxHighlight::Keyword) },
        HighlightRegion { start: 4, end: 9, highlight: None },
    ];
    assert_eq!(highlight_at(&regions, 0), None);
    assert_eq!(highlight_at(&regions, 4), Some(Some(SyntaxHighlight::Keyword)));
    assert_eq!(highlight_at(&regions, 6), Some(None));
    assert_eq!(highlight_at(&regions, 9), None);
    let whole = vec![HighlightRegion { start: 0, end: FULL_LINE, highlight: Some(SyntaxHighlight::Comment) }];
    assert_eq!(highlight_at(&whole, 1000), Some(Some(SyntaxHighlight::Comment)));
}

#[test]
fn display_hunk_number_in_status_bar() {
    let hunks = vec![(5, 6, HunkKind::Mixed), (20, 22, HunkKind::AddOnly), (40, 41, HunkKind::DeleteOnly)];
    assert_eq!(hunk_number(&hunks, 0), 1);
    assert_eq!(hunk_number(&hunks, 5), 1);
    assert_eq!(hunk_number(&hunks, 10), 1);
    assert_eq!(hunk_number(&hunks, 20), 2);
    assert_eq!(hunk_number(&hunks, 30), 2);
    assert_eq!(hunk_number(&hunks, 50), 3);
}

fn chars(cells: &[LineCell]) -> String {
    cells.iter().map(|c| c.ch).collect()
}

#[test]
fn display_line_cells_scroll_and_pad() {
    let cells = line_cells("hello", &[], 2, 6, &[]);
    assert_eq!(chars(&cells), "llo   ");
    assert!(cells.iter().all(|c| c.highlight.is_none() && c.find == FindMark::Unmarked && !c.under_current));
    let past = line_cells("hi", &[], 5, 3, &[]);
    assert_eq!(chars(&past), "   ");
    assert!(line_cells("abc", &[], 0, 0, &[]).is_empty());
}

#[test]
fn display_line_cells_highlight_by_byte_offset() {
    // "é" takes two bytes, so "x" sits at byte 2 and "y" at byte 3.
    let regions = vec![HighlightRegion { start: 2, end: 3, highlight: Some(SyntaxHighlight::Keyword) }];
    let cells = line_cells("éxy", &regions, 0, 3, &[]);
    assert_eq!(chars(&cells), "éxy");
    assert!(cells[0].highlight.is_none());
    assert_eq!(cells[1].highlight, Some(Some(SyntaxHighlight::Keyword)));
    assert!(cells[2].highlight.is_none());
    let scrolled = line_cells("éxy", &regions, 1, 2, &[]);
    assert_eq!(scrolled[0].highlight, Some(Some(SyntaxHighlight::Keyword)));
    assert!(scrolled[1].highlight.is_none());
}

#[test]
fn display_line_cells_find_marks() {
    let marks = vec![(1, 3, true), (3, 2, false), (0, 1, false)];
    let cells = line_cells("abcdef", &[], 1, 5, &marks);
    let finds: Vec<FindMark> = cells.iter().map(|c| c.find).collect();
    // Scrolled by one: columns 1..4 land on cells 0..3, columns 3..5 on cells 2..4;
    // column 0 is out of view.
    assert_eq!(
        finds,
        vec![FindMark::Current, FindMark::Current, FindMark::Match, FindMark::Match, FindMark::Unmarked]
    );
    let under: Vec<bool> = cells.iter().map(|c| c.under_current).collect();
    assert_eq!(under, vec![true, true, true, false, false]);
    // Marks past the text still land on the blank cells.
    let blank = line_cells("ab", &[], 0, 4, &[(3, 5, false)]);
    assert_eq!(blank[3].find, FindMark::Match);
    assert_eq!(blank[2].find, FindMark::Unmarked);
}
