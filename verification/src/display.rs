//! What the diff pane and the status bar show, apart from drawing: the width
//! of the line-number column, the find marks of a row, the highlight under a
//! character, the cells of a content line, and the number of the hunk in view.

use vstd::prelude::*;
use vstd::string::StringSliceAdditionalSpecFns;
use vstd::utf8::{encode_scalar, encode_utf8};

use crate::app::DiffFindMatch;
use crate::text::{chars_of, dec_digits};
use crate::types::{DisplayFile, HighlightRegion, HunkKind, SyntaxHighlight, FULL_LINE};

verus! {

/// Parameters for drawing one side of the diff.
pub struct DiffSideParams<'a> {
    pub is_left: bool,
    pub scroll: usize,
    pub h_scroll: usize,
    pub line_num_width: u16,
    pub cursor_row: usize,
    /// When find is active: all matches, and the index of the current one.
    pub find_highlights: Option<(&'a [DiffFindMatch], usize)>,
}

/// Ten to the power `k`.
pub open spec fn pow10(k: nat) -> nat
    decreases k,
{
    if k == 0 {
        1
    } else {
        10 * pow10((k - 1) as nat)
    }
}

/// A number below `10^k` has at most `k` digits (and always at least one).
proof fn lemma_digits_bound(n: nat, k: nat)
    requires
        k >= 1,
        n < pow10(k),
    ensures
        dec_digits(n).len() <= k,
    decreases k,
{
    if n >= 10 {
        assert(n / 10 < pow10((k - 1) as nat)) by (nonlinear_arith)
            requires
                n < 10 * pow10((k - 1) as nat),
        ;
        assert(k >= 2) by {
            if k == 1 {
                assert(pow10(0) == 1);
            }
        }
        lemma_digits_bound(n / 10, (k - 1) as nat);
    }
}

/// Ten to the twentieth, which no `usize` reaches.
proof fn lemma_pow10_20()
    ensures
        pow10(20) == 100000000000000000000nat,
{
    reveal_with_fuel(pow10, 21);
}

/// Number of decimal digits of `n`.
fn digit_count(n: usize) -> (r: usize)
    ensures
        r == dec_digits(n as nat).len(),
    decreases n,
{
    if n < 10 {
        1
    } else {
        let r = digit_count(n / 10);
        proof {
            assert(dec_digits(n as nat) == dec_digits((n / 10) as nat).push(
                crate::text::digit_char((n % 10) as nat),
            ));
            lemma_pow10_20();
            lemma_digits_bound((n / 10) as nat, 20);
        }
        r + 1
    }
}

/// The width of the line-number column: the digits of the row count, at least 3.
pub open spec fn spec_line_num_width(rows: nat) -> nat {
    let d = dec_digits(rows).len();
    if d < 3 {
        3
    } else {
        d
    }
}

/// The width of the line-number column of `file`: as many columns as the
/// number of its rows has digits, and at least 3.
pub fn line_num_width(file: &DisplayFile) -> (r: u16)
    ensures
        r == spec_line_num_width(file.rows@.len()),
{
    let d = digit_count(file.rows.len());
    proof {
        lemma_pow10_20();
        lemma_digits_bound(file.rows@.len(), 20);
    }
    if d < 3 {
        3
    } else {
        d as u16
    }
}

/// The find marks of `row` on one side: (column, length, is the current match),
/// in the order of the matches.
pub open spec fn row_marks(ms: Seq<DiffFindMatch>, current: usize, row: usize, is_left: bool) -> Seq<(usize, usize, bool)>
    decreases ms.len(),
{
    if ms.len() == 0 {
        Seq::empty()
    } else {
        let m = ms.last();
        let prev = row_marks(ms.drop_last(), current, row, is_left);
        if m.row == row && m.is_left == is_left {
            prev.push((m.col, m.len, ms.len() - 1 == current))
        } else {
            prev
        }
    }
}

/// The find marks to draw on row `row` of the side that `params` draws.
pub fn row_find_matches(params: &DiffSideParams, row: usize) -> (r: Vec<(usize, usize, bool)>)
    ensures
        r@ == match params.find_highlights {
            Some((ms, current)) => row_marks(ms@, current, row, params.is_left),
            None => Seq::empty(),
        },
{
    let mut r: Vec<(usize, usize, bool)> = Vec::new();
    match params.find_highlights {
        Some((ms, current)) => {
            let mut i: usize = 0;
            while i < ms.len()
                invariant
                    i <= ms@.len(),
                    r@ == row_marks(ms@.take(i as int), current, row, params.is_left),
                decreases ms.len() - i,
            {
                let m = &ms[i];
                assert(ms@.take(i + 1).drop_last() == ms@.take(i as int));
                assert(ms@.take(i + 1).last() == ms@[i as int]);
                if m.row == row && m.is_left == params.is_left {
                    r.push((m.col, m.len, i == current));
                }
                i = i + 1;
            }
            assert(ms@.take(ms@.len() as int) == ms@);
        },
        None => {},
    }
    r
}

/// `region` covers the byte at `pos`: it is a whole-line region, or `pos`
/// lies in `[start, end)`.
pub open spec fn covers(region: HighlightRegion, pos: u32) -> bool {
    region.end == FULL_LINE || (region.start <= pos && pos < region.end)
}

/// The first region that covers `pos`, by index, if any.
pub open spec fn first_cover(regions: Seq<HighlightRegion>, pos: u32) -> Option<int>
    decreases regions.len(),
{
    if regions.len() == 0 {
        None
    } else if covers(regions[0], pos) {
        Some(0)
    } else {
        match first_cover(regions.drop_first(), pos) {
            Some(i) => Some(i + 1),
            None => None,
        }
    }
}

/// Whether the byte at `pos` lies in a changed region, and with what syntax
/// class: `Some` with the class of the first region that covers it, or
/// `None` when no region does.
pub fn highlight_at(regions: &[HighlightRegion], pos: u32) -> (r: Option<Option<SyntaxHighlight>>)
    ensures
        r == match first_cover(regions@, pos) {
            Some(i) => Some(regions@[i].highlight),
            None => None,
        },
{
    let mut i: usize = 0;
    assert(regions@.skip(0) == regions@);
    while i < regions.len()
        invariant
            i <= regions@.len(),
            first_cover(regions@, pos) == match first_cover(regions@.skip(i as int), pos) {
                Some(j) => Some(j + i),
                None => None,
            },
        decreases regions.len() - i,
    {
        let region = &regions[i];
        assert(regions@.skip(i as int)[0] == regions@[i as int]);
        assert(regions@.skip(i as int).drop_first() == regions@.skip(i + 1));
        if region.end == FULL_LINE || (pos >= region.start && pos < region.end) {
            return Some(region.highlight);
        }
        i = i + 1;
    }
    None
}

/// Index of the first hunk that starts at or below row `scroll`, or the
/// number of hunks when none does.
pub open spec fn first_hunk_from(hunks: Seq<(u32, u32, HunkKind)>, scroll: int) -> int
    decreases hunks.len(),
{
    if hunks.len() == 0 {
        0
    } else if hunks[0].0 >= scroll {
        0
    } else {
        1 + first_hunk_from(hunks.drop_first(), scroll)
    }
}

/// The 1-based number of the hunk in view, as the status bar shows it: the
/// hunk at the scroll position counts as the one in view, a scroll position
/// between hunks counts the hunk above it, and the number never passes the
/// hunk count.
pub open spec fn spec_hunk_number(hunks: Seq<(u32, u32, HunkKind)>, scroll: int) -> int {
    let p = first_hunk_from(hunks, scroll);
    let n = if p > 0 && (p >= hunks.len() || hunks[p].0 > scroll) {
        p
    } else {
        p + 1
    };
    if n < hunks.len() {
        n
    } else {
        hunks.len() as int
    }
}

/// The hunk number shown in the status bar for `hunks` at row `scroll`.
pub fn hunk_number(hunks: &[(u32, u32, HunkKind)], scroll: usize) -> (r: usize)
    ensures
        r == spec_hunk_number(hunks@, scroll as int),
{
    let mut p: usize = 0;
    assert(hunks@.skip(0) == hunks@);
    while p < hunks.len() && (hunks[p].0 as usize) < scroll
        invariant
            p <= hunks@.len(),
            first_hunk_from(hunks@, scroll as int) == p + first_hunk_from(hunks@.skip(p as int), scroll as int),
        decreases hunks.len() - p,
    {
        assert(hunks@.skip(p as int)[0] == hunks@[p as int]);
        assert(hunks@.skip(p as int).drop_first() == hunks@.skip(p + 1));
        p = p + 1;
    }
    if p < hunks.len() {
        assert(hunks@.skip(p as int)[0] == hunks@[p as int]);
    }
    let n = if p > 0 && (p >= hunks.len() || hunks[p].0 as usize > scroll) {
        p
    } else {
        p + 1
    };
    if n < hunks.len() {
        n
    } else {
        hunks.len()
    }
}

/// How find marks a cell of a content line.
#[derive(Debug, Clone, Copy, PartialEq, Eq, Structural)]
pub enum FindMark {
    Unmarked,
    Match,
    Current,
}

/// One cell of a content line as drawn: its character (a blank past the
/// end of the text), the changed region under it (`Some`, with the region's
/// syntax class), the last find mark laid on it, and whether a mark of the
/// current match was laid on it at all (a later mark may cover that one).
#[derive(Debug, Clone, Copy)]
pub struct LineCell {
    pub ch: char,
    pub highlight: Option<Option<SyntaxHighlight>>,
    pub find: FindMark,
    pub under_current: bool,
}

/// The number of UTF-8 bytes before character `k` of `cs`.
pub open spec fn byte_offset(cs: Seq<char>, k: int) -> nat {
    encode_utf8(cs.take(k)).len()
}

/// The changed region under character `k` of `cs`, found by the character's
/// byte offset taken as a `u32`: `Some` with its syntax class, or `None`.
pub open spec fn char_highlight(cs: Seq<char>, regions: Seq<HighlightRegion>, k: int) -> Option<Option<SyntaxHighlight>> {
    match first_cover(regions, byte_offset(cs, k) as u32) {
        Some(i) => Some(regions[i].highlight),
        None => None,
    }
}

/// Cell `x` of the text scrolled right by `h_scroll` characters, before find
/// marks: character `h_scroll + x` with its highlight, or a blank past the text.
pub open spec fn text_cell(cs: Seq<char>, regions: Seq<HighlightRegion>, h_scroll: usize, x: int) -> LineCell {
    let k = h_scroll + x;
    if k < cs.len() {
        LineCell { ch: cs[k], highlight: char_highlight(cs, regions, k), find: FindMark::Unmarked, under_current: false }
    } else {
        LineCell { ch: ' ', highlight: None, find: FindMark::Unmarked, under_current: false }
    }
}

/// The screen cell of character `i` when scrolled by `h_scroll`: the
/// distance, taken as a `u16`.
pub open spec fn screen_col(i: int, h_scroll: usize) -> int {
    ((i - h_scroll) as u16) as int
}

/// Find mark `m` (column, length, current) lands on cell `x`: one of its
/// characters lies at or after `h_scroll` and its screen cell is `x`.
pub open spec fn mark_covers(m: (usize, usize, bool), h_scroll: usize, x: int) -> bool {
    exists|i: int| m.0 <= i < m.0 + m.1 && h_scroll <= i && #[trigger] screen_col(i, h_scroll) == x
}

/// The mark `m` draws: the current match or another one.
pub open spec fn mark_kind(m: (usize, usize, bool)) -> FindMark {
    if m.2 {
        FindMark::Current
    } else {
        FindMark::Match
    }
}

/// The find mark of cell `x`: that of the last mark that lands on it.
pub open spec fn find_mark_at(marks: Seq<(usize, usize, bool)>, h_scroll: usize, x: int) -> FindMark
    decreases marks.len(),
{
    if marks.len() == 0 {
        FindMark::Unmarked
    } else if mark_covers(marks.last(), h_scroll, x) {
        mark_kind(marks.last())
    } else {
        find_mark_at(marks.drop_last(), h_scroll, x)
    }
}

/// Whether a mark of the current match lands on cell `x`.
pub open spec fn current_lands(marks: Seq<(usize, usize, bool)>, h_scroll: usize, x: int) -> bool
    decreases marks.len(),
{
    if marks.len() == 0 {
        false
    } else {
        (marks.last().2 && mark_covers(marks.last(), h_scroll, x)) || current_lands(marks.drop_last(), h_scroll, x)
    }
}

/// `c` with the find mark `f`, under the current match or not.
pub open spec fn with_find(c: LineCell, f: FindMark, under_current: bool) -> LineCell {
    LineCell { find: f, under_current, ..c }
}

/// Cell `x` of a content line: the text cell with its find mark.
pub open spec fn line_cell(
    cs: Seq<char>,
    regions: Seq<HighlightRegion>,
    h_scroll: usize,
    marks: Seq<(usize, usize, bool)>,
    x: int,
) -> LineCell {
    with_find(text_cell(cs, regions, h_scroll, x), find_mark_at(marks, h_scroll, x), current_lands(marks, h_scroll, x))
}

/// The UTF-8 encoding of `a` followed by `b` is that of `a` followed by that of `b`.
proof fn lemma_encode_concat(a: Seq<char>, b: Seq<char>)
    ensures
        encode_utf8(a + b) == encode_utf8(a) + encode_utf8(b),
    decreases a.len(),
{
    if a.len() == 0 {
        assert(a + b == b);
        assert(encode_utf8(a) + encode_utf8(b) == encode_utf8(b));
    } else {
        assert((a + b).drop_first() == a.drop_first() + b);
        assert((a + b)[0] == a[0]);
        lemma_encode_concat(a.drop_first(), b);
        assert(encode_utf8(a + b) == encode_scalar(a[0] as u32) + (encode_utf8(a.drop_first()) + encode_utf8(b)));
        assert(encode_utf8(a + b) =~= encode_scalar(a[0] as u32) + encode_utf8(a.drop_first()) + encode_utf8(b));
    }
}

/// One more character adds its encoding's length to the byte offset, and no
/// prefix is longer in bytes than the whole.
proof fn lemma_byte_offset_step(cs: Seq<char>, k: int)
    requires
        0 <= k < cs.len(),
    ensures
        byte_offset(cs, k + 1) == byte_offset(cs, k) + encode_scalar(cs[k] as u32).len(),
        byte_offset(cs, k + 1) <= encode_utf8(cs).len(),
{
    assert(cs.take(k + 1) == cs.take(k) + seq![cs[k]]);
    lemma_encode_concat(cs.take(k), seq![cs[k]]);
    assert(seq![cs[k]].drop_first() == Seq::<char>::empty());
    assert(encode_utf8(seq![cs[k]]) == encode_scalar(cs[k] as u32) + encode_utf8(Seq::<char>::empty()));
    assert(cs == cs.take(k + 1) + cs.skip(k + 1));
    lemma_encode_concat(cs.take(k + 1), cs.skip(k + 1));
}

/// The number of bytes `c` takes in UTF-8.
fn utf8_width(c: char) -> (r: usize)
    ensures
        r == encode_scalar(c as u32).len(),
{
    proof {
        vstd::utf8::char_is_scalar(c);
    }
    let v = c as u32;
    if v <= 0x7F {
        1
    } else if v <= 0x7FF {
        2
    } else if v <= 0xFFFF {
        3
    } else {
        4
    }
}

/// The cells of a content line `width` cells wide, scrolled right by
/// `h_scroll` characters: each visible character with the changed region
/// under it (looked up by its byte offset), blanks past the end of the text,
/// then the find marks laid over them in order, a later one over an earlier.
pub fn line_cells(
    content: &str,
    regions: &[HighlightRegion],
    h_scroll: usize,
    width: u16,
    marks: &[(usize, usize, bool)],
) -> (r: Vec<LineCell>)
    requires
        forall|i: int| 0 <= i < marks@.len() ==> #[trigger] marks@[i].0 + marks@[i].1 <= usize::MAX + 1,
    ensures
        r@.len() == width,
        forall|x: int| 0 <= x < width ==> #[trigger] r@[x] == line_cell(content@, regions@, h_scroll, marks@, x),
{
    let cs = chars_of(content);
    let total = content.as_bytes().len();
    proof {
        assert(content.spec_bytes() == encode_utf8(content@));
    }
    let w = width as usize;
    let mut k: usize = 0;
    let mut off: usize = 0;
    assert(cs@.take(0) == Seq::<char>::empty());
    while k < h_scroll && k < cs.len()
        invariant
            cs@ == content@,
            total == encode_utf8(cs@).len(),
            k <= h_scroll,
            k <= cs@.len(),
            off == byte_offset(cs@, k as int),
        decreases cs.len() - k,
    {
        proof {
            lemma_byte_offset_step(cs@, k as int);
        }
        off = off + utf8_width(cs[k]);
        k = k + 1;
    }
    let mut r: Vec<LineCell> = Vec::new();
    let mut x: usize = 0;
    if h_scroll < cs.len() {
        while x < w && k < cs.len()
            invariant
                cs@ == content@,
                total == encode_utf8(cs@).len(),
                k == h_scroll + x,
                k <= cs@.len(),
                x <= w,
                w == width,
                off == byte_offset(cs@, k as int),
                r@.len() == x,
                forall|y: int| 0 <= y < x ==> #[trigger] r@[y] == text_cell(cs@, regions@, h_scroll, y),
            decreases w - x,
        {
            let c = cs[k];
            let hl = highlight_at(regions, off as u32);
            r.push(LineCell { ch: c, highlight: hl, find: FindMark::Unmarked, under_current: false });
            assert(r@[x as int] == text_cell(cs@, regions@, h_scroll, x as int));
            proof {
                lemma_byte_offset_step(cs@, k as int);
            }
            off = off + utf8_width(c);
            k = k + 1;
            x = x + 1;
        }
    }
    while x < w
        invariant
            cs@ == content@,
            x <= w,
            w == width,
            r@.len() == x,
            x > 0 && x < w ==> h_scroll + x >= cs@.len(),
            h_scroll < cs@.len() ==> (x < w ==> h_scroll + x >= cs@.len()),
            forall|y: int| 0 <= y < x ==> #[trigger] r@[y] == text_cell(cs@, regions@, h_scroll, y),
        decreases w - x,
    {
        r.push(LineCell { ch: ' ', highlight: None, find: FindMark::Unmarked, under_current: false });
        x = x + 1;
    }
    let mut mi: usize = 0;
    assert(marks@.take(0) == Seq::<(usize, usize, bool)>::empty());
    while mi < marks.len()
        invariant
            cs@ == content@,
            w == width,
            r@.len() == w,
            mi <= marks@.len(),
            forall|i: int| 0 <= i < marks@.len() ==> #[trigger] marks@[i].0 + marks@[i].1 <= usize::MAX + 1,
            forall|y: int|
                0 <= y < w ==> #[trigger] r@[y] == with_find(
                    text_cell(cs@, regions@, h_scroll, y),
                    find_mark_at(marks@.take(mi as int), h_scroll, y),
                    current_lands(marks@.take(mi as int), h_scroll, y),
                ),
        decreases marks.len() - mi,
    {
        let (col, len, current) = marks[mi];
        let m = (col, len, current);
        assert(m == marks@[mi as int]);
        let kind = if current {
            FindMark::Current
        } else {
            FindMark::Match
        };
        let ghost prev = marks@.take(mi as int);
        let mut o: usize = 0;
        while o < len
            invariant
                w == width,
                r@.len() == w,
                o <= len,
                col + len <= usize::MAX + 1,
                kind == mark_kind(m),
                m == (col, len, current),
                forall|y: int|
                    0 <= y < w ==> #[trigger] r@[y] == with_find(
                        text_cell(cs@, regions@, h_scroll, y),
                        if mark_covers((col, o, current), h_scroll, y) {
                            kind
                        } else {
                            find_mark_at(prev, h_scroll, y)
                        },
                        (current && mark_covers((col, o, current), h_scroll, y)) || current_lands(prev, h_scroll, y),
                    ),
            decreases len - o,
        {
            let ci = col + o;
            if ci >= h_scroll {
                let sx = (ci - h_scroll) as u16;
                assert(sx as int == screen_col(ci as int, h_scroll));
                if (sx as usize) < w {
                    let cell = r[sx as usize];
                    r.set(sx as usize, LineCell { find: kind, under_current: cell.under_current || current, ..cell });
                }
            }
            o = o + 1;
        }
        proof {
            let t = marks@.take(mi + 1);
            assert(t.drop_last() == prev);
            assert(t.last() == m);
        }
        mi = mi + 1;
    }
    assert(marks@.take(marks@.len() as int) == marks@);
    r
}

} // verus!
