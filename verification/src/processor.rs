//! From difftastic's report of a file and the lines of both sides to the
//! display file: aligned rows with their changed regions, hunks and counts.

use vstd::prelude::*;

use crate::difft::{Change, DifftFile, LineChange, SideChange, Status};
use crate::hunks::{compute_hunks, count_changed_rows, count_rows, hunks_of_rows};
use crate::types::{DisplayFile, FileStatus, HighlightRegion, Row, Side, FULL_LINE};

verus! {

/// The changed line pairs of all chunks, in order.
pub open spec fn all_line_changes(chunks: Seq<Vec<LineChange>>) -> Seq<LineChange>
    decreases chunks.len(),
{
    if chunks.len() == 0 {
        Seq::empty()
    } else {
        all_line_changes(chunks.drop_last()) + chunks.last()@
    }
}

/// The region of a change, with its syntax class.
pub open spec fn region_of(c: Change) -> HighlightRegion {
    HighlightRegion { start: c.start, end: c.end, highlight: Some(c.highlight) }
}

/// The regions that one line pair gives line `n` of the old (`left`) or new side.
pub open spec fn pair_regions(lc: LineChange, left: bool, n: u32) -> Seq<HighlightRegion> {
    let side = if left {
        lc.lhs
    } else {
        lc.rhs
    };
    match side {
        Some(sc) => if sc.line_number == n {
            sc.changes@.map_values(|c: Change| region_of(c))
        } else {
            Seq::empty()
        },
        None => Seq::empty(),
    }
}

/// The regions that the line pairs `lcs` give line `n` of one side, in order.
pub open spec fn regions_for(lcs: Seq<LineChange>, left: bool, n: u32) -> Seq<HighlightRegion>
    decreases lcs.len(),
{
    if lcs.len() == 0 {
        Seq::empty()
    } else {
        regions_for(lcs.drop_last(), left, n) + pair_regions(lcs.last(), left, n)
    }
}

/// A region covering the whole line, with no syntax class.
pub open spec fn whole_line() -> HighlightRegion {
    HighlightRegion { start: 0, end: FULL_LINE, highlight: None }
}

/// A created file (new side) or deleted file (old side) that difftastic gave
/// no chunks is shown changed on every line.
pub open spec fn whole_side(file: DifftFile, left: bool) -> bool {
    file.chunks@.len() == 0 && ((left && file.status == Status::Deleted) || (!left && file.status
        == Status::Created))
}

/// The regions shown on line `n` of one side of `file`.
pub open spec fn line_regions(file: DifftFile, left: bool, n: u32) -> Seq<HighlightRegion> {
    if whole_side(file, left) {
        seq![whole_line()]
    } else {
        regions_for(all_line_changes(file.chunks@), left, n)
    }
}

/// The display status of difftastic's verdict.
pub open spec fn display_status(s: Status) -> FileStatus {
    match s {
        Status::Created => FileStatus::Created,
        Status::Deleted => FileStatus::Deleted,
        Status::Changed => FileStatus::Modified,
        Status::Unchanged => FileStatus::Unchanged,
    }
}

/// The rows' line numbers: difftastic's alignment, or when it gives none, the
/// lines of a created file on the new side, of a deleted file on the old
/// side, else both sides line by line.
pub open spec fn alignment(file: DifftFile, old_len: nat, new_len: nat) -> Seq<(Option<u32>, Option<u32>)> {
    if file.aligned_lines@.len() > 0 {
        file.aligned_lines@
    } else if file.status == Status::Created {
        Seq::new(new_len, |i: int| (None, Some(i as u32)))
    } else if file.status == Status::Deleted {
        Seq::new(old_len, |i: int| (Some(i as u32), None))
    } else {
        let m = if old_len < new_len {
            new_len
        } else {
            old_len
        };
        Seq::new(
            m,
            |i: int|
                (if i < old_len {
                    Some(i as u32)
                } else {
                    None
                }, if i < new_len {
                    Some(i as u32)
                } else {
                    None
                }),
        )
    }
}

/// `s` shows line `line` of `lines` (empty past the end) with `regions`, or
/// is a filler when the side has no line.
pub open spec fn side_shows(s: Side, lines: Seq<String>, line: Option<u32>, regions: Seq<HighlightRegion>) -> bool {
    match line {
        Some(n) => {
            &&& !s.is_filler
            &&& s.content@ == if n < lines.len() {
                lines[n as int]@
            } else {
                Seq::empty()
            }
            &&& s.highlights@ == regions
        },
        None => s.is_filler && s.content@.len() == 0 && s.highlights@.len() == 0,
    }
}

/// The regions of the line a side shows, if it shows one.
pub open spec fn regions_at(file: DifftFile, left: bool, line: Option<u32>) -> Seq<HighlightRegion> {
    match line {
        Some(n) => line_regions(file, left, n),
        None => Seq::empty(),
    }
}

/// `r` is the display file of `file`, with the lines of both sides, git's
/// counts if any, and the content hash.
pub open spec fn processed(
    file: DifftFile,
    old_lines: Seq<String>,
    new_lines: Seq<String>,
    stats: Option<(u32, u32)>,
    content_hash: u64,
    r: DisplayFile,
) -> bool {
    let al = alignment(file, old_lines.len(), new_lines.len());
    &&& r.path == file.path
    &&& r.language == file.language
    &&& r.status == display_status(file.status)
    &&& r.aligned_lines@ == al
    &&& r.rows@.len() == al.len()
    &&& forall|i: int|
        0 <= i < al.len() ==> side_shows(
            (#[trigger] r.rows@[i]).left,
            old_lines,
            al[i].0,
            regions_at(file, true, al[i].0),
        ) && side_shows(r.rows@[i].right, new_lines, al[i].1, regions_at(file, false, al[i].1))
    &&& hunks_of_rows(r.rows@, r.hunks@)
    &&& (r.additions, r.deletions) == match stats {
        Some(s) => s,
        None => (count_rows(r.rows@, true) as u32, count_rows(r.rows@, false) as u32),
    }
    &&& r.moved_from is None
    &&& r.content_hash == content_hash
}

/// The regions of a line's changes, in order.
fn regions_of(sc: &SideChange) -> (r: Vec<HighlightRegion>)
    ensures
        r@ == sc.changes@.map_values(|c: Change| region_of(c)),
{
    let mut r: Vec<HighlightRegion> = Vec::new();
    let mut i: usize = 0;
    while i < sc.changes.len()
        invariant
            i <= sc.changes@.len(),
            r@ == sc.changes@.take(i as int).map_values(|c: Change| region_of(c)),
        decreases sc.changes.len() - i,
    {
        let c = sc.changes[i];
        r.push(HighlightRegion { start: c.start, end: c.end, highlight: Some(c.highlight) });
        assert(sc.changes@.take(i + 1).map_values(|c: Change| region_of(c)) == sc.changes@.take(
            i as int,
        ).map_values(|c: Change| region_of(c)).push(region_of(sc.changes@[i as int])));
        i = i + 1;
    }
    assert(sc.changes@.take(sc.changes@.len() as int) == sc.changes@);
    r
}

/// The regions that one line pair gives line `n` of one side.
fn pair_regions_of(lc: &LineChange, left: bool, n: u32) -> (r: Vec<HighlightRegion>)
    ensures
        r@ == pair_regions(*lc, left, n),
{
    let side = if left {
        &lc.lhs
    } else {
        &lc.rhs
    };
    match side {
        Some(sc) => if sc.line_number == n {
            regions_of(sc)
        } else {
            Vec::new()
        },
        None => Vec::new(),
    }
}

/// The regions that all the line pairs of `chunks` give line `n` of one side.
fn regions_scan(chunks: &Vec<Vec<LineChange>>, left: bool, n: u32) -> (r: Vec<HighlightRegion>)
    ensures
        r@ == regions_for(all_line_changes(chunks@), left, n),
{
    let mut r: Vec<HighlightRegion> = Vec::new();
    let mut ci: usize = 0;
    assert(chunks@.take(0) == Seq::<Vec<LineChange>>::empty());
    while ci < chunks.len()
        invariant
            ci <= chunks@.len(),
            r@ == regions_for(all_line_changes(chunks@.take(ci as int)), left, n),
        decreases chunks.len() - ci,
    {
        let chunk = &chunks[ci];
        let mut li: usize = 0;
        assert(chunk@.take(0) == Seq::<LineChange>::empty());
        assert(all_line_changes(chunks@.take(ci as int)) + chunk@.take(0) == all_line_changes(chunks@.take(ci as int)));
        while li < chunk.len()
            invariant
                ci < chunks@.len(),
                *chunk == chunks@[ci as int],
                li <= chunk@.len(),
                r@ == regions_for(all_line_changes(chunks@.take(ci as int)) + chunk@.take(li as int), left, n),
            decreases chunk.len() - li,
        {
            let ghost done = all_line_changes(chunks@.take(ci as int)) + chunk@.take(li as int);
            let mut more = pair_regions_of(&chunk[li], left, n);
            r.append(&mut more);
            proof {
                let next = all_line_changes(chunks@.take(ci as int)) + chunk@.take(li + 1);
                assert(next == done.push(chunk@[li as int]));
                assert(next.drop_last() == done);
            }
            li = li + 1;
        }
        proof {
            assert(chunks@.take(ci + 1).drop_last() == chunks@.take(ci as int));
            assert(chunks@.take(ci + 1).last() == chunks@[ci as int]);
            assert(chunk@.take(chunk@.len() as int) == chunk@);
        }
        ci = ci + 1;
    }
    assert(chunks@.take(chunks@.len() as int) == chunks@);
    r
}

/// Per line below `len`, the regions that all the line pairs of `chunks`
/// give it on one side.
fn region_table(chunks: &Vec<Vec<LineChange>>, left: bool, len: usize) -> (t: Vec<Vec<HighlightRegion>>)
    requires
        len <= u32::MAX as int + 1,
    ensures
        t@.len() == len,
        forall|m: int| 0 <= m < len ==> (#[trigger] t@[m])@ == regions_for(all_line_changes(chunks@), left, m as u32),
{
    let mut t: Vec<Vec<HighlightRegion>> = Vec::new();
    let mut k: usize = 0;
    while k < len
        invariant
            k <= len,
            t@.len() == k,
            forall|m: int| 0 <= m < k ==> (#[trigger] t@[m])@.len() == 0,
        decreases len - k,
    {
        t.push(Vec::new());
        k = k + 1;
    }
    let mut ci: usize = 0;
    assert(chunks@.take(0) == Seq::<Vec<LineChange>>::empty());
    assert forall|m: int| 0 <= m < len implies (#[trigger] t@[m])@ == regions_for(all_line_changes(chunks@.take(0)), left, m as u32) by {
    }
    while ci < chunks.len()
        invariant
            ci <= chunks@.len(),
            len <= u32::MAX as int + 1,
            t@.len() == len,
            forall|m: int| 0 <= m < len ==> (#[trigger] t@[m])@ == regions_for(all_line_changes(chunks@.take(ci as int)), left, m as u32),
        decreases chunks.len() - ci,
    {
        let chunk = &chunks[ci];
        let mut li: usize = 0;
        assert(chunk@.take(0) == Seq::<LineChange>::empty());
        assert(all_line_changes(chunks@.take(ci as int)) + chunk@.take(0) == all_line_changes(chunks@.take(ci as int)));
        while li < chunk.len()
            invariant
                ci < chunks@.len(),
                *chunk == chunks@[ci as int],
                li <= chunk@.len(),
                len <= u32::MAX as int + 1,
                t@.len() == len,
                forall|m: int| 0 <= m < len ==> (#[trigger] t@[m])@ == regions_for(all_line_changes(chunks@.take(ci as int)) + chunk@.take(li as int), left, m as u32),
            decreases chunk.len() - li,
        {
            let ghost done = all_line_changes(chunks@.take(ci as int)) + chunk@.take(li as int);
            let ghost next = all_line_changes(chunks@.take(ci as int)) + chunk@.take(li + 1);
            proof {
                assert(next == done.push(chunk@[li as int]));
                assert(next.drop_last() == done);
            }
            let lc = &chunk[li];
            let side = if left {
                &lc.lhs
            } else {
                &lc.rhs
            };
            let ghost before = t@;
            match side {
                Some(sc) => {
                    let m = sc.line_number as usize;
                    if m < len {
                        let mut more = regions_of(sc);
                        let row = &mut t[m];
                        row.append(&mut more);
                    }
                },
                None => {},
            }
            proof {
                assert forall|m: int| 0 <= m < len implies (#[trigger] t@[m])@ == regions_for(next, left, m as u32) by {
                    assert(regions_for(next, left, m as u32) == regions_for(done, left, m as u32) + pair_regions(*lc, left, m as u32));
                    assert((m as u32) as int == m);
                    if pair_regions(*lc, left, m as u32).len() > 0 {
                        assert(t@[m]@ == before[m]@ + pair_regions(*lc, left, m as u32));
                    } else {
                        assert(regions_for(done, left, m as u32) + pair_regions(*lc, left, m as u32) == regions_for(done, left, m as u32));
                        assert(t@[m]@ == before[m]@ + pair_regions(*lc, left, m as u32));
                    }
                }
            }
            li = li + 1;
        }
        proof {
            assert(chunks@.take(ci + 1).drop_last() == chunks@.take(ci as int));
            assert(chunks@.take(ci + 1).last() == chunks@[ci as int]);
            assert(chunk@.take(chunk@.len() as int) == chunk@);
        }
        ci = ci + 1;
    }
    assert(chunks@.take(chunks@.len() as int) == chunks@);
    t
}


/// A copy of a list of regions.
fn copy_regions(v: &Vec<HighlightRegion>) -> (r: Vec<HighlightRegion>)
    ensures
        r@ == v@,
{
    let mut r: Vec<HighlightRegion> = Vec::new();
    let mut i: usize = 0;
    while i < v.len()
        invariant
            i <= v@.len(),
            r@ == v@.take(i as int),
        decreases v.len() - i,
    {
        r.push(v[i]);
        assert(v@.take(i + 1) == v@.take(i as int).push(v@[i as int]));
        i = i + 1;
    }
    assert(v@.take(v@.len() as int) == v@);
    r
}

/// The rows' line numbers of `file` (see `alignment`).
fn align(file: &DifftFile, old_len: usize, new_len: usize) -> (r: Vec<(Option<u32>, Option<u32>)>)
    requires
        old_len <= u32::MAX,
        new_len <= u32::MAX,
    ensures
        r@ == alignment(*file, old_len as nat, new_len as nat),
{
    let mut r: Vec<(Option<u32>, Option<u32>)> = Vec::new();
    if file.aligned_lines.len() > 0 {
        let mut i: usize = 0;
        while i < file.aligned_lines.len()
            invariant
                i <= file.aligned_lines@.len(),
                r@ == file.aligned_lines@.take(i as int),
            decreases file.aligned_lines.len() - i,
        {
            r.push(file.aligned_lines[i]);
            assert(file.aligned_lines@.take(i + 1) == file.aligned_lines@.take(i as int).push(
                file.aligned_lines@[i as int],
            ));
            i = i + 1;
        }
        assert(file.aligned_lines@.take(file.aligned_lines@.len() as int) == file.aligned_lines@);
        return r;
    }
    let created = file.status == Status::Created;
    let deleted = file.status == Status::Deleted;
    let m: usize = if created {
        new_len
    } else if deleted {
        old_len
    } else if old_len < new_len {
        new_len
    } else {
        old_len
    };
    let ghost target = alignment(*file, old_len as nat, new_len as nat);
    let mut i: usize = 0;
    while i < m
        invariant
            i <= m,
            m <= u32::MAX,
            target == alignment(*file, old_len as nat, new_len as nat),
            target.len() == m,
            file.aligned_lines@.len() == 0,
            created == (file.status == Status::Created),
            deleted == (file.status == Status::Deleted),
            r@ == target.take(i as int),
        decreases m - i,
    {
        let n = i as u32;
        let pair: (Option<u32>, Option<u32>) = if created {
            (None, Some(n))
        } else if deleted {
            (Some(n), None)
        } else {
            (if i < old_len {
                Some(n)
            } else {
                None
            }, if i < new_len {
                Some(n)
            } else {
                None
            })
        };
        assert(pair == target[i as int]);
        r.push(pair);
        assert(target.take(i + 1) == target.take(i as int).push(target[i as int]));
        i = i + 1;
    }
    assert(target.take(m as int) == target);
    r
}

/// One side of a row: line `line` of `lines` with its regions, or a filler.
fn make_side(
    lines: &Vec<String>,
    line: Option<u32>,
    table: &Vec<Vec<HighlightRegion>>,
    chunks: &Vec<Vec<LineChange>>,
    left: bool,
    whole: bool,
    Ghost(file): Ghost<DifftFile>,
) -> (s: Side)
    requires
        chunks@ == file.chunks@,
        whole == whole_side(file, left),
        table@.len() <= u32::MAX as int + 1,
        forall|m: int|
            0 <= m < table@.len() ==> (#[trigger] table@[m])@ == regions_for(all_line_changes(chunks@), left, m as u32),
    ensures
        side_shows(s, lines@, line, regions_at(file, left, line)),
{
    match line {
        None => Side { content: String::new(), is_filler: true, highlights: Vec::new() },
        Some(n) => {
            let k = n as usize;
            let content = if k < lines.len() {
                lines[k].clone()
            } else {
                String::new()
            };
            let highlights = if whole {
                let mut h: Vec<HighlightRegion> = Vec::new();
                h.push(HighlightRegion { start: 0, end: FULL_LINE, highlight: None });
                h
            } else if k < table.len() {
                proof {
                    assert((k as int) as u32 == n);
                }
                copy_regions(&table[k])
            } else {
                regions_scan(chunks, left, n)
            };
            Side { content, is_filler: false, highlights }
        },
    }
}

/// The display status of difftastic's verdict.
fn status_of(s: Status) -> (r: FileStatus)
    ensures
        r == display_status(s),
{
    match s {
        Status::Created => FileStatus::Created,
        Status::Deleted => FileStatus::Deleted,
        Status::Changed => FileStatus::Modified,
        Status::Unchanged => FileStatus::Unchanged,
    }
}

/// Builds the display file of one of difftastic's files from the lines of
/// both sides: a row per aligned pair of lines (difftastic's alignment, or
/// the lines side by side when it gives none) with the changed regions of
/// each line, the hunks, and git's line counts (or, without them, the number
/// of rows changed on each side).
pub fn process_file(
    file: DifftFile,
    old_lines: Vec<String>,
    new_lines: Vec<String>,
    stats: Option<(u32, u32)>,
    content_hash: u64,
) -> (r: DisplayFile)
    requires
        old_lines@.len() <= u32::MAX,
        new_lines@.len() <= u32::MAX,
        file.aligned_lines@.len() <= u32::MAX,
    ensures
        processed(file, old_lines@, new_lines@, stats, content_hash, r),
{
    let ghost f = file;
    let al = align(&file, old_lines.len(), new_lines.len());
    let old_table = region_table(&file.chunks, true, old_lines.len());
    let new_table = region_table(&file.chunks, false, new_lines.len());
    let whole_old = file.chunks.len() == 0 && file.status == Status::Deleted;
    let whole_new = file.chunks.len() == 0 && file.status == Status::Created;
    let mut rows: Vec<Row> = Vec::new();
    let mut i: usize = 0;
    while i < al.len()
        invariant
            i <= al@.len(),
            al@ == alignment(f, old_lines@.len(), new_lines@.len()),
            file == f,
            whole_old == whole_side(f, true),
            whole_new == whole_side(f, false),
            old_table@.len() == old_lines@.len(),
            new_table@.len() == new_lines@.len(),
            old_lines@.len() <= u32::MAX,
            new_lines@.len() <= u32::MAX,
            forall|m: int|
                0 <= m < old_table@.len() ==> (#[trigger] old_table@[m])@ == regions_for(all_line_changes(file.chunks@), true, m as u32),
            forall|m: int|
                0 <= m < new_table@.len() ==> (#[trigger] new_table@[m])@ == regions_for(all_line_changes(file.chunks@), false, m as u32),
            rows@.len() == i,
            forall|j: int|
                0 <= j < i ==> side_shows(
                    (#[trigger] rows@[j]).left,
                    old_lines@,
                    al@[j].0,
                    regions_at(f, true, al@[j].0),
                ) && side_shows(rows@[j].right, new_lines@, al@[j].1, regions_at(f, false, al@[j].1)),
        decreases al.len() - i,
    {
        let (l, r) = al[i];
        let left = make_side(&old_lines, l, &old_table, &file.chunks, true, whole_old, Ghost(f));
        let right = make_side(&new_lines, r, &new_table, &file.chunks, false, whole_new, Ghost(f));
        rows.push(Row { left, right });
        i = i + 1;
    }
    assert(al@.len() <= u32::MAX);
    let hunks = compute_hunks(&rows);
    let counts = match stats {
        Some(s) => s,
        None => count_changed_rows(&rows),
    };
    DisplayFile {
        path: file.path,
        language: file.language,
        status: status_of(file.status),
        rows,
        aligned_lines: al,
        hunks,
        additions: counts.0,
        deletions: counts.1,
        moved_from: None,
        content_hash,
    }
}

} // verus!
