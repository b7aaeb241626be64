//! The hunks of a file: the maximal runs of changed rows, with what they hold.

use vstd::prelude::*;

use crate::types::{HunkKind, Row};

verus! {

/// A row holds a change: one side is a filler, or has changed regions.
pub open spec fn row_changed(r: Row) -> bool {
    r.left.is_filler || r.right.is_filler || r.left.highlights@.len() > 0 || r.right.highlights@.len() > 0
}

/// The new side of the row has changed regions.
pub open spec fn row_adds(r: Row) -> bool {
    !r.right.is_filler && r.right.highlights@.len() > 0
}

/// The old side of the row has changed regions.
pub open spec fn row_dels(r: Row) -> bool {
    !r.left.is_filler && r.left.highlights@.len() > 0
}

/// What rows `[s, e)` hold: only additions, only deletions, or both (or neither).
pub open spec fn run_kind(rows: Seq<Row>, s: int, e: int) -> HunkKind {
    let add = exists|i: int| s <= i < e && #[trigger] row_adds(rows[i]);
    let del = exists|i: int| s <= i < e && #[trigger] row_dels(rows[i]);
    if add && !del {
        HunkKind::AddOnly
    } else if del && !add {
        HunkKind::DeleteOnly
    } else {
        HunkKind::Mixed
    }
}

/// `hunks` are the maximal runs `[start, end)` of changed rows of `rows`, in
/// order, each with the kind of what it holds.
pub open spec fn hunks_of_rows(rows: Seq<Row>, hunks: Seq<(u32, u32, HunkKind)>) -> bool {
    &&& forall|k: int| 0 <= k < hunks.len() ==> (#[trigger] hunks[k]).0 < hunks[k].1 <= rows.len()
    &&& forall|k: int, l: int| 0 <= k < l < hunks.len() ==> (#[trigger] hunks[k]).1 < (#[trigger] hunks[l]).0
    &&& forall|k: int, i: int|
        0 <= k < hunks.len() && (#[trigger] hunks[k]).0 <= i < hunks[k].1 ==> row_changed(#[trigger] rows[i])
    &&& forall|k: int|
        0 <= k < hunks.len() ==> ((#[trigger] hunks[k]).0 == 0 || !row_changed(rows[hunks[k].0 - 1]))
            && (hunks[k].1 == rows.len() || !row_changed(rows[hunks[k].1 as int]))
    &&& forall|i: int|
        0 <= i < rows.len() && row_changed(#[trigger] rows[i]) ==> exists|k: int|
            0 <= k < hunks.len() && (#[trigger] hunks[k]).0 <= i < hunks[k].1
    &&& forall|k: int| 0 <= k < hunks.len() ==> (#[trigger] hunks[k]).2 == run_kind(rows, hunks[k].0 as int, hunks[k].1 as int)
}

/// Whether the row holds a change.
fn changed(r: &Row) -> (b: bool)
    ensures
        b == row_changed(*r),
{
    r.left.is_filler || r.right.is_filler || r.left.highlights.len() > 0 || r.right.highlights.len() > 0
}

/// The kind of a run from whether it holds additions and deletions.
fn kind_of(add: bool, del: bool) -> (k: HunkKind)
    ensures
        k == if add && !del {
            HunkKind::AddOnly
        } else if del && !add {
            HunkKind::DeleteOnly
        } else {
            HunkKind::Mixed
        },
{
    if add && !del {
        HunkKind::AddOnly
    } else if del && !add {
        HunkKind::DeleteOnly
    } else {
        HunkKind::Mixed
    }
}

/// The hunks of `rows`: each maximal run of changed rows, as its first row,
/// the row after its last, and whether it only adds, only deletes, or both.
pub fn compute_hunks(rows: &Vec<Row>) -> (r: Vec<(u32, u32, HunkKind)>)
    requires
        rows@.len() <= u32::MAX,
    ensures
        hunks_of_rows(rows@, r@),
{
    let n = rows.len();
    let mut hunks: Vec<(u32, u32, HunkKind)> = Vec::new();
    let mut start: usize = 0;
    let mut open = false;
    let mut add = false;
    let mut del = false;
    let mut i: usize = 0;
    while i < n
        invariant
            n == rows@.len(),
            n <= u32::MAX,
            i <= n,
            open ==> start < i,
            open ==> start == 0 || !row_changed(rows@[start - 1]),
            open ==> forall|j: int| start <= j < i ==> row_changed(#[trigger] rows@[j]),
            open ==> (add <==> exists|j: int| start <= j < i && #[trigger] row_adds(rows@[j])),
            open ==> (del <==> exists|j: int| start <= j < i && #[trigger] row_dels(rows@[j])),
            !open ==> i == 0 || !row_changed(rows@[i - 1]),
            forall|k: int| 0 <= k < hunks@.len() ==> (#[trigger] hunks@[k]).0 < hunks@[k].1 <= i,
            forall|k: int| 0 <= k < hunks@.len() ==> (#[trigger] hunks@[k]).1 < i || !open,
            forall|k: int| 0 <= k < hunks@.len() && open ==> (#[trigger] hunks@[k]).1 < start,
            forall|k: int, l: int| 0 <= k < l < hunks@.len() ==> (#[trigger] hunks@[k]).1 < (#[trigger] hunks@[l]).0,
            forall|k: int, j: int|
                0 <= k < hunks@.len() && (#[trigger] hunks@[k]).0 <= j < hunks@[k].1 ==> row_changed(#[trigger] rows@[j]),
            forall|k: int|
                0 <= k < hunks@.len() ==> ((#[trigger] hunks@[k]).0 == 0 || !row_changed(rows@[hunks@[k].0 - 1]))
                    && (hunks@[k].1 == n || !row_changed(rows@[hunks@[k].1 as int])),
            forall|j: int|
                0 <= j < i && row_changed(#[trigger] rows@[j]) ==> (open && start <= j) || exists|k: int|
                    0 <= k < hunks@.len() && (#[trigger] hunks@[k]).0 <= j < hunks@[k].1,
            forall|k: int| 0 <= k < hunks@.len() ==> (#[trigger] hunks@[k]).2 == run_kind(rows@, hunks@[k].0 as int, hunks@[k].1 as int),
        decreases n - i,
    {
        let row = &rows[i];
        if changed(row) {
            if !open {
                open = true;
                start = i;
                add = false;
                del = false;
            }
            let a = !row.right.is_filler && row.right.highlights.len() > 0;
            let d = !row.left.is_filler && row.left.highlights.len() > 0;
            proof {
                assert(a == row_adds(rows@[i as int]));
                assert(d == row_dels(rows@[i as int]));
                if add || a {
                    if a {
                        assert(row_adds(rows@[i as int]));
                    }
                }
            }
            add = add || a;
            del = del || d;
            proof {
                assert forall|j: int| start <= j < i + 1 implies row_changed(#[trigger] rows@[j]) by {
                }
                if add {
                    if !a {
                        let w = choose|j: int| start <= j < i && #[trigger] row_adds(rows@[j]);
                        assert(start <= w < i + 1 && row_adds(rows@[w]));
                    } else {
                        assert(start <= i < i + 1 && row_adds(rows@[i as int]));
                    }
                }
                if (exists|j: int| start <= j < i + 1 && #[trigger] row_adds(rows@[j])) {
                    let w = choose|j: int| start <= j < i + 1 && #[trigger] row_adds(rows@[j]);
                    if w < i {
                        assert(start <= w < i && row_adds(rows@[w]));
                    }
                }
                if del {
                    if !d {
                        let w = choose|j: int| start <= j < i && #[trigger] row_dels(rows@[j]);
                        assert(start <= w < i + 1 && row_dels(rows@[w]));
                    } else {
                        assert(start <= i < i + 1 && row_dels(rows@[i as int]));
                    }
                }
                if (exists|j: int| start <= j < i + 1 && #[trigger] row_dels(rows@[j])) {
                    let w = choose|j: int| start <= j < i + 1 && #[trigger] row_dels(rows@[j]);
                    if w < i {
                        assert(start <= w < i && row_dels(rows@[w]));
                    }
                }
            }
        } else if open {
            let ghost before = hunks@;
            let kind = kind_of(add, del);
            hunks.push((start as u32, i as u32, kind));
            open = false;
            proof {
                let h = hunks@[before.len() as int];
                assert(h == (start as u32, i as u32, kind));
                assert(kind == run_kind(rows@, start as int, i as int));
                assert forall|k: int| 0 <= k < hunks@.len() implies (#[trigger] hunks@[k]).0 < hunks@[k].1 <= i + 1 by {
                    if k < before.len() {
                        assert(hunks@[k] == before[k]);
                    }
                }
                assert forall|k: int, l: int| 0 <= k < l < hunks@.len() implies (#[trigger] hunks@[k]).1 < (#[trigger] hunks@[l]).0 by {
                    assert(hunks@[k] == before[k]);
                    if l < before.len() {
                        assert(hunks@[l] == before[l]);
                    }
                }
                assert forall|k: int, j: int|
                    0 <= k < hunks@.len() && (#[trigger] hunks@[k]).0 <= j < hunks@[k].1 implies row_changed(#[trigger] rows@[j]) by {
                    if k < before.len() {
                        assert(hunks@[k] == before[k]);
                    }
                }
                assert forall|k: int| 0 <= k < hunks@.len() implies ((#[trigger] hunks@[k]).0 == 0 || !row_changed(rows@[hunks@[k].0 - 1]))
                    && (hunks@[k].1 == n || !row_changed(rows@[hunks@[k].1 as int])) by {
                    if k < before.len() {
                        assert(hunks@[k] == before[k]);
                    }
                }
                assert forall|j: int| 0 <= j < i + 1 && row_changed(#[trigger] rows@[j]) implies (open && start <= j) || exists|k: int|
                    0 <= k < hunks@.len() && (#[trigger] hunks@[k]).0 <= j < hunks@[k].1 by {
                    if start <= j && j < i {
                        assert(hunks@[before.len() as int].0 <= j < hunks@[before.len() as int].1);
                    } else if j < start {
                        let k = choose|k: int| 0 <= k < before.len() && (#[trigger] before[k]).0 <= j < before[k].1;
                        assert(hunks@[k] == before[k]);
                    }
                }
                assert forall|k: int| 0 <= k < hunks@.len() implies (#[trigger] hunks@[k]).2 == run_kind(rows@, hunks@[k].0 as int, hunks@[k].1 as int) by {
                    if k < before.len() {
                        assert(hunks@[k] == before[k]);
                    }
                }
                assert forall|k: int| 0 <= k < hunks@.len() implies (#[trigger] hunks@[k]).1 < i + 1 || !open by {
                }
            }
        } else {
            proof {
                assert forall|j: int| 0 <= j < i + 1 && row_changed(#[trigger] rows@[j]) implies (open && start <= j) || exists|k: int|
                    0 <= k < hunks@.len() && (#[trigger] hunks@[k]).0 <= j < hunks@[k].1 by {
                }
            }
        }
        i = i + 1;
    }
    if open {
        let ghost before = hunks@;
        let kind = kind_of(add, del);
        hunks.push((start as u32, n as u32, kind));
        proof {
            let h = hunks@[before.len() as int];
            assert(h == (start as u32, n as u32, kind));
            assert(kind == run_kind(rows@, start as int, n as int));
            assert forall|k: int| 0 <= k < hunks@.len() implies (#[trigger] hunks@[k]).0 < hunks@[k].1 <= n by {
                if k < before.len() {
                    assert(hunks@[k] == before[k]);
                }
            }
            assert forall|k: int, l: int| 0 <= k < l < hunks@.len() implies (#[trigger] hunks@[k]).1 < (#[trigger] hunks@[l]).0 by {
                assert(hunks@[k] == before[k]);
                if l < before.len() {
                    assert(hunks@[l] == before[l]);
                }
            }
            assert forall|k: int, j: int|
                0 <= k < hunks@.len() && (#[trigger] hunks@[k]).0 <= j < hunks@[k].1 implies row_changed(#[trigger] rows@[j]) by {
                if k < before.len() {
                    assert(hunks@[k] == before[k]);
                }
            }
            assert forall|k: int| 0 <= k < hunks@.len() implies ((#[trigger] hunks@[k]).0 == 0 || !row_changed(rows@[hunks@[k].0 - 1]))
                && (hunks@[k].1 == n || !row_changed(rows@[hunks@[k].1 as int])) by {
                if k < before.len() {
                    assert(hunks@[k] == before[k]);
                }
            }
            assert forall|j: int| 0 <= j < n && row_changed(#[trigger] rows@[j]) implies exists|k: int|
                0 <= k < hunks@.len() && (#[trigger] hunks@[k]).0 <= j < hunks@[k].1 by {
                if start <= j {
                    assert(hunks@[before.len() as int].0 <= j < hunks@[before.len() as int].1);
                } else {
                    let k = choose|k: int| 0 <= k < before.len() && (#[trigger] before[k]).0 <= j < before[k].1;
                    assert(hunks@[k] == before[k]);
                }
            }
            assert forall|k: int| 0 <= k < hunks@.len() implies (#[trigger] hunks@[k]).2 == run_kind(rows@, hunks@[k].0 as int, hunks@[k].1 as int) by {
                if k < before.len() {
                    assert(hunks@[k] == before[k]);
                }
            }
        }
    }
    hunks
}

/// Number of rows of `rows` up to `n` whose new side has changes (`adds`) or
/// whose old side has changes.
pub open spec fn count_rows(rows: Seq<Row>, adds: bool) -> nat
    decreases rows.len(),
{
    if rows.len() == 0 {
        0
    } else {
        count_rows(rows.drop_last(), adds) + if (adds && row_adds(rows.last())) || (!adds && row_dels(
            rows.last(),
        )) {
            1nat
        } else {
            0nat
        }
    }
}

/// The rows with changes on the new side and on the old side, counted: the
/// line counts of a file git gave no counts for.
pub fn count_changed_rows(rows: &Vec<Row>) -> (r: (u32, u32))
    requires
        rows@.len() <= u32::MAX,
    ensures
        r.0 == count_rows(rows@, true),
        r.1 == count_rows(rows@, false),
{
    let mut adds: u32 = 0;
    let mut dels: u32 = 0;
    let mut i: usize = 0;
    while i < rows.len()
        invariant
            i <= rows@.len(),
            rows@.len() <= u32::MAX,
            adds == count_rows(rows@.take(i as int), true),
            dels == count_rows(rows@.take(i as int), false),
            adds <= i,
            dels <= i,
        decreases rows.len() - i,
    {
        let row = &rows[i];
        assert(rows@.take(i + 1).drop_last() == rows@.take(i as int));
        assert(rows@.take(i + 1).last() == rows@[i as int]);
        if !row.right.is_filler && row.right.highlights.len() > 0 {
            adds = adds + 1;
        }
        if !row.left.is_filler && row.left.highlights.len() > 0 {
            dels = dels + 1;
        }
        i = i + 1;
    }
    assert(rows@.take(rows@.len() as int) == rows@);
    (adds, dels)
}

} // verus!
