//! Hunk and file navigation: scroll positions, hunk jumping, file switching.

use vstd::prelude::*;

use crate::types::{DisplayFile, HunkKind};

verus! {

/// Navigation state of the diff view.
pub struct NavState {
    /// Index into the file list.
    pub current_file: usize,
    /// Current scroll position (row index) per file.
    pub scroll_positions: Vec<usize>,
    /// Current horizontal scroll offset per file.
    pub h_scroll_positions: Vec<usize>,
}

/// Where a hunk jump lands.
#[derive(Debug, Clone, Copy, PartialEq, Eq, Structural)]
pub enum HunkJump {
    /// A row of the current file.
    SameFile(usize),
    /// A file index and a row of that file.
    NextFile(usize, usize),
}

/// The entry of `v` at `i`, or 0 when `i` is out of range.
pub open spec fn entry_or_zero(v: Seq<usize>, i: int) -> usize {
    if 0 <= i < v.len() {
        v[i]
    } else {
        0
    }
}

/// Hunk `i` is the first hunk that starts below row `scroll`.
pub open spec fn first_hunk_after(hunks: Seq<(u32, u32, HunkKind)>, scroll: int, i: int) -> bool {
    &&& 0 <= i < hunks.len()
    &&& hunks[i].0 > scroll
    &&& forall|j: int| 0 <= j < i ==> hunks[j].0 <= scroll
}

/// Hunk `i` is the last hunk that starts above row `scroll`.
pub open spec fn last_hunk_before(hunks: Seq<(u32, u32, HunkKind)>, scroll: int, i: int) -> bool {
    &&& 0 <= i < hunks.len()
    &&& hunks[i].0 < scroll
    &&& forall|j: int| i < j < hunks.len() ==> hunks[j].0 >= scroll
}

/// The file `offset` places after `cur`, wrapping around `n` files.
pub open spec fn wrap_forward(cur: int, n: int, offset: int) -> int {
    (cur + offset) % n
}

/// The file `offset` places before `cur`, wrapping around `n` files.
pub open spec fn wrap_backward(cur: int, n: int, offset: int) -> int {
    (cur + n - offset) % n
}

/// `offset` is the smallest offset in `1..n` whose file, going forward from
/// `cur`, has a hunk.
pub open spec fn first_forward_with_hunks(files: Seq<DisplayFile>, cur: int, offset: int) -> bool {
    &&& 1 <= offset < files.len()
    &&& files[wrap_forward(cur, files.len() as int, offset)].hunks@.len() > 0
    &&& forall|o: int|
        1 <= o < offset ==> #[trigger] files[wrap_forward(cur, files.len() as int, o)].hunks@.len()
            == 0
}

/// `offset` is the smallest offset in `1..n` whose file, going backward from
/// `cur`, has a hunk.
pub open spec fn first_backward_with_hunks(files: Seq<DisplayFile>, cur: int, offset: int) -> bool {
    &&& 1 <= offset < files.len()
    &&& files[wrap_backward(cur, files.len() as int, offset)].hunks@.len() > 0
    &&& forall|o: int|
        1 <= o < offset ==> #[trigger] files[wrap_backward(cur, files.len() as int, o)].hunks@.len()
            == 0
}

/// Reduction modulo `n` of a value below `2n`.
pub proof fn lemma_wrap(a: int, n: int)
    requires
        0 <= a < 2 * n,
    ensures
        a % n == if a < n {
            a
        } else {
            a - n
        },
{
    if a < n {
        vstd::arithmetic::div_mod::lemma_fundamental_div_mod_converse(a, n, 0, a);
    } else {
        vstd::arithmetic::div_mod::lemma_fundamental_div_mod_converse(a, n, 1, a - n);
    }
}

/// The jump that `next_hunk` makes.
pub open spec fn spec_next_hunk(nav: NavState, files: Seq<DisplayFile>) -> Option<HunkJump> {
    let cur = nav.current_file as int;
    if cur >= files.len() {
        None
    } else if exists|i: int| first_hunk_after(files[cur].hunks@, nav.spec_scroll() as int, i) {
        let i = choose|i: int| first_hunk_after(files[cur].hunks@, nav.spec_scroll() as int, i);
        Some(HunkJump::SameFile(files[cur].hunks@[i].0 as usize))
    } else if exists|o: int| first_forward_with_hunks(files, cur, o) {
        let o = choose|o: int| first_forward_with_hunks(files, cur, o);
        let idx = wrap_forward(cur, files.len() as int, o);
        Some(HunkJump::NextFile(idx as usize, files[idx].hunks@[0].0 as usize))
    } else {
        None
    }
}

/// The jump that `prev_hunk` makes.
pub open spec fn spec_prev_hunk(nav: NavState, files: Seq<DisplayFile>) -> Option<HunkJump> {
    let cur = nav.current_file as int;
    if cur >= files.len() {
        None
    } else if exists|i: int| last_hunk_before(files[cur].hunks@, nav.spec_scroll() as int, i) {
        let i = choose|i: int| last_hunk_before(files[cur].hunks@, nav.spec_scroll() as int, i);
        Some(HunkJump::SameFile(files[cur].hunks@[i].0 as usize))
    } else if exists|o: int| first_backward_with_hunks(files, cur, o) {
        let o = choose|o: int| first_backward_with_hunks(files, cur, o);
        let idx = wrap_backward(cur, files.len() as int, o);
        Some(HunkJump::NextFile(idx as usize, files[idx].hunks@.last().0 as usize))
    } else {
        None
    }
}

impl NavState {
    /// The scroll position of the current file (0 when it has none).
    pub open spec fn spec_scroll(&self) -> usize {
        entry_or_zero(self.scroll_positions@, self.current_file as int)
    }

    /// The horizontal scroll of the current file (0 when it has none).
    pub open spec fn spec_h_scroll(&self) -> usize {
        entry_or_zero(self.h_scroll_positions@, self.current_file as int)
    }

    /// A state for `file_count` files: first file, every position 0.
    pub fn new(file_count: usize) -> (r: NavState)
        ensures
            r.current_file == 0,
            r.scroll_positions@ == Seq::new(file_count as nat, |i: int| 0usize),
            r.h_scroll_positions@ == Seq::new(file_count as nat, |i: int| 0usize),
    {
        let mut s: Vec<usize> = Vec::new();
        let mut h: Vec<usize> = Vec::new();
        let mut i: usize = 0;
        while i < file_count
            invariant
                i <= file_count,
                s@ == Seq::new(i as nat, |k: int| 0usize),
                h@ == Seq::new(i as nat, |k: int| 0usize),
            decreases file_count - i,
        {
            s.push(0);
            h.push(0);
            i = i + 1;
        }
        NavState { current_file: 0, scroll_positions: s, h_scroll_positions: h }
    }

    /// Scroll position of the current file, 0 when it has none.
    pub fn scroll(&self) -> (r: usize)
        ensures
            r == self.spec_scroll(),
    {
        if self.current_file < self.scroll_positions.len() {
            self.scroll_positions[self.current_file]
        } else {
            0
        }
    }

    /// Horizontal scroll of the current file, 0 when it has none.
    pub fn h_scroll(&self) -> (r: usize)
        ensures
            r == self.spec_h_scroll(),
    {
        if self.current_file < self.h_scroll_positions.len() {
            self.h_scroll_positions[self.current_file]
        } else {
            0
        }
    }

    /// Sets the current file's scroll position; does nothing when it has none.
    pub fn set_scroll(&mut self, val: usize)
        ensures
            scroll_set(*old(self), *final(self), val),
    {
        if self.current_file < self.scroll_positions.len() {
            self.scroll_positions.set(self.current_file, val);
        }
    }

    /// Sets the current file's horizontal scroll; does nothing when it has none.
    pub fn set_h_scroll(&mut self, val: usize)
        ensures
            final(self).current_file == old(self).current_file,
            final(self).scroll_positions@ == old(self).scroll_positions@,
            old(self).current_file < old(self).h_scroll_positions@.len() ==> final(self).h_scroll_positions@ == old(self).h_scroll_positions@.update(
                old(self).current_file as int,
                val,
            ),
            old(self).current_file >= old(self).h_scroll_positions@.len() ==> final(self).h_scroll_positions@ == old(self).h_scroll_positions@,
    {
        if self.current_file < self.h_scroll_positions.len() {
            self.h_scroll_positions.set(self.current_file, val);
        }
    }

    /// The next hunk: the first hunk of the current file that starts below the
    /// scroll position, else the first hunk of the next file (wrapping) that has
    /// hunks, else none.
    pub fn next_hunk(&self, files: &[DisplayFile]) -> (r: Option<HunkJump>)
        ensures
            r == spec_next_hunk(*self, files@),
            self.current_file >= files@.len() ==> r is None,
            forall|i: int|
                self.current_file < files@.len() && #[trigger] first_hunk_after(
                    files@[self.current_file as int].hunks@,
                    self.spec_scroll() as int,
                    i,
                ) ==> r == Some(
                    HunkJump::SameFile(files@[self.current_file as int].hunks@[i].0 as usize),
                ),
            forall|o: int|
                self.current_file < files@.len() && (forall|i: int|
                    0 <= i < files@[self.current_file as int].hunks@.len()
                        ==> #[trigger] files@[self.current_file as int].hunks@[i].0
                        <= self.spec_scroll()) && #[trigger] first_forward_with_hunks(
                    files@,
                    self.current_file as int,
                    o,
                ) ==> r == Some(
                    HunkJump::NextFile(
                        wrap_forward(self.current_file as int, files@.len() as int, o) as usize,
                        files@[wrap_forward(
                            self.current_file as int,
                            files@.len() as int,
                            o,
                        )].hunks@[0].0 as usize,
                    ),
                ),
            self.current_file < files@.len() && (forall|i: int|
                0 <= i < files@[self.current_file as int].hunks@.len()
                    ==> #[trigger] files@[self.current_file as int].hunks@[i].0
                    <= self.spec_scroll()) && (forall|o: int|
                1 <= o < files@.len() ==> #[trigger] files@[wrap_forward(
                    self.current_file as int,
                    files@.len() as int,
                    o,
                )].hunks@.len() == 0) ==> r is None,
    {
        if self.current_file >= files.len() {
            return None;
        }
        let file = &files[self.current_file];
        let current_scroll = self.scroll();
        let mut i: usize = 0;
        while i < file.hunks.len()
            invariant
                self.current_file < files@.len(),
                *file == files@[self.current_file as int],
                current_scroll == self.spec_scroll(),
                i <= file.hunks@.len(),
                forall|j: int| 0 <= j < i ==> file.hunks@[j].0 <= current_scroll,
            decreases file.hunks.len() - i,
        {
            let start = file.hunks[i].0;
            if (start as usize) > current_scroll {
                proof {
                    assert forall|q: int| #[trigger]
                        first_hunk_after(file.hunks@, current_scroll as int, q) implies q
                        == i by {
                        if q < i {
                        } else if q > i {
                            assert(file.hunks@[i as int].0 > current_scroll);
                        }
                    }
                }
                assert(first_hunk_after(file.hunks@, current_scroll as int, i as int));
                return Some(HunkJump::SameFile(start as usize));
            }
            i = i + 1;
        }
        assert(!exists|q: int| first_hunk_after(file.hunks@, current_scroll as int, q));
        let n = files.len();
        let cur = self.current_file;
        let mut offset: usize = 1;
        while offset < n
            invariant
                n == files@.len(),
                cur < n,
                cur == self.current_file,
                *file == files@[self.current_file as int],
                current_scroll == self.spec_scroll(),
                forall|j: int| 0 <= j < file.hunks@.len() ==> file.hunks@[j].0 <= current_scroll,
                1 <= offset <= n,
                forall|o: int|
                    1 <= o < offset ==> #[trigger] files@[wrap_forward(
                        cur as int,
                        n as int,
                        o,
                    )].hunks@.len() == 0,
            decreases n - offset,
        {
            let idx = if offset < n - cur {
                cur + offset
            } else {
                offset - (n - cur)
            };
            proof {
                lemma_wrap(cur + offset, n as int);
            }
            if files[idx].hunks.len() > 0 {
                let first = files[idx].hunks[0].0;
                proof {
                    assert forall|q: int| #[trigger]
                        first_forward_with_hunks(files@, cur as int, q) implies q
                        == offset by {
                        if q > offset {
                            assert(files@[wrap_forward(
                                cur as int,
                                n as int,
                                offset as int,
                            )].hunks@.len() > 0);
                        }
                    }
                }
                assert(first_forward_with_hunks(files@, cur as int, offset as int));
                return Some(HunkJump::NextFile(idx, first as usize));
            }
            offset = offset + 1;
        }
        None
    }

    /// The previous hunk: the last hunk of the current file that starts above
    /// the scroll position, else the last hunk of the previous file (wrapping)
    /// that has hunks, else none.
    pub fn prev_hunk(&self, files: &[DisplayFile]) -> (r: Option<HunkJump>)
        ensures
            r == spec_prev_hunk(*self, files@),
            self.current_file >= files@.len() ==> r is None,
            forall|i: int|
                self.current_file < files@.len() && #[trigger] last_hunk_before(
                    files@[self.current_file as int].hunks@,
                    self.spec_scroll() as int,
                    i,
                ) ==> r == Some(
                    HunkJump::SameFile(files@[self.current_file as int].hunks@[i].0 as usize),
                ),
            forall|o: int|
                self.current_file < files@.len() && (forall|i: int|
                    0 <= i < files@[self.current_file as int].hunks@.len()
                        ==> #[trigger] files@[self.current_file as int].hunks@[i].0
                        >= self.spec_scroll()) && #[trigger] first_backward_with_hunks(
                    files@,
                    self.current_file as int,
                    o,
                ) ==> r == Some(
                    HunkJump::NextFile(
                        wrap_backward(self.current_file as int, files@.len() as int, o) as usize,
                        files@[wrap_backward(
                            self.current_file as int,
                            files@.len() as int,
                            o,
                        )].hunks@.last().0 as usize,
                    ),
                ),
            self.current_file < files@.len() && (forall|i: int|
                0 <= i < files@[self.current_file as int].hunks@.len()
                    ==> #[trigger] files@[self.current_file as int].hunks@[i].0
                    >= self.spec_scroll()) && (forall|o: int|
                1 <= o < files@.len() ==> #[trigger] files@[wrap_backward(
                    self.current_file as int,
                    files@.len() as int,
                    o,
                )].hunks@.len() == 0) ==> r is None,
    {
        if self.current_file >= files.len() {
            return None;
        }
        let file = &files[self.current_file];
        let current_scroll = self.scroll();
        let mut i: usize = file.hunks.len();
        while i > 0
            invariant
                self.current_file < files@.len(),
                *file == files@[self.current_file as int],
                current_scroll == self.spec_scroll(),
                i <= file.hunks@.len(),
                forall|j: int| i <= j < file.hunks@.len() ==> file.hunks@[j].0 >= current_scroll,
            decreases i,
        {
            let start = file.hunks[i - 1].0;
            if (start as usize) < current_scroll {
                proof {
                    assert forall|q: int| #[trigger]
                        last_hunk_before(file.hunks@, current_scroll as int, q) implies q == i
                        - 1 by {
                        if q < i - 1 {
                            assert(file.hunks@[i - 1].0 < current_scroll);
                        }
                    }
                }
                assert(last_hunk_before(file.hunks@, current_scroll as int, i - 1));
                return Some(HunkJump::SameFile(start as usize));
            }
            i = i - 1;
        }
        assert(!exists|q: int| last_hunk_before(file.hunks@, current_scroll as int, q));
        let n = files.len();
        let cur = self.current_file;
        let mut offset: usize = 1;
        while offset < n
            invariant
                n == files@.len(),
                cur < n,
                cur == self.current_file,
                *file == files@[self.current_file as int],
                current_scroll == self.spec_scroll(),
                forall|j: int| 0 <= j < file.hunks@.len() ==> file.hunks@[j].0 >= current_scroll,
                1 <= offset <= n,
                forall|o: int|
                    1 <= o < offset ==> #[trigger] files@[wrap_backward(
                        cur as int,
                        n as int,
                        o,
                    )].hunks@.len() == 0,
            decreases n - offset,
        {
            let idx = if offset <= cur {
                cur - offset
            } else {
                cur + (n - offset)
            };
            proof {
                lemma_wrap(cur + n - offset, n as int);
            }
            let len = files[idx].hunks.len();
            if len > 0 {
                let last = files[idx].hunks[len - 1].0;
                proof {
                    assert forall|q: int| #[trigger]
                        first_backward_with_hunks(files@, cur as int, q) implies q
                        == offset by {
                        if q > offset {
                            assert(files@[wrap_backward(
                                cur as int,
                                n as int,
                                offset as int,
                            )].hunks@.len() > 0);
                        }
                    }
                }
                assert(first_backward_with_hunks(files@, cur as int, offset as int));
                return Some(HunkJump::NextFile(idx, last as usize));
            }
            offset = offset + 1;
        }
        None
    }

    /// Moves to the next file when there is one; says whether it moved.
    pub fn next_file(&mut self, file_count: usize) -> (r: bool)
        ensures
            moved_to_next(*old(self), *final(self), file_count, r),
    {
        if file_count == 0 {
            return false;
        }
        if self.current_file < file_count - 1 {
            self.current_file = self.current_file + 1;
            true
        } else {
            false
        }
    }

    /// Moves to the previous file when there is one; says whether it moved.
    pub fn prev_file(&mut self) -> (r: bool)
        ensures
            moved_to_prev(*old(self), *final(self), r),
    {
        if self.current_file > 0 {
            self.current_file = self.current_file - 1;
            true
        } else {
            false
        }
    }

    /// Makes file `idx` current when it is below `file_count`.
    pub fn go_to_file(&mut self, idx: usize, file_count: usize)
        ensures
            final(self).current_file == if idx < file_count {
                idx
            } else {
                old(self).current_file
            },
            final(self).scroll_positions == old(self).scroll_positions,
            final(self).h_scroll_positions == old(self).h_scroll_positions,
    {
        if idx < file_count {
            self.current_file = idx;
        }
    }

    /// Scrolls the current file to its first hunk, when it has one.
    pub fn auto_scroll_to_first_hunk(&mut self, files: &[DisplayFile])
        ensures
            final(self).current_file == old(self).current_file,
            final(self).h_scroll_positions@ == old(self).h_scroll_positions@,
            (old(self).current_file < files@.len() && files@[old(self).current_file as int].hunks@.len() > 0 && old(self).current_file < old(self).scroll_positions@.len()) ==> final(self).scroll_positions@ == old(self).scroll_positions@.update(
                old(self).current_file as int,
                files@[old(self).current_file as int].hunks@[0].0 as usize,
            ),
            !(old(self).current_file < files@.len() && files@[old(self).current_file as int].hunks@.len() > 0 && old(self).current_file < old(self).scroll_positions@.len()) ==> final(self).scroll_positions@ == old(self).scroll_positions@,
    {
        if self.current_file < files.len() {
            let file = &files[self.current_file];
            if file.hunks.len() > 0 {
                let first = file.hunks[0].0;
                self.set_scroll(first as usize);
            }
        }
    }
}


/// `f` is `o` after setting the scroll of the current file to `val`: the
/// position changes when the current file has one, nothing else changes.
pub open spec fn scroll_set(o: NavState, f: NavState, val: usize) -> bool {
    &&& f.current_file == o.current_file
    &&& f.h_scroll_positions@ == o.h_scroll_positions@
    &&& o.current_file < o.scroll_positions@.len() ==> f.scroll_positions@
        == o.scroll_positions@.update(o.current_file as int, val)
    &&& o.current_file >= o.scroll_positions@.len() ==> f.scroll_positions@ == o.scroll_positions@
}

/// `f` is `o` after moving to the next of `file_count` files: `r` says
/// whether there was one; the scroll positions stay.
pub open spec fn moved_to_next(o: NavState, f: NavState, file_count: usize, r: bool) -> bool {
    &&& r == (o.current_file + 1 < file_count)
    &&& f.current_file == if r {
        o.current_file + 1
    } else {
        o.current_file as int
    }
    &&& f.scroll_positions == o.scroll_positions
    &&& f.h_scroll_positions == o.h_scroll_positions
}

/// `f` is `o` after moving to the previous file: `r` says whether there was
/// one; the scroll positions stay.
pub open spec fn moved_to_prev(o: NavState, f: NavState, r: bool) -> bool {
    &&& r == (o.current_file > 0)
    &&& f.current_file == if r {
        o.current_file - 1
    } else {
        o.current_file as int
    }
    &&& f.scroll_positions == o.scroll_positions
    &&& f.h_scroll_positions == o.h_scroll_positions
}

/// Going to the next file and back to the previous one returns to the same
/// file with the same scroll positions, whenever there was a next file.
pub proof fn law_next_then_prev(s0: NavState, s1: NavState, s2: NavState, file_count: usize, r1: bool, r2: bool)
    requires
        moved_to_next(s0, s1, file_count, r1),
        moved_to_prev(s1, s2, r2),
        r1,
    ensures
        r2,
        s2 == s0,
{
}

/// Going to the previous file and on to the next one returns to the same
/// file, whenever there was a previous file.
pub proof fn law_prev_then_next(s0: NavState, s1: NavState, s2: NavState, file_count: usize, r1: bool, r2: bool)
    requires
        moved_to_prev(s0, s1, r1),
        moved_to_next(s1, s2, file_count, r2),
        r1,
        s0.current_file < file_count,
    ensures
        r2,
        s2 == s0,
{
}

/// The scroll position just set is the one read back, when the current file
/// has a position; the horizontal scroll is unchanged.
pub proof fn law_set_scroll_reads_back(o: NavState, f: NavState, val: usize)
    requires
        scroll_set(o, f, val),
        o.current_file < o.scroll_positions@.len(),
    ensures
        f.spec_scroll() == val,
        f.spec_h_scroll() == o.spec_h_scroll(),
{
}

/// Where the next-hunk jump goes: within the current file, to the start of
/// a hunk below the scroll position with no hunk starting in between (the
/// first such in the file's list); else to the first hunk of another file,
/// the nearest one after the current file (wrapping) that has hunks, when
/// the current file has no hunk below the scroll position; with no current
/// file, nowhere.
pub proof fn law_next_hunk_target(nav: NavState, files: Seq<DisplayFile>)
    requires
        files.len() <= usize::MAX,
    ensures
        nav.current_file >= files.len() ==> spec_next_hunk(nav, files) is None,
        (match spec_next_hunk(nav, files) {
            Some(HunkJump::SameFile(row)) => {
                let hs = files[nav.current_file as int].hunks@;
                &&& nav.current_file < files.len()
                &&& row > nav.spec_scroll()
                &&& exists|i: int| 0 <= i < hs.len() && hs[i].0 == row && forall|k: int| 0 <= k < i ==> hs[k].0 <= nav.spec_scroll()
            },
            Some(HunkJump::NextFile(idx, row)) => {
                let hs = files[nav.current_file as int].hunks@;
                &&& nav.current_file < files.len()
                &&& idx < files.len()
                &&& idx != nav.current_file
                &&& files[idx as int].hunks@.len() > 0
                &&& row == files[idx as int].hunks@[0].0
                &&& forall|k: int| 0 <= k < hs.len() ==> hs[k].0 <= nav.spec_scroll()
                &&& forall|p: int|
                    nav.current_file < p < nav.current_file + (if idx > nav.current_file {
                        idx - nav.current_file
                    } else {
                        idx + files.len() - nav.current_file
                    }) ==> #[trigger] files[p % (files.len() as int)].hunks@.len() == 0
            },
            None => nav.current_file < files.len() ==> forall|k: int|
                0 <= k < files[nav.current_file as int].hunks@.len() ==> files[nav.current_file as int].hunks@[k].0
                    <= nav.spec_scroll(),
        }),
{
    let cur = nav.current_file as int;
    if cur < files.len() {
        let n = files.len() as int;
        let hs = files[cur].hunks@;
        let sc = nav.spec_scroll() as int;
        if exists|i: int| first_hunk_after(hs, sc, i) {
            let i = choose|i: int| first_hunk_after(hs, sc, i);
            assert(hs[i].0 as usize == hs[i].0);
        } else {
            assert forall|k: int| 0 <= k < hs.len() implies hs[k].0 <= sc by {
                if hs[k].0 > sc {
                    // the first hunk below the scroll position would exist
                    lemma_first_after_exists(hs, sc, k);
                }
            }
            if exists|o: int| first_forward_with_hunks(files, cur, o) {
                let o = choose|o: int| first_forward_with_hunks(files, cur, o);
                lemma_wrap(cur + o, n);
                let idx = wrap_forward(cur, n, o);
                assert forall|p: int|
                    cur < p < cur + o implies #[trigger] files[p % n].hunks@.len() == 0 by {
                    assert(files[wrap_forward(cur, n, p - cur)].hunks@.len() == 0);
                }
                if idx > cur {
                    assert(idx - cur == o);
                } else {
                    assert(idx + n - cur == o);
                }
            }
        }
    }
}

/// Where the previous-hunk jump goes: within the current file, to the start
/// of a hunk above the scroll position with no hunk starting in between (the
/// last such in the file's list); else to the last hunk of another file, the
/// nearest one before the current file (wrapping) that has hunks, when the
/// current file has no hunk above the scroll position; with no current file,
/// nowhere.
pub proof fn law_prev_hunk_target(nav: NavState, files: Seq<DisplayFile>)
    requires
        files.len() <= usize::MAX,
    ensures
        nav.current_file >= files.len() ==> spec_prev_hunk(nav, files) is None,
        (match spec_prev_hunk(nav, files) {
            Some(HunkJump::SameFile(row)) => {
                let hs = files[nav.current_file as int].hunks@;
                &&& nav.current_file < files.len()
                &&& row < nav.spec_scroll()
                &&& exists|i: int|
                    0 <= i < hs.len() && hs[i].0 == row && forall|k: int| i < k < hs.len() ==> hs[k].0 >= nav.spec_scroll()
            },
            Some(HunkJump::NextFile(idx, row)) => {
                let hs = files[nav.current_file as int].hunks@;
                &&& nav.current_file < files.len()
                &&& idx < files.len()
                &&& idx != nav.current_file
                &&& files[idx as int].hunks@.len() > 0
                &&& row == files[idx as int].hunks@.last().0
                &&& forall|k: int| 0 <= k < hs.len() ==> hs[k].0 >= nav.spec_scroll()
                &&& forall|p: int|
                    nav.current_file - (if idx < nav.current_file {
                        nav.current_file - idx
                    } else {
                        nav.current_file + files.len() - idx
                    }) < p < nav.current_file ==> #[trigger] files[(p + files.len()) % (files.len() as int)].hunks@.len()
                        == 0
            },
            None => nav.current_file < files.len() ==> forall|k: int|
                0 <= k < files[nav.current_file as int].hunks@.len() ==> files[nav.current_file as int].hunks@[k].0
                    >= nav.spec_scroll(),
        }),
{
    let cur = nav.current_file as int;
    if cur < files.len() {
        let n = files.len() as int;
        let hs = files[cur].hunks@;
        let sc = nav.spec_scroll() as int;
        if exists|i: int| last_hunk_before(hs, sc, i) {
            let i = choose|i: int| last_hunk_before(hs, sc, i);
            assert(hs[i].0 as usize == hs[i].0);
        } else {
            assert forall|k: int| 0 <= k < hs.len() implies hs[k].0 >= sc by {
                if hs[k].0 < sc {
                    lemma_last_before_exists(hs, sc, k);
                }
            }
            if exists|o: int| first_backward_with_hunks(files, cur, o) {
                let o = choose|o: int| first_backward_with_hunks(files, cur, o);
                lemma_wrap(cur + n - o, n);
                let idx = wrap_backward(cur, n, o);
                assert forall|p: int|
                    cur - o < p < cur implies #[trigger] files[(p + n) % n].hunks@.len() == 0 by {
                    assert(files[wrap_backward(cur, n, cur - p)].hunks@.len() == 0);
                }
                if idx < cur {
                    assert(cur - idx == o);
                } else {
                    assert(cur + n - idx == o);
                }
            }
        }
    }
}

/// Where some hunk starts above `scroll`, a last one does.
proof fn lemma_last_before_exists(hs: Seq<(u32, u32, HunkKind)>, scroll: int, k: int)
    requires
        0 <= k < hs.len(),
        hs[k].0 < scroll,
    ensures
        exists|i: int| last_hunk_before(hs, scroll, i),
    decreases hs.len() - k,
{
    if forall|j: int| k < j < hs.len() ==> hs[j].0 >= scroll {
        assert(last_hunk_before(hs, scroll, k));
    } else {
        let j = choose|j: int| k < j < hs.len() && !(hs[j].0 >= scroll);
        lemma_last_before_exists(hs, scroll, j);
    }
}

/// Where some hunk starts below `scroll`, a first one does.
proof fn lemma_first_after_exists(hs: Seq<(u32, u32, HunkKind)>, scroll: int, k: int)
    requires
        0 <= k < hs.len(),
        hs[k].0 > scroll,
    ensures
        exists|i: int| first_hunk_after(hs, scroll, i),
    decreases k,
{
    if forall|j: int| 0 <= j < k ==> hs[j].0 <= scroll {
        assert(first_hunk_after(hs, scroll, k));
    } else {
        let j = choose|j: int| 0 <= j < k && !(hs[j].0 <= scroll);
        lemma_first_after_exists(hs, scroll, j);
    }
}

} // verus!
