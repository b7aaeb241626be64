//! Application state machine: log, compare and diff views, search, in-diff find,
//! and the decisions that the event loop carries out.

use std::collections::HashSet;

use vstd::prelude::*;
use vstd::string::{StringExecFns, StringSliceAdditionalSpecFns};
use vstd::utf8::{decode_utf8, encode_utf8, is_char_boundary};
use vstd::view::View as _;

use crate::git::LogEntry;
use crate::paths::{paths_equal, same_path};
use crate::input::{spec_handle_key, Action, InputState, KeyCode, KeyInput, ViewContext, CONTROL, SHIFT};
use crate::nav::NavState;
use crate::text::{
    chars_of,
    dec_digits,
    push_decimal,
    contains_seq,
    first_field,
    first_field_of,
    index_of_char,
    lemma_index_of_char,
    lowercase,
    str_contains,
    string_of,
    to_lowercase,
};
use crate::nav::{spec_next_hunk, spec_prev_hunk, HunkJump};
use crate::tree::{
    build_tree,
    lemma_shown_total_prefix,
    slashes,
    built_from,
    shown_total,
    path_seen,
    paths_fit,
    views,
    depth_fits,
    flatten_visible,
    lemma_toggled_fits,
    lemma_visible_len,
    nodes_eq,
    lemma_nodes_eq_same,
    toggle_node,
    toggled,
    vis_count,
    visible,
    TreeNode,
};
use crate::types::{DisplayFile, Row};

verus! {

/// What the application is showing.
pub enum View {
    Log,
    Diff,
    Compare(CompareState),
    Loading(String),
    Error(String),
    Help,
}

/// The two steps of the compare flow.
pub enum CompareState {
    PickNew { items: Vec<CompareItem>, cursor: usize, scroll: usize },
    PickOld {
        new_rev: String,
        new_label: String,
        items: Vec<CompareItem>,
        cursor: usize,
        scroll: usize,
    },
}

/// An endpoint offered by the compare flow.
#[derive(Debug, Clone)]
pub struct CompareItem {
    pub rev: String,
    pub label: String,
    pub is_special: bool,
    pub short_hash: Option<String>,
    pub date: Option<String>,
    pub subject: Option<String>,
}

/// A line of the log view: a special entry or a commit.
#[derive(Debug, Clone)]
pub enum LogItem {
    WorkingTree,
    Staged,
    Separator,
    Commit(LogEntry),
}

/// A match of the in-diff search.
#[derive(Debug, Clone, Copy, PartialEq, Eq, Structural)]
pub struct DiffFindMatch {
    pub row: usize,
    pub col: usize,
    pub len: usize,
    /// true = left (old) side, false = right (new) side
    pub is_left: bool,
}

/// The kind of diff to compute.
#[derive(Debug, Clone)]
pub enum DiffMode {
    Range(String),
    Unstaged,
    Staged,
    WorkingTree(String),
    StagedVsCommit(String),
}

/// Scroll offset that keeps `cursor` within a window of `viewport` lines.
pub open spec fn spec_adjust_scroll(scroll: int, cursor: int, viewport: int) -> int {
    if cursor < scroll {
        cursor
    } else if cursor >= scroll + viewport {
        if cursor >= viewport - 1 {
            cursor - (viewport - 1)
        } else {
            0
        }
    } else {
        scroll
    }
}

/// Returns the scroll offset that keeps `cursor` visible in a window of
/// `viewport` lines: the cursor itself when above the window, the offset that
/// shows it on the last line when below, else the offset unchanged.
pub fn adjust_scroll(scroll: usize, cursor: usize, viewport: usize) -> (r: usize)
    requires
        viewport >= 1 || cursor < scroll,
    ensures
        r == spec_adjust_scroll(scroll as int, cursor as int, viewport as int),
{
    if cursor < scroll {
        cursor
    } else if cursor - scroll >= viewport {
        if cursor >= viewport - 1 {
            cursor - (viewport - 1)
        } else {
            0
        }
    } else {
        scroll
    }
}

/// Byte offset at which `truncate` cuts a string longer than `max` bytes.
pub open spec fn cut_point(max: usize) -> int {
    if max >= 3 {
        max - 3
    } else {
        0
    }
}

/// `s` can be truncated to `max` bytes: it is no longer, or the cut falls on a
/// character boundary.
pub open spec fn truncatable(s: Seq<char>, max: usize) -> bool {
    encode_utf8(s).len() > max ==> is_char_boundary(encode_utf8(s), cut_point(max))
}

/// `s` cut to `max` bytes: the characters of its first `max - 3` bytes followed
/// by "...", or `s` itself when it fits.
pub open spec fn truncated(s: Seq<char>, max: usize) -> Seq<char> {
    if encode_utf8(s).len() > max {
        decode_utf8(encode_utf8(s).take(cut_point(max))) + "..."@
    } else {
        s
    }
}

/// Cuts `s` to at most `max` bytes, marking the cut with "...".
pub fn truncate(s: &str, max: usize) -> (r: String)
    requires
        truncatable(s@, max),
    ensures
        r@ == truncated(s@, max),
{
    if s.as_bytes().len() > max {
        let cut: usize = if max >= 3 {
            max - 3
        } else {
            0
        };
        let (head, _) = s.split_at(cut);
        proof {
            vstd::utf8::encode_utf8_decode_utf8(head@);
            assert(head.spec_bytes() == encode_utf8(head@));
            assert(s.spec_bytes() == encode_utf8(s@));
            assert(head.spec_bytes() == encode_utf8(s@).take(cut as int));
            assert(head@ == decode_utf8(encode_utf8(s@).take(cut as int)));
        }
        let mut r = head.to_owned();
        r.append("...");
        assert(r@ == head@ + "..."@);
        r
    } else {
        s.to_owned()
    }
}

/// `s` can be cut to `max` bytes: it is no longer, or the cut falls between characters.
pub fn can_truncate(s: &str, max: usize) -> (r: bool)
    ensures
        r == truncatable(s@, max),
{
    proof {
        assert(s.spec_bytes() == encode_utf8(s@));
    }
    if s.as_bytes().len() > max {
        let cut: usize = if max >= 3 {
            max - 3
        } else {
            0
        };
        s.is_char_boundary(cut)
    } else {
        true
    }
}

/// Whether two strings are equal.
pub fn str_eq(a: &str, b: &str) -> (r: bool)
    ensures
        r == (a@ == b@),
{
    a.to_owned() == b.to_owned()
}

/// `a`, a space, and `b`.
pub fn join_space(a: &str, b: &str) -> (r: String)
    ensures
        r@ == a@ + " "@ + b@,
{
    let mut r = a.to_owned();
    r.append(" ");
    r.append(b);
    r
}

/// The text after the first `c` in `s` (empty when there is none).
pub open spec fn after_field(s: Seq<char>, c: char) -> Seq<char> {
    if index_of_char(s, c) < s.len() {
        s.skip(index_of_char(s, c) + 1)
    } else {
        Seq::empty()
    }
}

/// The text after the first `c` in `s`.
pub fn after_field_of(s: &str, c: char) -> (r: String)
    ensures
        r@ == after_field(s@, c),
{
    let cs = chars_of(s);
    let k = crate::text::find_char(&cs, c);
    proof {
        lemma_index_of_char(cs@, c);
    }
    let mut out: Vec<char> = Vec::new();
    if k < cs.len() {
        let mut i: usize = k + 1;
        while i < cs.len()
            invariant
                k < cs.len(),
                k + 1 <= i <= cs.len(),
                out@ == cs@.subrange(k + 1, i as int),
            decreases cs.len() - i,
        {
            out.push(cs[i]);
            i = i + 1;
            assert(cs@.subrange(k + 1, i as int) == cs@.subrange(k + 1, i - 1 as int).push(
                cs@[i - 1 as int],
            ));
        }
        assert(cs@.skip(k + 1) == cs@.subrange(k + 1, cs@.len() as int));
    } else {
        assert(out@ == Seq::<char>::empty());
    }
    string_of(&out)
}

/// The label of a commit as a compare endpoint: short hash, date and the
/// subject cut to 30 bytes.
pub open spec fn commit_label(e: LogEntry) -> Seq<char> {
    e.short_hash@ + " "@ + e.date@ + " "@ + truncated(e.subject@, 30)
}

/// Every subject in `entries` can be cut for a compare label (30 bytes).
pub open spec fn entries_truncatable(entries: Seq<LogEntry>) -> bool {
    forall|i: int| 0 <= i < entries.len() ==> truncatable((#[trigger] entries[i]).subject@, 30)
}

/// The compare endpoint of a commit.
pub open spec fn commit_item_ok(e: LogEntry, it: CompareItem) -> bool {
    &&& it.rev == e.full_hash
    &&& it.label@ == commit_label(e)
    &&& !it.is_special
    &&& it.short_hash == Some(e.short_hash)
    &&& it.date == Some(e.date)
    &&& it.subject == Some(e.subject)
}

/// The compare endpoint of a commit.
pub fn commit_item(e: &LogEntry) -> (r: CompareItem)
    requires
        truncatable(e.subject@, 30),
    ensures
        commit_item_ok(*e, r),
{
    let mut label = join_space(e.short_hash.as_str(), e.date.as_str());
    label.append(" ");
    let t = truncate(e.subject.as_str(), 30);
    label.append(t.as_str());
    CompareItem {
        rev: e.full_hash.clone(),
        label,
        is_special: false,
        short_hash: Some(e.short_hash.clone()),
        date: Some(e.date.clone()),
        subject: Some(e.subject.clone()),
    }
}

/// A special compare endpoint with no commit data.
pub open spec fn special_item_ok(it: CompareItem, rev: Seq<char>, label: Seq<char>) -> bool {
    &&& it.rev@ == rev
    &&& it.label@ == label
    &&& it.is_special
    &&& it.short_hash is None
    &&& it.date is None
    &&& it.subject is None
}

/// A special compare endpoint.
pub fn special_item(rev: &str, label: &str) -> (r: CompareItem)
    ensures
        special_item_ok(r, rev@, label@),
{
    CompareItem {
        rev: rev.to_owned(),
        label: label.to_owned(),
        is_special: true,
        short_hash: None,
        date: None,
        subject: None,
    }
}

/// The short context of a compare endpoint: the label of a special one, else
/// its short hash (or "???") and the day of its date.
pub open spec fn spec_short_context(item: CompareItem) -> Seq<char> {
    if item.is_special {
        item.label@
    } else {
        (match item.short_hash {
            Some(h) => h@,
            None => "???"@,
        }) + " "@ + match item.date {
            Some(d) => first_field(d@, ' '),
            None => Seq::empty(),
        }
    }
}

/// Builds the short context string of a compare endpoint.
pub fn short_context(item: &CompareItem) -> (r: String)
    ensures
        r@ == spec_short_context(*item),
{
    if item.is_special {
        return item.label.clone();
    }
    let hash: String = match &item.short_hash {
        Some(h) => h.clone(),
        None => "???".to_owned(),
    };
    let date: String = match &item.date {
        Some(d) => first_field_of(d.as_str(), ' '),
        None => String::new(),
    };
    join_space(hash.as_str(), date.as_str())
}

/// `s` begins with `p`.
pub open spec fn has_prefix(s: Seq<char>, p: Seq<char>) -> bool {
    p.len() <= s.len() && s.subrange(0, p.len() as int) == p
}

/// The short context of a compare label: special labels as they are, else the
/// first two space-separated fields.
pub open spec fn spec_short_context_from_label(label: Seq<char>) -> Seq<char> {
    if has_prefix(label, "WORKING"@) || has_prefix(label, "STAGED"@) || has_prefix(
        label,
        "INDEX"@,
    ) {
        label
    } else if index_of_char(label, ' ') < label.len() {
        first_field(label, ' ') + " "@ + first_field(after_field(label, ' '), ' ')
    } else {
        label
    }
}

/// Extracts a short context from an already formatted label.
pub fn short_context_from_label(label: &str) -> (r: String)
    ensures
        r@ == spec_short_context_from_label(label@),
{
    if crate::text::starts_with(label, "WORKING") || crate::text::starts_with(label, "STAGED")
        || crate::text::starts_with(label, "INDEX") {
        return label.to_owned();
    }
    let cs = chars_of(label);
    let k = crate::text::find_char(&cs, ' ');
    if k < cs.len() {
        let p0 = first_field_of(label, ' ');
        let rest = after_field_of(label, ' ');
        let p1 = first_field_of(rest.as_str(), ' ');
        join_space(p0.as_str(), p1.as_str())
    } else {
        label.to_owned()
    }
}

/// The diff mode that compares endpoint `old` with endpoint `new`.
pub open spec fn spec_compare_mode(old: Seq<char>, new: Seq<char>) -> (DiffModeKind, Seq<char>) {
    if old == "--index"@ && new == "--working-tree"@ {
        (DiffModeKind::Unstaged, Seq::empty())
    } else if new == "--working-tree"@ {
        (DiffModeKind::WorkingTree, old)
    } else if new == "--staged"@ {
        (DiffModeKind::StagedVsCommit, old)
    } else {
        (DiffModeKind::Range, old + ".."@ + new)
    }
}

/// The variant of a diff mode.
#[derive(PartialEq, Eq, Structural)]
pub enum DiffModeKind {
    Range,
    Unstaged,
    Staged,
    WorkingTree,
    StagedVsCommit,
}

impl DiffMode {
    /// The variant of this mode and its argument (empty when it has none).
    pub open spec fn kind(&self) -> (DiffModeKind, Seq<char>) {
        match self {
            DiffMode::Range(r) => (DiffModeKind::Range, r@),
            DiffMode::Unstaged => (DiffModeKind::Unstaged, Seq::empty()),
            DiffMode::Staged => (DiffModeKind::Staged, Seq::empty()),
            DiffMode::WorkingTree(c) => (DiffModeKind::WorkingTree, c@),
            DiffMode::StagedVsCommit(c) => (DiffModeKind::StagedVsCommit, c@),
        }
    }

    /// A copy of this mode.
    pub fn duplicate(&self) -> (r: DiffMode)
        ensures
            r.kind() == self.kind(),
    {
        match self {
            DiffMode::Range(r) => DiffMode::Range(r.clone()),
            DiffMode::Unstaged => DiffMode::Unstaged,
            DiffMode::Staged => DiffMode::Staged,
            DiffMode::WorkingTree(c) => DiffMode::WorkingTree(c.clone()),
            DiffMode::StagedVsCommit(c) => DiffMode::StagedVsCommit(c.clone()),
        }
    }
}

/// Chooses the diff mode for comparing `old_rev` (old side) with `new_rev`
/// (new side): index against working tree is the unstaged diff, a commit
/// against the working tree or the index diffs against that, anything else is a range.
pub fn resolve_compare_mode(old_rev: &str, new_rev: &str) -> (r: DiffMode)
    ensures
        r.kind() == spec_compare_mode(old_rev@, new_rev@),
        old_rev@ == "--index"@ && new_rev@ == "--working-tree"@ ==> (r is Unstaged),
        old_rev@ != "--index"@ && new_rev@ == "--working-tree"@ ==> (r matches DiffMode::WorkingTree(c) && c@
            == old_rev@),
        new_rev@ == "--staged"@ ==> (r matches DiffMode::StagedVsCommit(c) && c@ == old_rev@),
        new_rev@ != "--working-tree"@ && new_rev@ != "--staged"@ ==> (r matches DiffMode::Range(x) && x@
            == old_rev@ + ".."@ + new_rev@),
{
    proof {
        reveal_strlit("--staged");
        reveal_strlit("--working-tree");
        assert("--staged"@ != "--working-tree"@) by {
            assert("--staged"@.len() != "--working-tree"@.len());
        }
    }
    if str_eq(old_rev, "--index") && str_eq(new_rev, "--working-tree") {
        DiffMode::Unstaged
    } else if str_eq(new_rev, "--working-tree") {
        DiffMode::WorkingTree(old_rev.to_owned())
    } else if str_eq(new_rev, "--staged") {
        DiffMode::StagedVsCommit(old_rev.to_owned())
    } else {
        let mut r = old_rev.to_owned();
        r.append("..");
        r.append(new_rev);
        DiffMode::Range(r)
    }
}

/// Positions `i` and `i + 1` of `s` hold two dots.
pub open spec fn dots_at(s: Seq<char>, i: int) -> bool {
    0 <= i && i + 1 < s.len() && s[i] == '.' && s[i + 1] == '.'
}

/// Index of the first ".." in `s`, or its length when there is none.
pub open spec fn first_dots(s: Seq<char>) -> int
    decreases s.len(),
{
    if s.len() < 2 {
        s.len() as int
    } else if s[0] == '.' && s[1] == '.' {
        0
    } else {
        1 + first_dots(s.drop_first())
    }
}

/// Facts about `first_dots`.
pub proof fn lemma_first_dots(s: Seq<char>)
    ensures
        0 <= first_dots(s) <= s.len(),
        first_dots(s) < s.len() ==> dots_at(s, first_dots(s)),
        forall|j: int| 0 <= j < first_dots(s) ==> !dots_at(s, j),
    decreases s.len(),
{
    if s.len() >= 2 && !(s[0] == '.' && s[1] == '.') {
        lemma_first_dots(s.drop_first());
        assert forall|j: int| 0 <= j < first_dots(s) implies !dots_at(s, j) by {
            if j > 0 {
                assert(!dots_at(s.drop_first(), j - 1));
            }
        }
    }
}

/// A side of a range, "HEAD" when it is left empty.
pub open spec fn or_head(x: Seq<char>) -> Seq<char> {
    if x.len() == 0 {
        "HEAD"@
    } else {
        x
    }
}

/// The old and new revisions of a range: "a..b" and "a...b" give `a` and `b`
/// (an empty side is HEAD); a single revision `r` gives its parent "r^" and `r`.
pub open spec fn spec_parse_range(s: Seq<char>) -> (Seq<char>, Seq<char>) {
    let i = first_dots(s);
    if i >= s.len() {
        (s + "^"@, s)
    } else {
        let sep: int = if i + 2 < s.len() && s[i + 2] == '.' {
            3
        } else {
            2
        };
        (or_head(s.take(i)), or_head(s.skip(i + sep)))
    }
}

/// The characters of `cs` from `a` to `b` as a string.
fn substring(cs: &Vec<char>, a: usize, b: usize) -> (r: String)
    requires
        a <= b <= cs.len(),
    ensures
        r@ == cs@.subrange(a as int, b as int),
{
    let mut out: Vec<char> = Vec::new();
    let mut i: usize = a;
    while i < b
        invariant
            a <= i <= b <= cs.len(),
            out@ == cs@.subrange(a as int, i as int),
        decreases b - i,
    {
        out.push(cs[i]);
        i = i + 1;
        assert(cs@.subrange(a as int, i as int) == cs@.subrange(a as int, i - 1 as int).push(
            cs@[i - 1 as int],
        ));
    }
    string_of(&out)
}

/// "HEAD" when `x` is empty, else `x`.
fn head_if_empty(x: String) -> (r: String)
    ensures
        r@ == or_head(x@),
{
    if x.as_str().is_empty() {
        "HEAD".to_owned()
    } else {
        x
    }
}

/// Splits a revision range into its old and new revisions.
pub fn parse_git_range(range: &str) -> (r: (String, String))
    ensures
        (r.0@, r.1@) == spec_parse_range(range@),
{
    let cs = chars_of(range);
    proof {
        lemma_first_dots(cs@);
    }
    let n = cs.len();
    let mut i: usize = 0;
    while n - i >= 2
        invariant
            n == cs@.len(),
            i <= n,
            forall|j: int| 0 <= j < i ==> !dots_at(cs@, j),
        ensures
            i <= n,
            forall|j: int| 0 <= j < i ==> !dots_at(cs@, j),
            n - i >= 2 ==> dots_at(cs@, i as int),
        decreases n - i,
    {
        if cs[i] == '.' && cs[i + 1] == '.' {
            break;
        }
        i = i + 1;
    }
    if n - i >= 2 {
        assert(i == first_dots(cs@)) by {
            if first_dots(cs@) < i {
                assert(dots_at(cs@, first_dots(cs@)));
            }
            if first_dots(cs@) > i {
                assert(!dots_at(cs@, i as int));
            }
        }
        let sep: usize = if i + 2 < n && cs[i + 2] == '.' {
            3
        } else {
            2
        };
        let old = head_if_empty(substring(&cs, 0, i));
        let new = head_if_empty(substring(&cs, i + sep, n));
        assert(cs@.take(i as int) == cs@.subrange(0, i as int));
        assert(cs@.skip(i + sep) == cs@.subrange(i + sep, n as int));
        (old, new)
    } else {
        assert(first_dots(cs@) >= n) by {
            if first_dots(cs@) < n {
                assert(dots_at(cs@, first_dots(cs@)));
            }
        }
        let mut old = range.to_owned();
        old.append("^");
        (old, range.to_owned())
    }
}

/// The revisions whose resolved hashes make up the review scope of `mode`.
pub open spec fn spec_scope_revs(mode: DiffMode) -> Seq<Seq<char>> {
    match mode {
        DiffMode::Range(r) => seq![spec_parse_range(r@).0, spec_parse_range(r@).1],
        DiffMode::Unstaged => Seq::empty(),
        DiffMode::Staged => seq!["HEAD"@],
        DiffMode::WorkingTree(c) => seq![c@],
        DiffMode::StagedVsCommit(c) => seq![c@],
    }
}

/// Revision `i` of `revs`, replaced by its resolution when there is one.
pub open spec fn resolved_or(revs: Seq<Seq<char>>, resolved: Seq<Option<String>>, i: int) -> Seq<
    char,
> {
    if 0 <= i < resolved.len() && resolved[i] is Some {
        resolved[i]->0@
    } else {
        revs[i]
    }
}

/// The review scope key of `mode`, "old:new", with revisions replaced by their
/// resolutions where `resolved` has them.
pub open spec fn spec_scope_key(mode: DiffMode, resolved: Seq<Option<String>>) -> Seq<char> {
    let revs = spec_scope_revs(mode);
    match mode {
        DiffMode::Range(_) => resolved_or(revs, resolved, 0) + ":"@ + resolved_or(
            revs,
            resolved,
            1,
        ),
        DiffMode::Unstaged => "INDEX:WORKTREE"@,
        DiffMode::Staged => resolved_or(revs, resolved, 0) + ":INDEX"@,
        DiffMode::WorkingTree(_) => resolved_or(revs, resolved, 0) + ":WORKTREE"@,
        DiffMode::StagedVsCommit(_) => resolved_or(revs, resolved, 0) + ":INDEX"@,
    }
}

/// Revision `i` of `revs`, replaced by its resolution when there is one.
fn pick_resolved(revs: &Vec<String>, resolved: &Vec<Option<String>>, i: usize) -> (r: String)
    requires
        i < revs@.len(),
    ensures
        r@ == resolved_or(revs@.map_values(|s: String| s@), resolved@, i as int),
{
    if i < resolved.len() {
        if let Some(h) = &resolved[i] {
            return h.clone();
        }
    }
    revs[i].clone()
}

impl DiffMode {
    /// The revisions to resolve for the review scope key, old side first.
    pub fn scope_revs(&self) -> (r: Vec<String>)
        ensures
            r@.map_values(|s: String| s@) == spec_scope_revs(*self),
    {
        let mut v: Vec<String> = Vec::new();
        match self {
            DiffMode::Range(range) => {
                let (o, n) = parse_git_range(range.as_str());
                v.push(o);
                v.push(n);
            },
            DiffMode::Unstaged => {},
            DiffMode::Staged => {
                v.push("HEAD".to_owned());
            },
            DiffMode::WorkingTree(c) => {
                v.push(c.clone());
            },
            DiffMode::StagedVsCommit(c) => {
                v.push(c.clone());
            },
        }
        assert(v@.map_values(|s: String| s@) =~= spec_scope_revs(*self));
        v
    }

    /// The review scope key "old:new" of this mode, where `resolved[i]` is the
    /// hash that `scope_revs()[i]` resolves to, or `None` to keep it as written.
    pub fn scope_key(&self, resolved: &Vec<Option<String>>) -> (r: String)
        ensures
            r@ == spec_scope_key(*self, resolved@),
    {
        let revs = self.scope_revs();
        assert(revs@.map_values(|s: String| s@).len() == revs@.len());
        match self {
            DiffMode::Range(_) => {
                let mut k = pick_resolved(&revs, resolved, 0);
                k.append(":");
                let n = pick_resolved(&revs, resolved, 1);
                k.append(n.as_str());
                k
            },
            DiffMode::Unstaged => "INDEX:WORKTREE".to_owned(),
            DiffMode::Staged => {
                let mut k = pick_resolved(&revs, resolved, 0);
                k.append(":INDEX");
                k
            },
            DiffMode::WorkingTree(_) => {
                let mut k = pick_resolved(&revs, resolved, 0);
                k.append(":WORKTREE");
                k
            },
            DiffMode::StagedVsCommit(_) => {
                let mut k = pick_resolved(&revs, resolved, 0);
                k.append(":INDEX");
                k
            },
        }
    }
}

/// The revision whose log lists the old-side candidates: none (the whole log)
/// for a special endpoint such as "--working-tree", else the endpoint itself.
pub fn old_side_revspec(new_rev: &str) -> (r: Option<String>)
    ensures
        has_prefix(new_rev@, "--"@) ==> r is None,
        !has_prefix(new_rev@, "--"@) ==> (r matches Some(x) && x@ == new_rev@),
{
    if crate::text::starts_with(new_rev, "--") {
        None
    } else {
        Some(new_rev.to_owned())
    }
}

/// The commits of `entries` offered as old side against `new_rev`: all but `new_rev` itself.
pub open spec fn old_side_commits(new_rev: Seq<char>, entries: Seq<LogEntry>) -> Seq<LogEntry> {
    entries.filter(|e: LogEntry| e.full_hash@ != new_rev)
}

/// The old-side endpoints against `new_rev`: the index first when `new_rev`
/// is the working tree, then a commit endpoint for each of `entries` but `new_rev`.
pub open spec fn old_side_items_ok(items: Seq<CompareItem>, new_rev: Seq<char>, entries: Seq<LogEntry>) -> bool {
    let k: int = if new_rev == "--working-tree"@ {
        1
    } else {
        0
    };
    &&& k == 1 ==> special_item_ok(items[0], "--index"@, "INDEX"@)
    &&& commit_items_from(items, k, old_side_commits(new_rev, entries))
}

/// Old-side commit `c` is offered at its place after the index, if any.
proof fn lemma_old_item(items: Seq<CompareItem>, new_rev: Seq<char>, entries: Seq<LogEntry>, c: int)
    requires
        old_side_items_ok(items, new_rev, entries),
        0 <= c < old_side_commits(new_rev, entries).len(),
    ensures
        commit_item_ok(
            old_side_commits(new_rev, entries)[c],
            items[c + if new_rev == "--working-tree"@ {
                1int
            } else {
                0int
            }],
        ),
{
    let k: int = if new_rev == "--working-tree"@ {
        1
    } else {
        0
    };
    assert(commit_items_from(items, k, old_side_commits(new_rev, entries)));
    assert(commit_item_ok(old_side_commits(new_rev, entries)[c], items[k + c]));
    assert(k + c == c + k);
}

/// The old-side endpoints against `new_rev` never include `new_rev` itself;
/// against the working tree the index comes first; every listed commit but
/// `new_rev` is offered as a commit endpoint, and every commit endpoint is
/// one of the listed commits.
pub proof fn law_old_side_items(items: Seq<CompareItem>, new_rev: Seq<char>, entries: Seq<LogEntry>)
    requires
        old_side_items_ok(items, new_rev, entries),
    ensures
        forall|j: int| 0 <= j < items.len() ==> (#[trigger] items[j]).rev@ != new_rev,
        new_rev == "--working-tree"@ ==> items.len() > 0 && items[0].rev@ == "--index"@ && items[0].is_special,
        forall|i: int|
            0 <= i < entries.len() && (#[trigger] entries[i]).full_hash@ != new_rev ==> exists|j: int|
                0 <= j < items.len() && items[j].rev == entries[i].full_hash && !items[j].is_special,
        forall|j: int|
            0 <= j < items.len() && !(#[trigger] items[j]).is_special ==> exists|i: int|
                0 <= i < entries.len() && entries[i].full_hash == items[j].rev,
{
    broadcast use vstd::seq_lib::group_filter_ensures, Seq::lemma_filter_contains_rev;

    reveal_strlit("--index");
    reveal_strlit("--working-tree");
    let k: int = if new_rev == "--working-tree"@ {
        1
    } else {
        0
    };
    let commits = old_side_commits(new_rev, entries);
    assert forall|j: int| 0 <= j < items.len() implies (#[trigger] items[j]).rev@ != new_rev by {
        if j >= k {
            lemma_old_item(items, new_rev, entries, j - k);
            assert(commits[j - k].full_hash@ != new_rev);
        } else {
            assert("--index"@ != "--working-tree"@) by {
                assert("--index"@[2] != "--working-tree"@[2]);
            }
        }
    }
    assert forall|i: int| 0 <= i < entries.len() && (#[trigger] entries[i]).full_hash@ != new_rev implies exists|j: int|
        0 <= j < items.len() && items[j].rev == entries[i].full_hash && !items[j].is_special by {
        assert(commits.contains(entries[i]));
        let c = choose|c: int| 0 <= c < commits.len() && commits[c] == entries[i];
        lemma_old_item(items, new_rev, entries, c);
    }
    assert forall|j: int| 0 <= j < items.len() && !(#[trigger] items[j]).is_special implies exists|i: int|
        0 <= i < entries.len() && entries[i].full_hash == items[j].rev by {
        assert(j >= k);
        lemma_old_item(items, new_rev, entries, j - k);
        assert(commits.contains(commits[j - k]));
        assert(entries.contains(commits[j - k]));
        let i = choose|i: int| 0 <= i < entries.len() && entries[i] == commits[j - k];
    }
}

/// Old-side endpoints against `new_rev`: the index first when `new_rev` is the
/// working tree, then the commits of `entries` other than `new_rev`, in order.
pub fn build_old_items(new_rev: &str, entries: &Vec<LogEntry>) -> (r: Vec<CompareItem>)
    requires
        entries_truncatable(entries@),
    ensures
        old_side_items_ok(r@, new_rev@, entries@),
{
    let mut items: Vec<CompareItem> = Vec::new();
    let wt = str_eq(new_rev, "--working-tree");
    if wt {
        items.push(special_item("--index", "INDEX"));
    }
    let ghost k: int = if wt {
        1
    } else {
        0
    };
    let mut i: usize = 0;
    while i < entries.len()
        invariant
            i <= entries@.len(),
            entries_truncatable(entries@),
            wt == (new_rev@ == "--working-tree"@),
            k == (if wt {
                1int
            } else {
                0
            }),
            items@.len() == k + old_side_commits(new_rev@, entries@.take(i as int)).len(),
            k == 1 ==> special_item_ok(items@[0], "--index"@, "INDEX"@),
            forall|j: int|
                0 <= j < old_side_commits(new_rev@, entries@.take(i as int)).len()
                    ==> commit_item_ok(
                    old_side_commits(new_rev@, entries@.take(i as int))[j],
                    #[trigger] items@[k + j],
                ),
        decreases entries.len() - i,
    {
        let e = &entries[i];
        let ghost prev = old_side_commits(new_rev@, entries@.take(i as int));
        proof {
            assert(entries@.take(i + 1) == entries@.take(i as int).push(entries@[i as int]));
            reveal_with_fuel(Seq::<LogEntry>::filter, 1);
            assert(entries@.take(i + 1).drop_last() == entries@.take(i as int));
            assert(entries@.take(i + 1).last() == entries@[i as int]);
        }
        if !str_eq(e.full_hash.as_str(), new_rev) {
            assert(truncatable(entries@[i as int].subject@, 30));
            items.push(commit_item(e));
        }
        i = i + 1;
    }
    assert(entries@.take(entries@.len() as int) == entries@);
    items
}

/// What the background diff sends when it is done.
pub enum DiffMessage {
    Done(DiffPayload),
    Error(String),
}

/// The result of a background diff.
pub struct DiffPayload {
    pub files: Vec<DisplayFile>,
}

/// A diff computing in the background: the event loop's passes since it started.
#[derive(Debug, Clone, Copy)]
pub struct LoadingState {
    pub tick: usize,
}

/// What the event loop found when it looked for the background diff's message.
pub enum LoadingPoll {
    /// The message.
    Received(DiffMessage),
    /// The background diff ended without a message.
    Disconnected,
    /// Nothing yet.
    Empty,
}

/// Outside work that the event loop carries out for the state machine.
pub enum Effect {
    /// Nothing to do.
    Nothing,
    /// Leave the application.
    Quit,
    /// Compute a diff in the background; the loop resolves the scope
    /// revisions and calls `start_diff_loading`.
    LoadDiff { mode: DiffMode, context: Option<String> },
    /// Ask git whether there are unstaged and staged changes, then call `start_compare`.
    OpenCompare,
    /// List the old-side commits of `new_rev`, then call `show_old_side`.
    PickOldSide { new_rev: String, new_label: String },
    /// Record in the review store that `path` was reviewed at `hash`.
    MarkReviewed { scope: String, path: String, hash: u64 },
    /// Remove the review mark of `path` from the review store.
    UnmarkReviewed { scope: String, path: String },
    /// Clear the review store.
    ClearReviews,
    /// Drop the background diff in progress.
    CancelLoading,
}

/// Every commit subject of `entries` can be cut for a compare label (30 bytes).
pub fn entries_fit(entries: &Vec<LogEntry>) -> (r: bool)
    ensures
        r == entries_truncatable(entries@),
{
    let mut i: usize = 0;
    while i < entries.len()
        invariant
            i <= entries@.len(),
            forall|j: int| 0 <= j < i ==> truncatable((#[trigger] entries@[j]).subject@, 30),
        decreases entries.len() - i,
    {
        let subject = entries[i].subject.as_str();
        if !can_truncate(subject, 30) {
            return false;
        }
        i = i + 1;
    }
    true
}

/// Main application state.
pub struct App {
    pub view: View,
    /// The view to go back to when the help closes or a loading diff is
    /// cancelled: the one that was showing when it opened.
    pub previous_view: View,
    /// Whether the app was launched with args (no log view to go back to).
    pub launched_with_args: bool,
    // Diff view state
    pub files: Vec<DisplayFile>,
    pub nav: NavState,
    pub show_tree: bool,
    pub tree_width: u16,
    pub tree_nodes: Vec<TreeNode>,
    pub tree_scroll: usize,
    pub tree_focused: bool,
    pub auto_hide_tree: bool,
    pub tree_cursor: usize,
    pub diff_context: Option<String>,
    /// Current cursor row in diff view (highlighted line).
    pub diff_cursor: usize,
    // Log view state
    pub log_items: Vec<LogItem>,
    pub log_entries: Vec<LogEntry>,
    pub log_cursor: usize,
    pub log_scroll: usize,
    // Search state (shared between log and compare views)
    pub search_active: bool,
    pub search_query: String,
    /// Indices into the current list that match the search query.
    pub search_filtered: Vec<usize>,
    /// Cursor position within the filtered list.
    pub search_cursor: usize,
    /// Scroll offset within the filtered list.
    pub search_scroll: usize,
    // Diff find state
    pub diff_find_active: bool,
    pub diff_find_query: String,
    pub diff_find_search_old: bool,
    pub diff_find_search_new: bool,
    pub diff_find_matches: Vec<DiffFindMatch>,
    pub diff_find_current: usize,
    // Input
    pub input_state: InputState,
    // Background loading
    pub loading_state: Option<LoadingState>,
    // Review tracking: indices of the files marked reviewed.
    pub reviewed: HashSet<usize>,
    pub diff_scope: Option<String>,
    // For diff refresh
    pub last_diff_mode: Option<DiffMode>,
    // Refresh status (displayed at bottom of file tree)
    pub diff_loaded_time: Option<String>,
    pub initial_file_count: usize,
    pub diff_refreshed_time: Option<String>,
    pub refresh_delta_text: String,
    /// Paths of the files of the last loaded diff.
    pub baseline_file_paths: Vec<String>,
    /// Path and content hash of each file of the last loaded diff.
    pub baseline_file_hashes: Vec<(String, u64)>,
}

/// Line `i` of the log is a separator.
pub open spec fn is_separator(items: Seq<LogItem>, i: int) -> bool {
    0 <= i < items.len() && items[i] is Separator
}

/// The commit under the log cursor, if there is one, has a subject that can
/// be cut for its 20-byte label.
pub open spec fn selection_cuttable(a: App) -> bool {
    a.log_cursor < a.log_items@.len() ==> (a.log_items@[a.log_cursor as int] matches LogItem::Commit(e)
        ==> truncatable(e.subject@, 20))
}

/// `a - b`, or 0 when `b` is larger.
pub open spec fn sat_sub(a: int, b: int) -> int {
    if a >= b {
        a - b
    } else {
        0
    }
}

/// The smaller of `a` and `b`.
pub open spec fn min(a: int, b: int) -> int {
    if a <= b {
        a
    } else {
        b
    }
}

/// `min(a + d, max)`.
fn min_add(a: usize, d: usize, max: usize) -> (r: usize)
    ensures
        r == min(a + d, max as int),
{
    if a >= max {
        max
    } else if d > max - a {
        max
    } else {
        a + d
    }
}

/// The log cursor after moving `n` lines down from `cursor`, stepping over a separator.
pub open spec fn log_down(items: Seq<LogItem>, cursor: int, n: int) -> int {
    let c = min(cursor + n, sat_sub(items.len() as int, 1));
    if is_separator(items, c) && c + 1 < items.len() {
        c + 1
    } else {
        c
    }
}

/// The log cursor after moving `n` lines up from `cursor`, stepping over a separator.
pub open spec fn log_up(items: Seq<LogItem>, cursor: int, n: int) -> int {
    let c = sat_sub(cursor, n);
    if is_separator(items, c) && c > 0 {
        c - 1
    } else {
        c
    }
}

/// The log lines for the given special entries and commits: the working tree
/// and the index when they have changes, a separator after them, then the commits.
pub open spec fn spec_log_items(has_unstaged: bool, has_staged: bool, entries: Seq<LogEntry>) -> Seq<
    LogItem,
> {
    (if has_unstaged {
        seq![LogItem::WorkingTree]
    } else {
        Seq::empty()
    }) + (if has_staged {
        seq![LogItem::Staged]
    } else {
        Seq::empty()
    }) + (if has_unstaged || has_staged {
        seq![LogItem::Separator]
    } else {
        Seq::empty()
    }) + entries.map_values(|e: LogEntry| LogItem::Commit(e))
}

/// The context shown while a commit's diff loads: short hash, day, and subject cut at 20 bytes.
pub open spec fn log_context(e: LogEntry) -> Seq<char> {
    e.short_hash@ + " "@ + first_field(e.date@, ' ') + " "@ + truncated(e.subject@, 20)
}

/// `r` is a request to load the diff of mode `kind` with context `ctx`.
pub open spec fn is_load(r: Effect, kind: (DiffModeKind, Seq<char>), ctx: Seq<char>) -> bool {
    match r {
        Effect::LoadDiff { mode, context } => mode.kind() == kind && match context {
            Some(c) => c@ == ctx,
            None => false,
        },
        _ => false,
    }
}

/// The items of a compare step.
pub open spec fn compare_items_of(c: CompareState) -> Seq<CompareItem> {
    match c {
        CompareState::PickNew { items, .. } => items@,
        CompareState::PickOld { items, .. } => items@,
    }
}

/// The compare step with its cursor moved to `nc` and its scroll following it.
pub open spec fn with_compare_cursor(c: CompareState, nc: usize) -> CompareState {
    match c {
        CompareState::PickNew { items, cursor, scroll } => CompareState::PickNew {
            items,
            cursor: nc,
            scroll: spec_adjust_scroll(scroll as int, nc as int, 30) as usize,
        },
        CompareState::PickOld { new_rev, new_label, items, cursor, scroll } => CompareState::PickOld {
            new_rev,
            new_label,
            items,
            cursor: nc,
            scroll: spec_adjust_scroll(scroll as int, nc as int, 30) as usize,
        },
    }
}

/// The view with the compare cursor moved to `nc` (other views unchanged).
pub open spec fn view_with_compare_cursor(v: View, nc: usize) -> View {
    match v {
        View::Compare(c) => View::Compare(with_compare_cursor(c, nc)),
        _ => v,
    }
}

/// The indices below `n` that satisfy `p`, in increasing order.
pub open spec fn indices_where(n: nat, p: spec_fn(int) -> bool) -> Seq<usize>
    decreases n,
{
    if n == 0 {
        Seq::empty()
    } else {
        indices_where((n - 1) as nat, p) + if p(n - 1) {
            seq![(n - 1) as usize]
        } else {
            Seq::empty()
        }
    }
}

/// A log line matches the lowercased query `q`.
pub open spec fn log_item_matches(item: LogItem, q: Seq<char>) -> bool {
    match item {
        LogItem::WorkingTree => contains_seq("working tree"@, q),
        LogItem::Staged => contains_seq("staged index"@, q),
        LogItem::Separator => false,
        LogItem::Commit(e) => contains_seq(lowercase(e.short_hash@), q) || contains_seq(
            lowercase(e.full_hash@),
            q,
        ) || contains_seq(lowercase(e.date@), q) || contains_seq(lowercase(e.subject@), q),
    }
}

/// The search results of the log for the lowercased query `q`: all lines but
/// separators when it is empty, else the matching lines.
pub open spec fn log_search(items: Seq<LogItem>, q: Seq<char>) -> Seq<usize> {
    if q.len() == 0 {
        indices_where(items.len(), |i: int| !is_separator(items, i))
    } else {
        indices_where(items.len(), |i: int| log_item_matches(items[i], q))
    }
}

/// The search results of a compare step for the lowercased query `q`: all
/// items when it is empty, else those whose lowercased label holds it.
pub open spec fn compare_search(items: Seq<CompareItem>, q: Seq<char>) -> Seq<usize> {
    if q.len() == 0 {
        indices_where(items.len(), |i: int| true)
    } else {
        indices_where(items.len(), |i: int| contains_seq(lowercase(items[i].label@), q))
    }
}

/// A wider condition picks at least the indices that a narrower one picks.
proof fn lemma_indices_where_wider(n: nat, p: spec_fn(int) -> bool, q: spec_fn(int) -> bool)
    requires
        forall|i: int| 0 <= i < n && #[trigger] p(i) ==> q(i),
    ensures
        forall|x: usize| indices_where(n, p).contains(x) ==> indices_where(n, q).contains(x),
    decreases n,
{
    if n > 0 {
        let m = (n - 1) as nat;
        lemma_indices_where_wider(m, p, q);
        assert forall|x: usize| indices_where(n, p).contains(x) implies indices_where(n, q).contains(x) by {
            let s = indices_where(m, p);
            let k = choose|k: int| 0 <= k < indices_where(n, p).len() && indices_where(n, p)[k] == x;
            if k < s.len() {
                assert(s[k] == x);
                assert(s.contains(x));
                let k2 = choose|k2: int| 0 <= k2 < indices_where(m, q).len() && indices_where(m, q)[k2] == x;
                assert(indices_where(n, q)[k2] == x);
            } else {
                assert(p(n - 1));
                assert(q(n - 1));
                assert(indices_where(n, q)[indices_where(m, q).len() as int] == x);
            }
        }
    }
}

/// A text that holds a query holds every prefix of it.
proof fn lemma_contains_prefix(hay: Seq<char>, l1: Seq<char>, l2: Seq<char>)
    requires
        l1.len() <= l2.len(),
        l2.take(l1.len() as int) == l1,
        contains_seq(hay, l2),
    ensures
        contains_seq(hay, l1),
{
    let i = choose|i: int| crate::text::occurs_at(hay, l2, i);
    assert(hay.subrange(i, i + l1.len()) =~= l1) by {
        assert forall|k: int| 0 <= k < l1.len() implies hay.subrange(i, i + l1.len())[k] == l1[k] by {
            assert(hay.subrange(i, i + l2.len())[k] == l2[k]);
            assert(l2.take(l1.len() as int)[k] == l2[k]);
        }
    }
    assert(crate::text::occurs_at(hay, l1, i));
}

/// Typing more of a search query only narrows its results: where the
/// lowercased longer query extends the lowercased shorter one, every log line
/// and every compare item that the longer one finds, the shorter one finds too.
pub proof fn law_search_narrows(items: Seq<LogItem>, citems: Seq<CompareItem>, l1: Seq<char>, l2: Seq<char>)
    requires
        l1.len() <= l2.len(),
        l2.take(l1.len() as int) == l1,
    ensures
        forall|x: usize| log_search(items, l2).contains(x) ==> log_search(items, l1).contains(x),
        forall|x: usize| compare_search(citems, l2).contains(x) ==> compare_search(citems, l1).contains(x),
{
    if l1.len() == 0 {
        if l2.len() > 0 {
            lemma_indices_where_wider(
                items.len(),
                |i: int| log_item_matches(items[i], l2),
                |i: int| !is_separator(items, i),
            );
            lemma_indices_where_wider(
                citems.len(),
                |i: int| contains_seq(lowercase(citems[i].label@), l2),
                |i: int| true,
            );
        } else {
            assert(l1 =~= l2);
        }
    } else {
        assert forall|i: int| 0 <= i < items.len() && #[trigger] log_item_matches(items[i], l2) implies log_item_matches(
            items[i],
            l1,
        ) by {
            match items[i] {
                LogItem::WorkingTree => lemma_contains_prefix("working tree"@, l1, l2),
                LogItem::Staged => lemma_contains_prefix("staged index"@, l1, l2),
                LogItem::Separator => {},
                LogItem::Commit(e) => {
                    if contains_seq(lowercase(e.short_hash@), l2) {
                        lemma_contains_prefix(lowercase(e.short_hash@), l1, l2);
                    } else if contains_seq(lowercase(e.full_hash@), l2) {
                        lemma_contains_prefix(lowercase(e.full_hash@), l1, l2);
                    } else if contains_seq(lowercase(e.date@), l2) {
                        lemma_contains_prefix(lowercase(e.date@), l1, l2);
                    } else {
                        lemma_contains_prefix(lowercase(e.subject@), l1, l2);
                    }
                },
            }
        }
        lemma_indices_where_wider(
            items.len(),
            |i: int| log_item_matches(items[i], l2),
            |i: int| log_item_matches(items[i], l1),
        );
        assert forall|i: int|
            0 <= i < citems.len() && #[trigger] contains_seq(lowercase(citems[i].label@), l2) implies contains_seq(
            lowercase(citems[i].label@),
            l1,
        ) by {
            lemma_contains_prefix(lowercase(citems[i].label@), l1, l2);
        }
        lemma_indices_where_wider(
            citems.len(),
            |i: int| contains_seq(lowercase(citems[i].label@), l2),
            |i: int| contains_seq(lowercase(citems[i].label@), l1),
        );
    }
}

/// The state after moving the real cursor to the search result under the search cursor.
pub open spec fn spec_synced(a: App) -> App {
    let at = crate::nav::entry_or_zero(a.search_filtered@, a.search_cursor as int);
    match a.view {
        View::Log => App { log_cursor: at, ..a },
        View::Compare(c) => App { view: View::Compare(with_compare_cursor(c, at)), ..a },
        _ => a,
    }
}

/// `f` is `o` with the search results recomputed for its query, the search
/// cursor on the first one and the real cursor moved there.
pub open spec fn refiltered(o: App, f: App) -> bool {
    let q = lowercase(o.search_query@);
    let filtered = match o.view {
        View::Log => log_search(o.log_items@, q),
        View::Compare(c) => compare_search(compare_items_of(c), q),
        _ => o.search_filtered@,
    };
    &&& f.search_filtered@ == filtered
    &&& f == spec_synced(
        App { search_filtered: f.search_filtered, search_cursor: 0, search_scroll: 0, ..o },
    )
}

/// `f` is `o` with the search bar opened on an empty query.
pub open spec fn activated(o: App, f: App) -> bool {
    let a = App { search_active: true, search_query: f.search_query, ..o };
    &&& f.search_query@ == Seq::<char>::empty()
    &&& f.search_filtered@ == match a.view {
        View::Log => log_search(a.log_items@, Seq::empty()),
        View::Compare(c) => compare_search(compare_items_of(c), Seq::empty()),
        _ => a.search_filtered@,
    }
    &&& f == spec_synced(
        App { search_filtered: f.search_filtered, search_cursor: 0, search_scroll: 0, ..a },
    )
}

/// The search cursor moved to `c` and the search scroll following it.
pub open spec fn spec_search_moved(a: App, c: usize) -> App {
    spec_synced(
        App {
            search_cursor: c,
            search_scroll: spec_adjust_scroll(a.search_scroll as int, c as int, 30) as usize,
            ..a
        },
    )
}

impl App {
    /// The state invariant.
    pub open spec fn wf(&self) -> bool {
        &&& depth_fits(self.tree_nodes@, 0)
        &&& (self.diff_find_matches@.len() == 0 || self.diff_find_current
            < self.diff_find_matches@.len())
    }

    /// A fresh state: log view, no diff, tree shown 35 columns wide, nothing searched.
    pub fn new() -> (r: App)
        ensures
            r.wf(),
            r.view is Log,
            !r.launched_with_args,
            r.files@.len() == 0,
            r.nav.current_file == 0 && r.nav.scroll_positions@.len() == 0
                && r.nav.h_scroll_positions@.len() == 0,
            r.show_tree,
            r.tree_width == 35,
            r.tree_nodes@.len() == 0,
            r.tree_scroll == 0 && r.tree_cursor == 0 && !r.tree_focused && !r.auto_hide_tree,
            r.diff_context is None && r.diff_cursor == 0,
            r.log_items@.len() == 0 && r.log_entries@.len() == 0,
            r.log_cursor == 0 && r.log_scroll == 0,
            !r.search_active && r.search_query@.len() == 0 && r.search_filtered@.len() == 0,
            r.search_cursor == 0 && r.search_scroll == 0,
            !r.diff_find_active && r.diff_find_query@.len() == 0,
            !r.diff_find_search_old && r.diff_find_search_new,
            r.diff_find_matches@.len() == 0 && r.diff_find_current == 0,
            r.input_state.pending is None,
            r.loading_state is None,
            r.reviewed@ == Set::<usize>::empty(),
            r.diff_scope is None && r.last_diff_mode is None,
            r.diff_loaded_time is None && r.initial_file_count == 0,
            r.diff_refreshed_time is None && r.refresh_delta_text@.len() == 0,
            r.baseline_file_paths@.len() == 0 && r.baseline_file_hashes@.len() == 0,
    {
        App {
            view: View::Log,
            previous_view: View::Log,
            launched_with_args: false,
            files: Vec::new(),
            nav: NavState::new(0),
            show_tree: true,
            tree_width: 35,
            tree_nodes: Vec::new(),
            tree_scroll: 0,
            tree_focused: false,
            auto_hide_tree: false,
            tree_cursor: 0,
            diff_context: None,
            diff_cursor: 0,
            log_items: Vec::new(),
            log_entries: Vec::new(),
            log_cursor: 0,
            log_scroll: 0,
            search_active: false,
            search_query: String::new(),
            search_filtered: Vec::new(),
            search_cursor: 0,
            search_scroll: 0,
            diff_find_active: false,
            diff_find_query: String::new(),
            diff_find_search_old: false,
            diff_find_search_new: true,
            diff_find_matches: Vec::new(),
            diff_find_current: 0,
            input_state: InputState { pending: None },
            loading_state: None,
            reviewed: HashSet::new(),
            diff_scope: None,
            last_diff_mode: None,
            diff_loaded_time: None,
            initial_file_count: 0,
            diff_refreshed_time: None,
            refresh_delta_text: String::new(),
            baseline_file_paths: Vec::new(),
            baseline_file_hashes: Vec::new(),
        }
    }

    /// Rebuilds the log lines from the commits and whether the working tree
    /// (`has_unstaged`) and the index (`has_staged`) hold changes.
    pub fn rebuild_log_items(&mut self, has_unstaged: bool, has_staged: bool)
        requires
            old(self).wf(),
        ensures
            final(self).wf(),
            final(self).log_items@ == spec_log_items(has_unstaged, has_staged, old(self).log_entries@),
            *final(self) == (App { log_items: final(self).log_items, ..*old(self) }),
    {
        let mut items: Vec<LogItem> = Vec::new();
        if has_unstaged {
            items.push(LogItem::WorkingTree);
        }
        if has_staged {
            items.push(LogItem::Staged);
        }
        if has_unstaged || has_staged {
            items.push(LogItem::Separator);
        }
        let ghost head = items@;
        let mut i: usize = 0;
        while i < self.log_entries.len()
            invariant
                i <= self.log_entries@.len(),
                items@ == head + self.log_entries@.take(i as int).map_values(
                    |e: LogEntry| LogItem::Commit(e),
                ),
            decreases self.log_entries.len() - i,
        {
            items.push(LogItem::Commit(self.log_entries[i].duplicate()));
            i = i + 1;
            assert(self.log_entries@.take(i as int).map_values(|e: LogEntry| LogItem::Commit(e))
                == self.log_entries@.take(i - 1 as int).map_values(|e: LogEntry| LogItem::Commit(e)).push(
                LogItem::Commit(self.log_entries@[i - 1 as int]),
            ));
        }
        assert(self.log_entries@.take(self.log_entries@.len() as int) == self.log_entries@);
        assert(items@ == spec_log_items(has_unstaged, has_staged, self.log_entries@));
        self.log_items = items;
    }

    /// Shows the commit log. `entries` is the outcome of reading the log:
    /// an error is returned as it is and changes nothing; otherwise the log
    /// lines are rebuilt and the log view opens at the top.
    pub fn load_log(
        &mut self,
        entries: Result<Vec<LogEntry>, String>,
        has_unstaged: bool,
        has_staged: bool,
    ) -> (r: Result<(), String>)
        requires
            old(self).wf(),
        ensures
            final(self).wf(),
            entries matches Err(e) ==> (r matches Err(x) && x == e) && *final(self) == *old(self),
            entries matches Ok(v) ==> {
                &&& r is Ok
                &&& final(self).log_entries == v
                &&& final(self).log_items@ == spec_log_items(has_unstaged, has_staged, v@)
                &&& *final(self) == (App {
                    log_entries: v,
                    log_items: final(self).log_items,
                    log_cursor: 0,
                    log_scroll: 0,
                    view: View::Log,
                    ..*old(self)
                })
            },
    {
        match entries {
            Err(e) => Err(e),
            Ok(v) => {
                self.log_entries = v;
                self.rebuild_log_items(has_unstaged, has_staged);
                self.log_cursor = 0;
                self.log_scroll = 0;
                self.view = View::Log;
                Ok(())
            },
        }
    }
}

impl App {
    /// Moves the compare cursor to `new_cursor` and keeps it visible.
    fn set_compare_cursor(&mut self, new_cursor: usize)
        ensures
            *final(self) == (App { view: view_with_compare_cursor(old(self).view, new_cursor), ..*old(self) }),
    {
        let mut v = View::Log;
        std::mem::swap(&mut v, &mut self.view);
        let nv = match v {
            View::Compare(CompareState::PickNew { items, cursor, scroll }) => View::Compare(
                CompareState::PickNew { items, cursor: new_cursor, scroll: adjust_scroll(scroll, new_cursor, 30) },
            ),
            View::Compare(CompareState::PickOld { new_rev, new_label, items, cursor, scroll }) => View::Compare(
                CompareState::PickOld {
                    new_rev,
                    new_label,
                    items,
                    cursor: new_cursor,
                    scroll: adjust_scroll(scroll, new_cursor, 30),
                },
            ),
            other => other,
        };
        self.view = nv;
    }

    /// Moves the real cursor (log or compare) to the result under the search cursor.
    fn sync_search_cursor_to_real(&mut self)
        ensures
            *final(self) == spec_synced(*old(self)),
    {
        let real_idx: usize = if self.search_cursor < self.search_filtered.len() {
            self.search_filtered[self.search_cursor]
        } else {
            0
        };
        let is_log = match &self.view {
            View::Log => true,
            _ => false,
        };
        if is_log {
            self.log_cursor = real_idx;
        } else {
            self.set_compare_cursor(real_idx);
        }
    }

    /// Recomputes the search results of the current view, puts the search
    /// cursor on the first one and moves the real cursor there.
    fn update_search_filter(&mut self)
        ensures
            refiltered(*old(self), *final(self)),
            old(self).search_query@.len() == 0 ==> lowercase(old(self).search_query@) == Seq::<char>::empty(),
    {
        let query = to_lowercase(self.search_query.as_str());
        let qc = chars_of(query.as_str());
        let ghost q = query@;
        let mut filtered: Vec<usize> = Vec::new();
        let mut changed = true;
        match &self.view {
            View::Log => {
                let items = &self.log_items;
                let mut i: usize = 0;
                while i < items.len()
                    invariant
                        i <= items@.len(),
                        q == qc@,
                        q == query@,
                        q.len() == 0 ==> filtered@ == indices_where(i as nat, |k: int| !is_separator(items@, k)),
                        q.len() > 0 ==> filtered@ == indices_where(i as nat, |k: int| log_item_matches(items@[k], q)),
                    decreases items.len() - i,
                {
                    let keep = if qc.len() == 0 {
                        match &items[i] {
                            LogItem::Separator => false,
                            _ => true,
                        }
                    } else {
                        match &items[i] {
                            LogItem::WorkingTree => str_contains("working tree", query.as_str()),
                            LogItem::Staged => str_contains("staged index", query.as_str()),
                            LogItem::Separator => false,
                            LogItem::Commit(e) => {
                                str_contains(to_lowercase(e.short_hash.as_str()).as_str(), query.as_str())
                                    || str_contains(to_lowercase(e.full_hash.as_str()).as_str(), query.as_str())
                                    || str_contains(to_lowercase(e.date.as_str()).as_str(), query.as_str())
                                    || str_contains(to_lowercase(e.subject.as_str()).as_str(), query.as_str())
                            },
                        }
                    };
                    proof {
                        if q.len() > 0 {
                            assert(keep == log_item_matches(items@[i as int], q));
                        }
                    }
                    if keep {
                        filtered.push(i);
                    }
                    i = i + 1;
                }
            },
            View::Compare(c) => {
                let items = match c {
                    CompareState::PickNew { items, .. } => items,
                    CompareState::PickOld { items, .. } => items,
                };
                let mut i: usize = 0;
                while i < items.len()
                    invariant
                        i <= items@.len(),
                        q == qc@,
                        q == query@,
                        q.len() == 0 ==> filtered@ == indices_where(i as nat, |k: int| true),
                        q.len() > 0 ==> filtered@ == indices_where(i as nat, |k: int| contains_seq(lowercase(items@[k].label@), q)),
                    decreases items.len() - i,
                {
                    let keep = qc.len() == 0 || str_contains(to_lowercase(items[i].label.as_str()).as_str(), query.as_str());
                    proof {
                        if q.len() > 0 {
                            assert(keep == contains_seq(lowercase(items@[i as int].label@), q));
                        }
                    }
                    if keep {
                        filtered.push(i);
                    }
                    i = i + 1;
                }
            },
            _ => {
                changed = false;
            },
        }
        if changed {
            self.search_filtered = filtered;
        }
        self.search_cursor = 0;
        self.search_scroll = 0;
        self.sync_search_cursor_to_real();
    }

    /// Opens the search bar with an empty query.
    fn activate_search(&mut self)
        ensures
            activated(*old(self), *final(self)),
    {
        self.search_active = true;
        self.search_query = String::new();
        self.search_cursor = 0;
        self.search_scroll = 0;
        self.update_search_filter();
    }

    /// Closes the search bar and forgets the query and its results.
    fn deactivate_search(&mut self)
        ensures
            final(self).search_query@ == Seq::<char>::empty(),
            final(self).search_filtered@ == Seq::<usize>::empty(),
            *final(self) == (App {
                search_active: false,
                search_query: final(self).search_query,
                search_filtered: final(self).search_filtered,
                search_cursor: 0,
                search_scroll: 0,
                ..*old(self)
            }),
    {
        self.search_active = false;
        self.search_query = String::new();
        self.search_filtered = Vec::new();
        self.search_cursor = 0;
        self.search_scroll = 0;
    }

    /// Puts the search cursor on result `pos` (at most the last one), keeps
    /// it visible, and moves the real cursor there; nothing when there are no results.
    fn search_move_cursor_to(&mut self, pos: usize)
        ensures
            old(self).search_filtered@.len() == 0 ==> *final(self) == *old(self),
            old(self).search_filtered@.len() > 0 ==> *final(self) == spec_search_moved(
                *old(self),
                min(pos as int, old(self).search_filtered@.len() - 1) as usize,
            ),
    {
        if self.search_filtered.len() == 0 {
            return;
        }
        let last = self.search_filtered.len() - 1;
        self.search_cursor = if pos < last {
            pos
        } else {
            last
        };
        self.search_scroll = adjust_scroll(self.search_scroll, self.search_cursor, 30);
        self.sync_search_cursor_to_real();
    }

    /// Moves the search cursor `delta` results (down when positive, up when
    /// not), within the results, keeps it visible, and moves the real cursor
    /// there; nothing when there are no results.
    fn search_move_cursor(&mut self, delta: i32)
        requires
            delta > i32::MIN,
        ensures
            old(self).search_filtered@.len() == 0 ==> *final(self) == *old(self),
            old(self).search_filtered@.len() > 0 ==> *final(self) == spec_search_moved(
                *old(self),
                (if delta > 0 {
                    min(old(self).search_cursor + delta, old(self).search_filtered@.len() - 1)
                } else {
                    sat_sub(old(self).search_cursor as int, -delta)
                }) as usize,
            ),
    {
        if self.search_filtered.len() == 0 {
            return;
        }
        let max = self.search_filtered.len() - 1;
        if delta > 0 {
            self.search_cursor = min_add(self.search_cursor, delta as usize, max);
        } else {
            let d: usize = (-delta) as usize;
            self.search_cursor = if self.search_cursor >= d {
                self.search_cursor - d
            } else {
                0
            };
        }
        self.search_scroll = adjust_scroll(self.search_scroll, self.search_cursor, 30);
        self.sync_search_cursor_to_real();
    }
}

impl App {
    /// Moves the log cursor one line further down when it rests on a separator.
    fn skip_separator_down(&mut self, item_count: usize)
        requires
            item_count == old(self).log_items@.len(),
        ensures
            *final(self) == (App {
                log_cursor: if is_separator(old(self).log_items@, old(self).log_cursor as int)
                    && old(self).log_cursor + 1 < item_count {
                    (old(self).log_cursor + 1) as usize
                } else {
                    old(self).log_cursor
                },
                ..*old(self)
            }),
    {
        if self.log_cursor < self.log_items.len() {
            let sep = match &self.log_items[self.log_cursor] {
                LogItem::Separator => true,
                _ => false,
            };
            if sep && item_count - self.log_cursor > 1 {
                self.log_cursor = self.log_cursor + 1;
            }
        }
    }

    /// Moves the log cursor one line further up when it rests on a separator.
    fn skip_separator_up(&mut self)
        ensures
            *final(self) == (App {
                log_cursor: if is_separator(old(self).log_items@, old(self).log_cursor as int)
                    && old(self).log_cursor > 0 {
                    (old(self).log_cursor - 1) as usize
                } else {
                    old(self).log_cursor
                },
                ..*old(self)
            }),
    {
        if self.log_cursor < self.log_items.len() {
            let sep = match &self.log_items[self.log_cursor] {
                LogItem::Separator => true,
                _ => false,
            };
            if sep && self.log_cursor > 0 {
                self.log_cursor = self.log_cursor - 1;
            }
        }
    }

    /// Keeps the log cursor within the 30-line log window.
    fn ensure_log_visible(&mut self)
        ensures
            *final(self) == (App {
                log_scroll: spec_adjust_scroll(
                    old(self).log_scroll as int,
                    old(self).log_cursor as int,
                    30,
                ) as usize,
                ..*old(self)
            }),
    {
        self.log_scroll = adjust_scroll(self.log_scroll, self.log_cursor, 30);
    }

    /// The state after the log view handles `action`, and the outside work it asks for.
    pub open spec fn log_action_post(o: App, f: App, action: Action, r: Effect) -> bool {
        let items = o.log_items@;
        let count = items.len() as int;
        match action {
            Action::Quit => r is Quit && f == o,
            Action::ScrollDown(n) => {
                let c = log_down(items, o.log_cursor as int, n as int);
                r is Nothing && f == (App {
                    log_cursor: c as usize,
                    log_scroll: spec_adjust_scroll(o.log_scroll as int, c, 30) as usize,
                    ..o
                })
            },
            Action::ScrollUp(n) => {
                let c = log_up(items, o.log_cursor as int, n as int);
                r is Nothing && f == (App {
                    log_cursor: c as usize,
                    log_scroll: spec_adjust_scroll(o.log_scroll as int, c, 30) as usize,
                    ..o
                })
            },
            Action::ScrollToTop => r is Nothing && f == (App { log_cursor: 0, log_scroll: 0, ..o }),
            Action::ScrollToBottom => {
                let c = sat_sub(count, 1);
                r is Nothing && f == (App {
                    log_cursor: c as usize,
                    log_scroll: spec_adjust_scroll(o.log_scroll as int, c, 30) as usize,
                    ..o
                })
            },
            Action::HalfPageDown => {
                let c = log_down(items, o.log_cursor as int, 15);
                r is Nothing && f == (App {
                    log_cursor: c as usize,
                    log_scroll: spec_adjust_scroll(o.log_scroll as int, c, 30) as usize,
                    ..o
                })
            },
            Action::HalfPageUp => {
                let c = log_up(items, o.log_cursor as int, 15);
                r is Nothing && f == (App {
                    log_cursor: c as usize,
                    log_scroll: spec_adjust_scroll(o.log_scroll as int, c, 30) as usize,
                    ..o
                })
            },
            Action::Select => f == o && if o.log_cursor < count {
                match items[o.log_cursor as int] {
                    LogItem::WorkingTree => is_load(
                        r,
                        (DiffModeKind::Unstaged, Seq::empty()),
                        "Working Tree"@,
                    ),
                    LogItem::Staged => is_load(r, (DiffModeKind::Staged, Seq::empty()), "Staged"@),
                    LogItem::Commit(e) => is_load(
                        r,
                        (DiffModeKind::Range, e.full_hash@),
                        log_context(e),
                    ),
                    LogItem::Separator => r is Nothing,
                }
            } else {
                r is Nothing
            },
            Action::StartCompare => r is OpenCompare && f == o,
            Action::StartSearch => r is Nothing && activated(o, f),
            Action::ShowHelp => r is Nothing && f == (App { view: View::Help, previous_view: o.view, ..o }),
            _ => r is Nothing && f == o,
        }
    }

    /// Moves the log cursor `n` lines down, over a separator, and keeps it visible.
    fn log_move_down(&mut self, n: usize)
        ensures
            ({
                let c = log_down(old(self).log_items@, old(self).log_cursor as int, n as int);
                *final(self) == (App {
                    log_cursor: c as usize,
                    log_scroll: spec_adjust_scroll(old(self).log_scroll as int, c, 30) as usize,
                    ..*old(self)
                })
            }),
    {
        let item_count = self.log_items.len();
        let last: usize = if item_count > 0 {
            item_count - 1
        } else {
            0
        };
        self.log_cursor = min_add(self.log_cursor, n, last);
        self.skip_separator_down(item_count);
        self.ensure_log_visible();
    }

    /// Moves the log cursor `n` lines up, over a separator, and keeps it visible.
    fn log_move_up(&mut self, n: usize)
        ensures
            ({
                let c = log_up(old(self).log_items@, old(self).log_cursor as int, n as int);
                *final(self) == (App {
                    log_cursor: c as usize,
                    log_scroll: spec_adjust_scroll(old(self).log_scroll as int, c, 30) as usize,
                    ..*old(self)
                })
            }),
    {
        self.log_cursor = if self.log_cursor >= n {
            self.log_cursor - n
        } else {
            0
        };
        self.skip_separator_up();
        self.ensure_log_visible();
    }

    /// The diff to load for the log line under the cursor.
    fn log_select(&self) -> (r: Effect)
        requires
            selection_cuttable(*self),
        ensures
            Self::log_action_post(*self, *self, Action::Select, r),
    {
        if self.log_cursor < self.log_items.len() {
            match &self.log_items[self.log_cursor] {
                LogItem::WorkingTree => {
                    return Effect::LoadDiff {
                        mode: DiffMode::Unstaged,
                        context: Some("Working Tree".to_owned()),
                    };
                },
                LogItem::Staged => {
                    return Effect::LoadDiff {
                        mode: DiffMode::Staged,
                        context: Some("Staged".to_owned()),
                    };
                },
                LogItem::Commit(entry) => {
                    assert(truncatable(entry.subject@, 20));
                    let date_only = first_field_of(entry.date.as_str(), ' ');
                    let mut context = join_space(entry.short_hash.as_str(), date_only.as_str());
                    context.append(" ");
                    let t = truncate(entry.subject.as_str(), 20);
                    context.append(t.as_str());
                    return Effect::LoadDiff {
                        mode: DiffMode::Range(entry.full_hash.clone()),
                        context: Some(context),
                    };
                },
                LogItem::Separator => {},
            }
        }
        Effect::Nothing
    }

    /// Handles an action in the log view.
    #[verifier::spinoff_prover]
    fn handle_log_action(&mut self, action: Action) -> (r: Effect)
        requires
            old(self).wf(),
            action is Select ==> selection_cuttable(*old(self)),
        ensures
            final(self).wf(),
            Self::log_action_post(*old(self), *final(self), action, r),
    {
        match action {
            Action::Quit => Effect::Quit,
            Action::ScrollDown(n) => {
                self.log_move_down(n);
                Effect::Nothing
            },
            Action::ScrollUp(n) => {
                self.log_move_up(n);
                Effect::Nothing
            },
            Action::ScrollToTop => {
                self.log_cursor = 0;
                self.log_scroll = 0;
                Effect::Nothing
            },
            Action::ScrollToBottom => {
                self.log_cursor = if self.log_items.len() > 0 {
                    self.log_items.len() - 1
                } else {
                    0
                };
                self.ensure_log_visible();
                Effect::Nothing
            },
            Action::HalfPageDown => {
                self.log_move_down(15);
                Effect::Nothing
            },
            Action::HalfPageUp => {
                self.log_move_up(15);
                Effect::Nothing
            },
            Action::Select => self.log_select(),
            Action::StartCompare => Effect::OpenCompare,
            Action::StartSearch => {
                self.activate_search();
                Effect::Nothing
            },
            Action::ShowHelp => {
                let mut v = View::Help;
                core::mem::swap(&mut self.view, &mut v);
                self.previous_view = v;
                Effect::Nothing
            },
            _ => Effect::Nothing,
        }
    }
}

/// `f` is `o` with the current file's scroll position set to `val` (when it has one).
pub open spec fn scrolled_to(o: NavState, f: NavState, val: int) -> bool {
    &&& f.current_file == o.current_file
    &&& f.h_scroll_positions@ == o.h_scroll_positions@
    &&& f.scroll_positions@ == if o.current_file < o.scroll_positions@.len() {
        o.scroll_positions@.update(o.current_file as int, val as usize)
    } else {
        o.scroll_positions@
    }
}

/// `f` is `o` with the current file's horizontal scroll set to `val` (when it has one).
pub open spec fn h_scrolled_to(o: NavState, f: NavState, val: int) -> bool {
    &&& f.current_file == o.current_file
    &&& f.scroll_positions@ == o.scroll_positions@
    &&& f.h_scroll_positions@ == if o.current_file < o.h_scroll_positions@.len() {
        o.h_scroll_positions@.update(o.current_file as int, val as usize)
    } else {
        o.h_scroll_positions@
    }
}

/// `f` is `o` with file `cur` current and scrolled to its first hunk (when
/// it has one and a scroll position).
pub open spec fn scrolled_first(o: NavState, f: NavState, files: Seq<DisplayFile>, cur: int) -> bool {
    &&& f.current_file == cur
    &&& f.h_scroll_positions@ == o.h_scroll_positions@
    &&& f.scroll_positions@ == if cur < files.len() && files[cur].hunks@.len() > 0 && cur
        < o.scroll_positions@.len() {
        o.scroll_positions@.update(cur, files[cur].hunks@[0].0 as usize)
    } else {
        o.scroll_positions@
    }
}

/// `f` is `o` after making file `idx` current (when it exists) and scrolling
/// to that file's first hunk (when it has one).
pub open spec fn opened_file(o: NavState, f: NavState, files: Seq<DisplayFile>, idx: int) -> bool {
    scrolled_first(
        o,
        f,
        files,
        if idx < files.len() {
            idx
        } else {
            o.current_file as int
        },
    )
}

/// Number of rows of the current file (0 when there is none).
pub open spec fn file_rows(a: App) -> int {
    if a.nav.current_file < a.files@.len() {
        a.files@[a.nav.current_file as int].rows@.len() as int
    } else {
        0
    }
}

/// Byte length of the longer side of a row.
pub open spec fn row_width(r: Row) -> int {
    let l = encode_utf8(r.left.content@).len() as int;
    let g = encode_utf8(r.right.content@).len() as int;
    if l >= g {
        l
    } else {
        g
    }
}

/// The widest row of `rows`, in bytes (0 when there are none).
pub open spec fn max_row_width(rows: Seq<Row>) -> int
    decreases rows.len(),
{
    if rows.len() == 0 {
        0
    } else {
        let m = max_row_width(rows.drop_last());
        let w = row_width(rows.last());
        if m >= w {
            m
        } else {
            w
        }
    }
}

/// Width in bytes of the widest row of the current file (0 when there is none).
pub open spec fn file_max_width(a: App) -> int {
    if a.nav.current_file < a.files@.len() {
        max_row_width(a.files@[a.nav.current_file as int].rows@)
    } else {
        0
    }
}

/// `f` is `o` with the diff cursor on row `c` and the scroll following it.
pub open spec fn diff_moved(o: App, f: App, c: int) -> bool {
    &&& f == (App { diff_cursor: c as usize, nav: f.nav, ..o })
    &&& scrolled_to(o.nav, f.nav, spec_adjust_scroll(o.nav.spec_scroll() as int, c, 30))
}

/// `f` is `o` with the tree cursor on line `c` and the tree scroll following it.
pub open spec fn tree_moved(o: App, f: App, c: int) -> bool {
    f == (App {
        tree_cursor: c as usize,
        tree_scroll: spec_adjust_scroll(o.tree_scroll as int, c, 30) as usize,
        ..o
    })
}

/// `f` is `o` with the cursor (tree or diff, by focus) moved to `c`.
pub open spec fn cursor_moved(o: App, f: App, tree_c: int, diff_c: int) -> bool {
    if o.tree_focused {
        tree_moved(o, f, tree_c)
    } else {
        diff_moved(o, f, diff_c)
    }
}

/// Number of visible lines of the tree.
pub open spec fn tree_lines(a: App) -> int {
    vis_count(a.tree_nodes@) as int
}

/// The file index of the tree line under the cursor, when the tree has focus;
/// else the current file.
pub open spec fn review_target(a: App) -> Option<usize> {
    if a.tree_focused {
        if a.tree_cursor < tree_lines(a) {
            visible(a.tree_nodes@, 0)[a.tree_cursor as int].file_idx
        } else {
            None
        }
    } else {
        Some(a.nav.current_file)
    }
}

/// `f` is `o` after a hunk jump `j`.
pub open spec fn hunk_jumped(o: App, f: App, j: Option<HunkJump>) -> bool {
    match j {
        Some(HunkJump::SameFile(row)) => f == (App { diff_cursor: row, nav: f.nav, ..o })
            && scrolled_to(o.nav, f.nav, row as int),
        Some(HunkJump::NextFile(idx, row)) => {
            let cur = if idx < o.files@.len() {
                idx
            } else {
                o.nav.current_file
            };
            let moved = NavState { current_file: cur, ..o.nav };
            f == (App { diff_cursor: row, nav: f.nav, ..o }) && scrolled_to(moved, f.nav, row as int)
        },
        None => f == o,
    }
}

/// A hunk jump lands on its row: within the file, the diff cursor and the
/// current file's scroll move to the row; to file `idx` (one of the files),
/// that file becomes the current one, with the cursor and its scroll on the
/// row; without a jump nothing changes. Only the cursor and the current
/// file's scroll position move: every other file keeps its scroll.
pub proof fn law_hunk_jump_lands(o: App, f: App, j: Option<HunkJump>)
    requires
        hunk_jumped(o, f, j),
    ensures
        (match j {
            None => f == o,
            Some(HunkJump::SameFile(row)) => {
                &&& f.nav.current_file == o.nav.current_file
                &&& f.diff_cursor == row
                &&& o.nav.current_file < o.nav.scroll_positions@.len() ==> f.nav.spec_scroll() == row
            },
            Some(HunkJump::NextFile(idx, row)) => {
                &&& idx < o.files@.len() ==> f.nav.current_file == idx
                &&& idx >= o.files@.len() ==> f.nav.current_file == o.nav.current_file
                &&& f.diff_cursor == row
                &&& f.nav.current_file < o.nav.scroll_positions@.len() ==> f.nav.spec_scroll() == row
            },
        }),
        j is Some ==> f == (App { diff_cursor: f.diff_cursor, nav: f.nav, ..o }),
        f.nav.scroll_positions@.len() == o.nav.scroll_positions@.len(),
        f.nav.h_scroll_positions@ == o.nav.h_scroll_positions@,
        forall|p: int|
            0 <= p < o.nav.scroll_positions@.len() && p != f.nav.current_file ==> #[trigger] f.nav.scroll_positions@[p]
                == o.nav.scroll_positions@[p],
{
}

/// `f` is `o` after moving to file `cur` by `]f`/`[f`: first hunk shown, cursor
/// there, find matches dropped.
pub open spec fn switched_file(o: App, f: App, cur: int) -> bool {
    &&& scrolled_first(o.nav, f.nav, o.files@, cur)
    &&& f.diff_find_matches@.len() == 0
    &&& f == (App {
        nav: f.nav,
        diff_cursor: f.nav.spec_scroll(),
        diff_find_matches: f.diff_find_matches,
        diff_find_current: 0,
        ..o
    })
}

/// `f` is `o` after toggling the review mark of file `i`, and `r` the store update.
pub open spec fn review_toggled(o: App, f: App, i: usize, r: Effect) -> bool {
    let file = o.files@[i as int];
    &&& f == (App { reviewed: f.reviewed, ..o })
    &&& if o.reviewed@.contains(i) {
        &&& f.reviewed@ == o.reviewed@.remove(i)
        &&& match o.diff_scope {
            Some(sc) => r matches Effect::UnmarkReviewed { scope, path } && scope == sc && path@
                == file.path@,
            None => r is Nothing,
        }
    } else {
        &&& f.reviewed@ == o.reviewed@.insert(i)
        &&& match o.diff_scope {
            Some(sc) => r matches Effect::MarkReviewed { scope, path, hash } && scope == sc && path@
                == file.path@ && hash == file.content_hash,
            None => r is Nothing,
        }
    }
}

/// File `i`'s review mark flipped and nothing else changed: the other
/// files keep their marks, and with a review scope the store is told to
/// unmark the file (by its path) when it was marked, else to mark it (by its
/// path, at its content hash); without a scope it is told nothing.
pub open spec fn mark_flipped(o: App, f: App, r: Effect, i: usize) -> bool {
    let file = o.files@[i as int];
    &&& f == (App { reviewed: f.reviewed, ..o })
    &&& f.reviewed@.contains(i) == !o.reviewed@.contains(i)
    &&& forall|j: usize| j != i ==> f.reviewed@.contains(j) == o.reviewed@.contains(j)
    &&& match o.diff_scope {
        None => r is Nothing,
        Some(sc) => if o.reviewed@.contains(i) {
            r matches Effect::UnmarkReviewed { scope, path } && scope == sc && path@ == file.path@
        } else {
            r matches Effect::MarkReviewed { scope, path, hash } && scope == sc && path@ == file.path@ && hash
                == file.content_hash
        },
    }
}

/// Toggling the review mark acts on the file whose line is under the tree
/// cursor when the tree has focus (on nothing for a directory line or a
/// cursor past the lines), and on the open file otherwise.
pub proof fn law_review_toggles_target(o: App, f: App, r: Effect)
    requires
        diff_action_post(o, f, Action::ToggleReviewed, r),
    ensures
        (o.tree_focused && o.tree_cursor < visible(o.tree_nodes@, 0).len() ==> match visible(
            o.tree_nodes@,
            0,
        )[o.tree_cursor as int].file_idx {
            Some(i) => (i < o.files@.len() ==> mark_flipped(o, f, r, i)) && (i >= o.files@.len() ==> f == o
                && (r is Nothing)),
            None => f == o && (r is Nothing),
        }),
        (o.tree_focused && o.tree_cursor >= visible(o.tree_nodes@, 0).len() ==> f == o && (r is Nothing)),
        (!o.tree_focused && o.nav.current_file < o.files@.len() ==> mark_flipped(o, f, r, o.nav.current_file)),
{
    broadcast use vstd::set::group_set_axioms;

    lemma_visible_len(o.tree_nodes@, 0);
}

/// Selecting a log line opens its diff: the working-tree line the unstaged
/// changes under "Working Tree", the staged line the staged changes under
/// "Staged", a commit line the commit's range under the commit's context; a
/// separator, or a cursor past the lines, opens nothing. The state stays.
pub proof fn law_log_select_opens(o: App, f: App, r: Effect)
    requires
        App::log_action_post(o, f, Action::Select, r),
    ensures
        f == o,
        o.log_cursor >= o.log_items@.len() ==> (r is Nothing),
        (o.log_cursor < o.log_items@.len() ==> match o.log_items@[o.log_cursor as int] {
            LogItem::WorkingTree => r matches Effect::LoadDiff { mode: DiffMode::Unstaged, context: Some(c) }
                && c@ == "Working Tree"@,
            LogItem::Staged => r matches Effect::LoadDiff { mode: DiffMode::Staged, context: Some(c) } && c@
                == "Staged"@,
            LogItem::Commit(e) => r matches Effect::LoadDiff { mode: DiffMode::Range(rev), context: Some(c) }
                && rev@ == e.full_hash@ && c@ == log_context(e),
            LogItem::Separator => r is Nothing,
        }),
{
}

/// An action's scroll amount fits the counter it is added to.
pub open spec fn action_fits(a: App, action: Action) -> bool {
    &&& action matches Action::ScrollRight(n) ==> a.nav.spec_h_scroll() + n <= usize::MAX
    &&& a.view is Log && action is Select ==> selection_cuttable(a)
}

impl App {
    /// Number of rows of the current file.
    fn current_file_rows(&self) -> (r: usize)
        ensures
            r == file_rows(*self),
    {
        if self.nav.current_file < self.files.len() {
            self.files[self.nav.current_file].rows.len()
        } else {
            0
        }
    }

    /// Width in bytes of the widest row of the current file.
    fn current_file_max_line_len(&self) -> (r: usize)
        ensures
            r == file_max_width(*self),
    {
        if self.nav.current_file >= self.files.len() {
            return 0;
        }
        let rows = &self.files[self.nav.current_file].rows;
        let mut m: usize = 0;
        let mut i: usize = 0;
        while i < rows.len()
            invariant
                i <= rows@.len(),
                m == max_row_width(rows@.take(i as int)),
            decreases rows.len() - i,
        {
            let l = rows[i].left.content.as_str().as_bytes().len();
            let g = rows[i].right.content.as_str().as_bytes().len();
            let w = if l >= g {
                l
            } else {
                g
            };
            proof {
                assert(rows@.take(i + 1).drop_last() == rows@.take(i as int));
                assert(rows@.take(i + 1).last() == rows@[i as int]);
            }
            if w > m {
                m = w;
            }
            i = i + 1;
        }
        assert(rows@.take(rows@.len() as int) == rows@);
        m
    }

    /// Keeps the diff cursor within a 30-row window by moving the current file's scroll.
    fn ensure_diff_cursor_visible(&mut self)
        ensures
            *final(self) == (App { nav: final(self).nav, ..*old(self) }),
            scrolled_to(
                old(self).nav,
                final(self).nav,
                spec_adjust_scroll(old(self).nav.spec_scroll() as int, old(self).diff_cursor as int, 30),
            ),
    {
        let scroll = self.nav.scroll();
        let target = adjust_scroll(scroll, self.diff_cursor, 30);
        if target != scroll {
            self.nav.set_scroll(target);
        } else {
            proof {
                if self.nav.current_file < self.nav.scroll_positions@.len() {
                    assert(self.nav.scroll_positions@.update(self.nav.current_file as int, target)
                        == self.nav.scroll_positions@);
                }
            }
        }
    }

    /// Keeps the tree cursor within the 30-line tree window.
    fn ensure_tree_visible(&mut self, _total: usize)
        ensures
            *final(self) == (App {
                tree_scroll: spec_adjust_scroll(old(self).tree_scroll as int, old(self).tree_cursor as int, 30) as usize,
                ..*old(self)
            }),
    {
        self.tree_scroll = adjust_scroll(self.tree_scroll, self.tree_cursor, 30);
    }

    /// Number of visible tree lines.
    fn tree_line_count(&self) -> (r: usize)
        requires
            self.wf(),
        ensures
            r == tree_lines(*self),
    {
        let flat = flatten_visible(self.tree_nodes.as_slice(), 0);
        proof {
            lemma_visible_len(self.tree_nodes@, 0);
        }
        flat.len()
    }

    /// Moves the focused cursor (tree line or diff row) to the position that
    /// `tree_c`/`diff_c` computes from the old cursor and the line count.
    fn move_tree_cursor(&mut self, c: usize)
        ensures
            tree_moved(*old(self), *final(self), c as int),
    {
        self.tree_cursor = c;
        self.ensure_tree_visible(0);
    }

    /// Moves the diff cursor to row `c` and keeps it visible.
    fn move_diff_cursor(&mut self, c: usize)
        ensures
            diff_moved(*old(self), *final(self), c as int),
    {
        self.diff_cursor = c;
        self.ensure_diff_cursor_visible();
    }

    /// Makes file `idx` current (when it exists), scrolls to its first hunk and
    /// puts the diff cursor there.
    fn open_file(&mut self, idx: usize)
        ensures
            opened_file(old(self).nav, final(self).nav, old(self).files@, idx as int),
            *final(self) == (App {
                nav: final(self).nav,
                diff_cursor: final(self).nav.spec_scroll(),
                ..*old(self)
            }),
    {
        let n = self.files.len();
        self.nav.go_to_file(idx, n);
        self.nav.auto_scroll_to_first_hunk(self.files.as_slice());
        self.diff_cursor = self.nav.scroll();
    }

    /// Applies a hunk jump.
    fn apply_hunk_jump(&mut self, jump: Option<HunkJump>)
        ensures
            hunk_jumped(*old(self), *final(self), jump),
    {
        match jump {
            Some(HunkJump::SameFile(row)) => {
                self.diff_cursor = row;
                self.nav.set_scroll(row);
            },
            Some(HunkJump::NextFile(idx, row)) => {
                let n = self.files.len();
                self.nav.go_to_file(idx, n);
                self.diff_cursor = row;
                self.nav.set_scroll(row);
            },
            None => {},
        }
    }

    /// Toggles the review mark of file `i` and returns the matching store update.
    fn toggle_reviewed(&mut self, i: usize) -> (r: Effect)
        requires
            old(self).wf(),
            i < old(self).files@.len(),
        ensures
            final(self).wf(),
            review_toggled(*old(self), *final(self), i, r),
    {
        broadcast use vstd::std_specs::hash::group_hash_axioms;

        let file = &self.files[i];
        if self.reviewed.contains(&i) {
            self.reviewed.remove(&i);
            match &self.diff_scope {
                Some(sc) => Effect::UnmarkReviewed { scope: sc.clone(), path: file.path.clone() },
                None => Effect::Nothing,
            }
        } else {
            self.reviewed.insert(i);
            match &self.diff_scope {
                Some(sc) => Effect::MarkReviewed {
                    scope: sc.clone(),
                    path: file.path.clone(),
                    hash: file.content_hash,
                },
                None => Effect::Nothing,
            }
        }
    }
}

/// `f` is `o` after leaving a diff: review marks, scope, mode and refresh
/// status forgotten, and back to the log unless launched on a diff.
pub open spec fn left_diff(o: App, f: App) -> bool {
    &&& f.reviewed@ == Set::<usize>::empty()
    &&& f.refresh_delta_text@.len() == 0
    &&& f.baseline_file_paths@.len() == 0
    &&& f.baseline_file_hashes@.len() == 0
    &&& f == (App {
        reviewed: f.reviewed,
        diff_scope: None,
        last_diff_mode: None,
        diff_loaded_time: None,
        initial_file_count: 0,
        diff_refreshed_time: None,
        refresh_delta_text: f.refresh_delta_text,
        baseline_file_paths: f.baseline_file_paths,
        baseline_file_hashes: f.baseline_file_hashes,
        view: if o.launched_with_args {
            o.view
        } else {
            View::Log
        },
        ..o
    })
}

/// `f` is `o` with the tree line under the cursor folded or unfolded.
pub open spec fn tree_toggled_at_cursor(o: App, f: App) -> bool {
    &&& f == (App { tree_nodes: f.tree_nodes, ..o })
    &&& o.tree_cursor < tree_lines(o) ==> toggled(o.tree_nodes@, f.tree_nodes@, o.tree_cursor as int)
    &&& o.tree_cursor >= tree_lines(o) ==> nodes_eq(o.tree_nodes@, f.tree_nodes@)
}

/// `f` is `o` after Enter in the tree: a file line opens that file (and gives
/// focus back to the diff), a directory line folds or unfolds.
pub open spec fn tree_selected(o: App, f: App) -> bool {
    if o.tree_focused && o.tree_cursor < tree_lines(o) {
        let node = visible(o.tree_nodes@, 0)[o.tree_cursor as int];
        match node.file_idx {
            Some(i) => {
                &&& opened_file(o.nav, f.nav, o.files@, i as int)
                &&& f == (App {
                    nav: f.nav,
                    diff_cursor: f.nav.spec_scroll(),
                    tree_focused: false,
                    show_tree: if o.auto_hide_tree {
                        false
                    } else {
                        o.show_tree
                    },
                    ..o
                })
            },
            None => if node.is_dir {
                tree_toggled_at_cursor(o, f)
            } else {
                f == o
            },
        }
    } else {
        f == o
    }
}

/// The state after the diff view handles `action`, and the outside work it asks for.
pub open spec fn diff_action_post(o: App, f: App, action: Action, r: Effect) -> bool {
    let fl = tree_lines(o);
    let rows = file_rows(o);
    let h = o.nav.spec_h_scroll() as int;
    match action {
        Action::Quit => left_diff(o, f) && if o.launched_with_args {
            r is Quit
        } else {
            r is Nothing
        },
        Action::ScrollDown(n) => r is Nothing && cursor_moved(
            o,
            f,
            min(o.tree_cursor + n, sat_sub(fl, 1)),
            min(o.diff_cursor + n, sat_sub(rows, 1)),
        ),
        Action::ScrollUp(n) => r is Nothing && cursor_moved(
            o,
            f,
            sat_sub(o.tree_cursor as int, n as int),
            sat_sub(o.diff_cursor as int, n as int),
        ),
        Action::ScrollToTop => r is Nothing && if o.tree_focused {
            f == (App { tree_cursor: 0, tree_scroll: 0, ..o })
        } else {
            f == (App { diff_cursor: 0, nav: f.nav, ..o }) && scrolled_to(o.nav, f.nav, 0)
        },
        Action::ScrollToBottom => r is Nothing && cursor_moved(o, f, sat_sub(fl, 1), sat_sub(rows, 1)),
        Action::HalfPageDown => r is Nothing && cursor_moved(
            o,
            f,
            min(o.tree_cursor + 15, sat_sub(fl, 1)),
            min(o.diff_cursor + 15, sat_sub(rows, 1)),
        ),
        Action::HalfPageUp => r is Nothing && cursor_moved(
            o,
            f,
            sat_sub(o.tree_cursor as int, 15),
            sat_sub(o.diff_cursor as int, 15),
        ),
        Action::ScrollLeft(n) => r is Nothing && f == (App { nav: f.nav, ..o }) && h_scrolled_to(
            o.nav,
            f.nav,
            sat_sub(h, n as int),
        ),
        Action::ScrollRight(n) => r is Nothing && f == (App { nav: f.nav, ..o }) && h_scrolled_to(
            o.nav,
            f.nav,
            h + n,
        ),
        Action::ScrollToLineStart => r is Nothing && f == (App { nav: f.nav, ..o })
            && h_scrolled_to(o.nav, f.nav, 0),
        Action::ScrollToLineEnd => r is Nothing && f == (App { nav: f.nav, ..o }) && h_scrolled_to(
            o.nav,
            f.nav,
            sat_sub(file_max_width(o), 40),
        ),
        Action::NextHunk => r is Nothing && hunk_jumped(o, f, spec_next_hunk(o.nav, o.files@)),
        Action::PrevHunk => r is Nothing && hunk_jumped(o, f, spec_prev_hunk(o.nav, o.files@)),
        Action::NextFile => r is Nothing && if o.nav.current_file + 1 < o.files@.len() {
            switched_file(o, f, o.nav.current_file + 1)
        } else {
            f == o
        },
        Action::PrevFile => r is Nothing && if o.nav.current_file > 0 {
            switched_file(o, f, o.nav.current_file - 1)
        } else {
            f == o
        },
        Action::ToggleTreeFocus => {
            let tf = !o.tree_focused;
            let shown = if tf && !o.show_tree {
                true
            } else {
                o.show_tree
            };
            r is Nothing && f == (App {
                tree_focused: tf,
                show_tree: if !tf && o.auto_hide_tree {
                    false
                } else {
                    shown
                },
                ..o
            })
        },
        Action::ToggleTree => r is Nothing && f == (App {
            show_tree: !o.show_tree,
            tree_focused: !o.show_tree,
            ..o
        }),
        Action::Select => r is Nothing && tree_selected(o, f),
        Action::ToggleCollapse => r is Nothing && if o.tree_focused {
            tree_toggled_at_cursor(o, f)
        } else {
            f == o
        },
        Action::ToggleReviewed => match review_target(o) {
            Some(i) => if i < o.files@.len() {
                review_toggled(o, f, i, r)
            } else {
                f == o && r is Nothing
            },
            None => f == o && r is Nothing,
        },
        Action::ClearAllReviews => r is ClearReviews && f.reviewed@ == Set::<usize>::empty() && f == (App {
            reviewed: f.reviewed,
            ..o
        }),
        Action::StartDiffFind => r is Nothing && f.diff_find_query@.len() == 0
            && f.diff_find_matches@.len() == 0 && f == (App {
            diff_find_active: true,
            diff_find_query: f.diff_find_query,
            diff_find_current: 0,
            diff_find_matches: f.diff_find_matches,
            ..o
        }),
        Action::RefreshDiff => f == o && match o.last_diff_mode {
            Some(m) => r matches Effect::LoadDiff { mode, context } && mode.kind() == m.kind()
                && context == o.diff_context,
            None => r is Nothing,
        },
        Action::ShowHelp => r is Nothing && f == (App { view: View::Help, previous_view: o.view, ..o }),
        _ => r is Nothing && f == o,
    }
}

impl App {
    /// Leaves the diff view: forgets review marks, scope, mode and refresh
    /// status; says whether the application should exit.
    fn leave_diff(&mut self) -> (quit: bool)
        ensures
            left_diff(*old(self), *final(self)),
            quit == old(self).launched_with_args,
    {
        self.reviewed = HashSet::new();
        self.diff_scope = None;
        self.last_diff_mode = None;
        self.diff_loaded_time = None;
        self.initial_file_count = 0;
        self.diff_refreshed_time = None;
        self.refresh_delta_text = String::new();
        self.baseline_file_paths = Vec::new();
        self.baseline_file_hashes = Vec::new();
        if self.launched_with_args {
            return true;
        }
        self.view = View::Log;
        false
    }

    /// Folds or unfolds the tree line under the cursor.
    fn toggle_at_cursor(&mut self)
        requires
            old(self).wf(),
        ensures
            final(self).wf(),
            tree_toggled_at_cursor(*old(self), *final(self)),
    {
        let ghost before = self.tree_nodes@;
        toggle_node(&mut self.tree_nodes, self.tree_cursor);
        proof {
            if self.tree_cursor < vis_count(before) {
                lemma_toggled_fits(before, self.tree_nodes@, self.tree_cursor as int, 0);
            } else {
                lemma_nodes_eq_same(before, self.tree_nodes@, 0);
            }
        }
    }

    /// Enter in the tree: opens a file line, folds or unfolds a directory line.
    fn tree_select(&mut self)
        requires
            old(self).wf(),
        ensures
            final(self).wf(),
            tree_selected(*old(self), *final(self)),
    {
        if !self.tree_focused {
            return;
        }
        let flat = flatten_visible(self.tree_nodes.as_slice(), 0);
        proof {
            lemma_visible_len(self.tree_nodes@, 0);
        }
        if self.tree_cursor < flat.len() {
            let node = &flat[self.tree_cursor];
            match node.file_idx {
                Some(file_idx) => {
                    self.open_file(file_idx);
                    self.tree_focused = false;
                    if self.auto_hide_tree {
                        self.show_tree = false;
                    }
                },
                None => {
                    if node.is_dir {
                        self.toggle_at_cursor();
                    }
                },
            }
        }
    }

    /// The file whose review mark `r` toggles.
    fn review_index(&self) -> (r: Option<usize>)
        requires
            self.wf(),
        ensures
            r == review_target(*self),
    {
        if self.tree_focused {
            let flat = flatten_visible(self.tree_nodes.as_slice(), 0);
            proof {
                lemma_visible_len(self.tree_nodes@, 0);
            }
            if self.tree_cursor < flat.len() {
                flat[self.tree_cursor].file_idx
            } else {
                None
            }
        } else {
            Some(self.nav.current_file)
        }
    }

    /// Moves to the next or previous file by `]f`/`[f`.
    fn switch_file(&mut self, forward: bool) -> (r: Effect)
        requires
            old(self).wf(),
        ensures
            final(self).wf(),
            forward ==> diff_action_post(*old(self), *final(self), Action::NextFile, r),
            !forward ==> diff_action_post(*old(self), *final(self), Action::PrevFile, r),
    {
        let moved = if forward {
            self.nav.next_file(self.files.len())
        } else {
            self.nav.prev_file()
        };
        if moved {
            self.nav.auto_scroll_to_first_hunk(self.files.as_slice());
            self.diff_cursor = self.nav.scroll();
            self.diff_find_matches = Vec::new();
            self.diff_find_current = 0;
        }
        Effect::Nothing
    }

    /// Handles an action in the diff view.
    #[verifier::spinoff_prover]
    #[verifier::rlimit(50)]
    fn handle_diff_action(&mut self, action: Action) -> (r: Effect)
        requires
            old(self).wf(),
            action_fits(*old(self), action),
        ensures
            final(self).wf(),
            diff_action_post(*old(self), *final(self), action, r),
    {
        match action {
            Action::Quit => {
                if self.leave_diff() {
                    Effect::Quit
                } else {
                    Effect::Nothing
                }
            },
            Action::ScrollDown(n) => {
                if self.tree_focused {
                    let lines = self.tree_line_count();
                    let last = if lines > 0 {
                        lines - 1
                    } else {
                        0
                    };
                    self.move_tree_cursor(min_add(self.tree_cursor, n, last));
                } else {
                    let rows = self.current_file_rows();
                    let last = if rows > 0 {
                        rows - 1
                    } else {
                        0
                    };
                    self.move_diff_cursor(min_add(self.diff_cursor, n, last));
                }
                Effect::Nothing
            },
            Action::ScrollUp(n) => {
                if self.tree_focused {
                    let c = if self.tree_cursor >= n {
                        self.tree_cursor - n
                    } else {
                        0
                    };
                    self.move_tree_cursor(c);
                } else {
                    let c = if self.diff_cursor >= n {
                        self.diff_cursor - n
                    } else {
                        0
                    };
                    self.move_diff_cursor(c);
                }
                Effect::Nothing
            },
            Action::ScrollToTop => {
                if self.tree_focused {
                    self.tree_cursor = 0;
                    self.tree_scroll = 0;
                } else {
                    self.diff_cursor = 0;
                    self.nav.set_scroll(0);
                }
                Effect::Nothing
            },
            Action::ScrollToBottom => {
                if self.tree_focused {
                    let lines = self.tree_line_count();
                    self.move_tree_cursor(
                        if lines > 0 {
                            lines - 1
                        } else {
                            0
                        },
                    );
                } else {
                    let rows = self.current_file_rows();
                    self.move_diff_cursor(
                        if rows > 0 {
                            rows - 1
                        } else {
                            0
                        },
                    );
                }
                Effect::Nothing
            },
            Action::HalfPageDown => {
                if self.tree_focused {
                    let lines = self.tree_line_count();
                    let last = if lines > 0 {
                        lines - 1
                    } else {
                        0
                    };
                    self.move_tree_cursor(min_add(self.tree_cursor, 15, last));
                } else {
                    let rows = self.current_file_rows();
                    let last = if rows > 0 {
                        rows - 1
                    } else {
                        0
                    };
                    self.move_diff_cursor(min_add(self.diff_cursor, 15, last));
                }
                Effect::Nothing
            },
            Action::HalfPageUp => {
                if self.tree_focused {
                    let c = if self.tree_cursor >= 15 {
                        self.tree_cursor - 15
                    } else {
                        0
                    };
                    self.move_tree_cursor(c);
                } else {
                    let c = if self.diff_cursor >= 15 {
                        self.diff_cursor - 15
                    } else {
                        0
                    };
                    self.move_diff_cursor(c);
                }
                Effect::Nothing
            },
            Action::ScrollLeft(n) => {
                let h = self.nav.h_scroll();
                let new_h = if h >= n {
                    h - n
                } else {
                    0
                };
                self.nav.set_h_scroll(new_h);
                Effect::Nothing
            },
            Action::ScrollRight(n) => {
                let new_h = self.nav.h_scroll() + n;
                self.nav.set_h_scroll(new_h);
                Effect::Nothing
            },
            Action::ScrollToLineStart => {
                self.nav.set_h_scroll(0);
                Effect::Nothing
            },
            Action::ScrollToLineEnd => {
                let max_len = self.current_file_max_line_len();
                let v = if max_len >= 40 {
                    max_len - 40
                } else {
                    0
                };
                self.nav.set_h_scroll(v);
                Effect::Nothing
            },
            Action::NextHunk => {
                let jump = self.nav.next_hunk(self.files.as_slice());
                self.apply_hunk_jump(jump);
                Effect::Nothing
            },
            Action::PrevHunk => {
                let jump = self.nav.prev_hunk(self.files.as_slice());
                self.apply_hunk_jump(jump);
                Effect::Nothing
            },
            Action::NextFile => self.switch_file(true),
            Action::PrevFile => self.switch_file(false),
            Action::ToggleTreeFocus => {
                self.tree_focused = !self.tree_focused;
                if self.tree_focused && !self.show_tree {
                    self.show_tree = true;
                }
                if !self.tree_focused && self.auto_hide_tree {
                    self.show_tree = false;
                }
                Effect::Nothing
            },
            Action::ToggleTree => {
                self.show_tree = !self.show_tree;
                self.tree_focused = self.show_tree;
                Effect::Nothing
            },
            Action::Select => {
                self.tree_select();
                Effect::Nothing
            },
            Action::ToggleCollapse => {
                if self.tree_focused {
                    self.toggle_at_cursor();
                }
                Effect::Nothing
            },
            Action::ToggleReviewed => {
                match self.review_index() {
                    Some(idx) => {
                        if idx < self.files.len() {
                            self.toggle_reviewed(idx)
                        } else {
                            Effect::Nothing
                        }
                    },
                    None => Effect::Nothing,
                }
            },
            Action::ClearAllReviews => {
                self.reviewed = HashSet::new();
                Effect::ClearReviews
            },
            Action::StartDiffFind => {
                self.diff_find_active = true;
                self.diff_find_query = String::new();
                self.diff_find_current = 0;
                self.diff_find_matches = Vec::new();
                Effect::Nothing
            },
            Action::RefreshDiff => {
                match &self.last_diff_mode {
                    Some(mode) => Effect::LoadDiff {
                        mode: mode.duplicate(),
                        context: crate::tree::copy_opt_string(&self.diff_context),
                    },
                    None => Effect::Nothing,
                }
            },
            Action::ShowHelp => {
                let mut v = View::Help;
                core::mem::swap(&mut self.view, &mut v);
                self.previous_view = v;
                Effect::Nothing
            },
            _ => Effect::Nothing,
        }
    }
}

/// The compare step with cursor `c` and scroll `sc`.
pub open spec fn with_cursor_scroll(st: CompareState, c: usize, sc: usize) -> CompareState {
    match st {
        CompareState::PickNew { items, .. } => CompareState::PickNew { items, cursor: c, scroll: sc },
        CompareState::PickOld { new_rev, new_label, items, .. } => CompareState::PickOld {
            new_rev,
            new_label,
            items,
            cursor: c,
            scroll: sc,
        },
    }
}

/// The cursor of a compare step.
pub open spec fn compare_cursor(st: CompareState) -> usize {
    match st {
        CompareState::PickNew { cursor, .. } => cursor,
        CompareState::PickOld { cursor, .. } => cursor,
    }
}

/// The context shown while a compared diff loads: "old -> new" in short form.
pub open spec fn compare_context(item: CompareItem, new_label: Seq<char>) -> Seq<char> {
    spec_short_context(item) + " -> "@ + spec_short_context_from_label(new_label)
}

/// The state after the compare view handles `action`, and the outside work it asks for.
pub open spec fn compare_action_post(o: App, f: App, action: Action, r: Effect) -> bool {
    match o.view {
        View::Compare(c) => {
            let items = compare_items_of(c);
            let cur = compare_cursor(c) as int;
            let last = sat_sub(items.len() as int, 1);
            match action {
                Action::Quit => r is Nothing && f == (App { view: View::Log, ..o }),
                Action::ScrollDown(n) => r is Nothing && f == (App {
                    view: View::Compare(with_compare_cursor(c, min(cur + n, last) as usize)),
                    ..o
                }),
                Action::ScrollUp(n) => r is Nothing && f == (App {
                    view: View::Compare(with_compare_cursor(c, sat_sub(cur, n as int) as usize)),
                    ..o
                }),
                Action::ScrollToTop => r is Nothing && f == (App {
                    view: View::Compare(with_cursor_scroll(c, 0, 0)),
                    ..o
                }),
                Action::ScrollToBottom => r is Nothing && f == (App {
                    view: View::Compare(
                        with_cursor_scroll(c, last as usize, sat_sub(last, 29) as usize),
                    ),
                    ..o
                }),
                Action::Select => f == (App { view: View::Log, ..o }) && if cur < items.len() {
                    match c {
                        CompareState::PickNew { .. } => r matches Effect::PickOldSide {
                            new_rev,
                            new_label,
                        } && new_rev == items[cur].rev && new_label == items[cur].label,
                        CompareState::PickOld { new_rev, new_label, .. } => is_load(
                            r,
                            spec_compare_mode(items[cur].rev@, new_rev@),
                            compare_context(items[cur], new_label@),
                        ),
                    }
                } else {
                    r is Nothing
                },
                Action::StartSearch => r is Nothing && activated(o, f),
                _ => r is Nothing && f == o,
            }
        },
        _ => r is Nothing && f == o,
    }
}

/// Commit endpoints for all of `entries`, after `k` special ones.
pub open spec fn commit_items_from(items: Seq<CompareItem>, k: int, entries: Seq<LogEntry>) -> bool {
    &&& items.len() == k + entries.len()
    &&& forall|j: int| 0 <= j < entries.len() ==> commit_item_ok(entries[j], #[trigger] items[k + j])
}

/// The new-side endpoints: the working tree and the index when they have
/// changes, then every commit of the log.
pub open spec fn new_side_items_ok(
    items: Seq<CompareItem>,
    has_unstaged: bool,
    has_staged: bool,
    entries: Seq<LogEntry>,
) -> bool {
    let k: int = (if has_unstaged {
        1int
    } else {
        0
    }) + (if has_staged {
        1int
    } else {
        0
    });
    &&& commit_items_from(items, k, entries)
    &&& has_unstaged ==> special_item_ok(items[0], "--working-tree"@, "WORKING TREE"@)
    &&& has_staged ==> special_item_ok(items[k - 1], "--staged"@, "STAGED (INDEX)"@)
}

impl App {
    /// Opens the compare flow on its first step, listing the working tree
    /// (`has_unstaged`), the index (`has_staged`) and the commits of the log.
    pub fn start_compare(&mut self, has_unstaged: bool, has_staged: bool)
        requires
            old(self).wf(),
            entries_truncatable(old(self).log_entries@),
        ensures
            final(self).wf(),
            final(self).view matches View::Compare(CompareState::PickNew { items, cursor, scroll })
                && cursor == 0 && scroll == 0 && new_side_items_ok(
                items@,
                has_unstaged,
                has_staged,
                old(self).log_entries@,
            ),
            *final(self) == (App { view: final(self).view, ..*old(self) }),
    {
        let mut items: Vec<CompareItem> = Vec::new();
        if has_unstaged {
            items.push(special_item("--working-tree", "WORKING TREE"));
        }
        if has_staged {
            items.push(special_item("--staged", "STAGED (INDEX)"));
        }
        let ghost head = items@;
        let k = items.len();
        let mut i: usize = 0;
        while i < self.log_entries.len()
            invariant
                i <= self.log_entries@.len(),
                entries_truncatable(self.log_entries@),
                items@.len() == k + i,
                k == head.len(),
                k == (if has_unstaged {
                    1int
                } else {
                    0
                }) + (if has_staged {
                    1int
                } else {
                    0
                }),
                has_unstaged ==> special_item_ok(head[0], "--working-tree"@, "WORKING TREE"@),
                has_staged ==> special_item_ok(head[k - 1], "--staged"@, "STAGED (INDEX)"@),
                forall|j: int| 0 <= j < k ==> items@[j] == head[j],
                forall|j: int| 0 <= j < i ==> commit_item_ok(self.log_entries@[j], #[trigger] items@[k + j]),
            decreases self.log_entries.len() - i,
        {
            assert(truncatable(self.log_entries@[i as int].subject@, 30));
            items.push(commit_item(&self.log_entries[i]));
            i = i + 1;
        }
        self.view = View::Compare(CompareState::PickNew { items, cursor: 0, scroll: 0 });
    }

    /// Opens the second compare step against `new_rev` (labelled `new_label`),
    /// offering the old-side endpoints built from `entries`, the commits that
    /// the log of `old_side_revspec(new_rev)` lists.
    pub fn show_old_side(&mut self, new_rev: String, new_label: String, entries: &Vec<LogEntry>)
        requires
            old(self).wf(),
            entries_truncatable(entries@),
        ensures
            final(self).wf(),
            final(self).view matches View::Compare(
                CompareState::PickOld { new_rev: nr, new_label: nl, items, cursor, scroll },
            ) && nr == new_rev && nl == new_label && cursor == 0 && scroll == 0
                && old_side_items_ok(items@, new_rev@, entries@),
            *final(self) == (App { view: final(self).view, ..*old(self) }),
    {
        let rev = new_rev.as_str();
        let items = build_old_items(rev, entries);
        assert(rev@ == new_rev@);
        self.view = View::Compare(CompareState::PickOld { new_rev, new_label, items, cursor: 0, scroll: 0 });
    }

    /// Enter on a compare step: the first step asks for the old-side list, the
    /// second asks for the diff of the two endpoints.
    fn compare_select(st: &CompareState) -> (r: Effect)
        ensures
            ({
                let items = compare_items_of(*st);
                let cur = compare_cursor(*st) as int;
                if cur < items.len() {
                    match *st {
                        CompareState::PickNew { .. } => r matches Effect::PickOldSide {
                            new_rev,
                            new_label,
                        } && new_rev == items[cur].rev && new_label == items[cur].label,
                        CompareState::PickOld { new_rev, new_label, .. } => is_load(
                            r,
                            spec_compare_mode(items[cur].rev@, new_rev@),
                            compare_context(items[cur], new_label@),
                        ),
                    }
                } else {
                    r is Nothing
                }
            }),
    {
        match st {
            CompareState::PickNew { items, cursor, .. } => {
                if *cursor < items.len() {
                    let item = &items[*cursor];
                    Effect::PickOldSide { new_rev: item.rev.clone(), new_label: item.label.clone() }
                } else {
                    Effect::Nothing
                }
            },
            CompareState::PickOld { new_rev, new_label, items, cursor, .. } => {
                if *cursor < items.len() {
                    let item = &items[*cursor];
                    let old_short = short_context(item);
                    let new_short = short_context_from_label(new_label.as_str());
                    let mut context = old_short;
                    context.append(" -> ");
                    context.append(new_short.as_str());
                    let mode = resolve_compare_mode(item.rev.as_str(), new_rev.as_str());
                    Effect::LoadDiff { mode, context: Some(context) }
                } else {
                    Effect::Nothing
                }
            },
        }
    }

    /// Handles an action in the compare view.
    #[verifier::spinoff_prover]
    #[verifier::rlimit(50)]
    fn handle_compare_action(&mut self, action: Action) -> (r: Effect)
        requires
            old(self).wf(),
        ensures
            final(self).wf(),
            compare_action_post(*old(self), *final(self), action, r),
    {
        let mut view = View::Log;
        std::mem::swap(&mut view, &mut self.view);
        let compare = match view {
            View::Compare(c) => c,
            other => {
                self.view = other;
                return Effect::Nothing;
            },
        };
        match action {
            Action::Quit => {
                self.view = View::Log;
                Effect::Nothing
            },
            Action::ScrollDown(n) => {
                let nc = match compare {
                    CompareState::PickNew { items, cursor, scroll } => {
                        let last = if items.len() > 0 {
                            items.len() - 1
                        } else {
                            0
                        };
                        let c = min_add(cursor, n, last);
                        CompareState::PickNew { items, cursor: c, scroll: adjust_scroll(scroll, c, 30) }
                    },
                    CompareState::PickOld { new_rev, new_label, items, cursor, scroll } => {
                        let last = if items.len() > 0 {
                            items.len() - 1
                        } else {
                            0
                        };
                        let c = min_add(cursor, n, last);
                        CompareState::PickOld {
                            new_rev,
                            new_label,
                            items,
                            cursor: c,
                            scroll: adjust_scroll(scroll, c, 30),
                        }
                    },
                };
                self.view = View::Compare(nc);
                Effect::Nothing
            },
            Action::ScrollUp(n) => {
                let nc = match compare {
                    CompareState::PickNew { items, cursor, scroll } => {
                        let c = if cursor >= n {
                            cursor - n
                        } else {
                            0
                        };
                        CompareState::PickNew { items, cursor: c, scroll: adjust_scroll(scroll, c, 30) }
                    },
                    CompareState::PickOld { new_rev, new_label, items, cursor, scroll } => {
                        let c = if cursor >= n {
                            cursor - n
                        } else {
                            0
                        };
                        CompareState::PickOld {
                            new_rev,
                            new_label,
                            items,
                            cursor: c,
                            scroll: adjust_scroll(scroll, c, 30),
                        }
                    },
                };
                self.view = View::Compare(nc);
                Effect::Nothing
            },
            Action::ScrollToTop => {
                let nc = match compare {
                    CompareState::PickNew { items, .. } => CompareState::PickNew {
                        items,
                        cursor: 0,
                        scroll: 0,
                    },
                    CompareState::PickOld { new_rev, new_label, items, .. } => CompareState::PickOld {
                        new_rev,
                        new_label,
                        items,
                        cursor: 0,
                        scroll: 0,
                    },
                };
                self.view = View::Compare(nc);
                Effect::Nothing
            },
            Action::ScrollToBottom => {
                let nc = match compare {
                    CompareState::PickNew { items, .. } => {
                        let last = if items.len() > 0 {
                            items.len() - 1
                        } else {
                            0
                        };
                        let sc = if last >= 29 {
                            last - 29
                        } else {
                            0
                        };
                        CompareState::PickNew { items, cursor: last, scroll: sc }
                    },
                    CompareState::PickOld { new_rev, new_label, items, .. } => {
                        let last = if items.len() > 0 {
                            items.len() - 1
                        } else {
                            0
                        };
                        let sc = if last >= 29 {
                            last - 29
                        } else {
                            0
                        };
                        CompareState::PickOld { new_rev, new_label, items, cursor: last, scroll: sc }
                    },
                };
                self.view = View::Compare(nc);
                Effect::Nothing
            },
            Action::Select => Self::compare_select(&compare),
            Action::StartSearch => {
                self.view = View::Compare(compare);
                self.activate_search();
                Effect::Nothing
            },
            _ => {
                self.view = View::Compare(compare);
                Effect::Nothing
            },
        }
    }
}

/// The find matches of `q` in `text` on row `row` that start before position `n`.
pub open spec fn side_matches_upto(text: Seq<char>, q: Seq<char>, row: int, is_left: bool, n: nat) -> Seq<
    DiffFindMatch,
>
    decreases n,
{
    if n == 0 {
        Seq::empty()
    } else {
        side_matches_upto(text, q, row, is_left, (n - 1) as nat) + if crate::text::occurs_at(
            text,
            q,
            n - 1,
        ) {
            seq![DiffFindMatch { row: row as usize, col: (n - 1) as usize, len: q.len() as usize, is_left }]
        } else {
            Seq::empty()
        }
    }
}

/// The find matches of `q` in one side's text, on row `row`, left to right.
pub open spec fn side_matches(text: Seq<char>, q: Seq<char>, row: int, is_left: bool) -> Seq<
    DiffFindMatch,
> {
    if text.len() >= q.len() {
        side_matches_upto(text, q, row, is_left, (text.len() - q.len() + 1) as nat)
    } else {
        Seq::empty()
    }
}

/// The match of `q` at position `i` of one side of row `row`.
pub open spec fn match_at(q: Seq<char>, row: int, is_left: bool, i: int) -> DiffFindMatch {
    DiffFindMatch { row: row as usize, col: i as usize, len: q.len() as usize, is_left }
}

/// `m` is one of `ms`.
pub open spec fn has_match(ms: Seq<DiffFindMatch>, m: DiffFindMatch) -> bool {
    exists|k: int| 0 <= k < ms.len() && ms[k] == m
}

/// Each position below `n` where `text` holds `q` has its match in `ms`.
pub open spec fn every_occurrence_found(
    ms: Seq<DiffFindMatch>,
    text: Seq<char>,
    q: Seq<char>,
    row: int,
    is_left: bool,
    n: int,
) -> bool {
    forall|i: int|
        0 <= i < n && #[trigger] crate::text::occurs_at(text, q, i) ==> has_match(ms, match_at(q, row, is_left, i))
}

/// `m` is the match of a position below `n` where `text` holds `q`.
pub open spec fn at_occurrence(m: DiffFindMatch, text: Seq<char>, q: Seq<char>, row: int, is_left: bool, n: int) -> bool {
    exists|i: int| 0 <= i < n && crate::text::occurs_at(text, q, i) && m == match_at(q, row, is_left, i)
}

/// Each match of `ms` is the match of a position below `n` where `text` holds `q`.
pub open spec fn only_occurrences(
    ms: Seq<DiffFindMatch>,
    text: Seq<char>,
    q: Seq<char>,
    row: int,
    is_left: bool,
    n: int,
) -> bool {
    forall|k: int| 0 <= k < ms.len() ==> at_occurrence(#[trigger] ms[k], text, q, row, is_left, n)
}

/// The columns of `ms` strictly increase.
pub open spec fn left_to_right(ms: Seq<DiffFindMatch>) -> bool {
    forall|k1: int, k2: int| 0 <= k1 < k2 < ms.len() ==> #[trigger] ms[k1].col < #[trigger] ms[k2].col
}

/// The matches below position `n`: one for each occurrence of `q` starting
/// below `n`, each at an occurrence, in increasing columns.
proof fn lemma_side_matches_upto(text: Seq<char>, q: Seq<char>, row: int, is_left: bool, n: nat)
    ensures
        every_occurrence_found(side_matches_upto(text, q, row, is_left, n), text, q, row, is_left, n as int),
        only_occurrences(side_matches_upto(text, q, row, is_left, n), text, q, row, is_left, n as int),
        n <= usize::MAX + 1 ==> left_to_right(side_matches_upto(text, q, row, is_left, n)),
    decreases n,
{
    if n > 0 {
        let m = (n - 1) as nat;
        lemma_side_matches_upto(text, q, row, is_left, m);
        let p = side_matches_upto(text, q, row, is_left, m);
        let s = side_matches_upto(text, q, row, is_left, n);
        let extra = if crate::text::occurs_at(text, q, m as int) {
            seq![match_at(q, row, is_left, m as int)]
        } else {
            Seq::<DiffFindMatch>::empty()
        };
        assert(s == p + extra);
        assert forall|i: int| 0 <= i < n && #[trigger] crate::text::occurs_at(text, q, i) implies has_match(
            s,
            match_at(q, row, is_left, i),
        ) by {
            if i < m {
                let k = choose|k: int| 0 <= k < p.len() && p[k] == match_at(q, row, is_left, i);
                assert(s[k] == p[k]);
            } else {
                assert(s[p.len() as int] == match_at(q, row, is_left, i));
            }
        }
        assert forall|k: int| 0 <= k < s.len() implies at_occurrence(#[trigger] s[k], text, q, row, is_left, n as int) by {
            if k < p.len() {
                assert(s[k] == p[k]);
                assert(at_occurrence(p[k], text, q, row, is_left, m as int));
                let i = choose|i: int|
                    0 <= i < m && crate::text::occurs_at(text, q, i) && p[k] == match_at(q, row, is_left, i);
                assert(0 <= i < n && crate::text::occurs_at(text, q, i) && s[k] == match_at(q, row, is_left, i));
            } else {
                assert(s[k] == match_at(q, row, is_left, m as int));
                assert(0 <= m < n && crate::text::occurs_at(text, q, m as int));
            }
        }
        assert forall|k1: int, k2: int|
            n <= usize::MAX + 1 && 0 <= k1 < k2 < s.len() implies #[trigger] s[k1].col < #[trigger] s[k2].col by {
            assert(s[k1] == p[k1]);
            if k2 < p.len() {
                assert(s[k2] == p[k2]);
            } else {
                assert(at_occurrence(p[k1], text, q, row, is_left, m as int));
                let i = choose|i: int|
                    0 <= i < m && crate::text::occurs_at(text, q, i) && p[k1] == match_at(q, row, is_left, i);
                assert(s[k2] == match_at(q, row, is_left, m as int));
            }
        }
    }
}

/// The matches of `q` in `text` are the matches of its occurrences.
proof fn lemma_side_matches(text: Seq<char>, q: Seq<char>, row: int, is_left: bool)
    ensures
        every_occurrence_found(side_matches(text, q, row, is_left), text, q, row, is_left, text.len() + 1int),
        only_occurrences(side_matches(text, q, row, is_left), text, q, row, is_left, text.len() + 1int),
        text.len() <= usize::MAX ==> left_to_right(side_matches(text, q, row, is_left)),
{
    let s = side_matches(text, q, row, is_left);
    if text.len() >= q.len() {
        let n = (text.len() - q.len() + 1) as nat;
        lemma_side_matches_upto(text, q, row, is_left, n);
        assert forall|i: int|
            0 <= i < text.len() + 1 && #[trigger] crate::text::occurs_at(text, q, i) implies has_match(
            s,
            match_at(q, row, is_left, i),
        ) by {
            assert(i < n);
        }
        assert forall|k: int| 0 <= k < s.len() implies at_occurrence(#[trigger] s[k], text, q, row, is_left, text.len() + 1int) by {
            assert(at_occurrence(s[k], text, q, row, is_left, n as int));
            let i = choose|i: int| 0 <= i < n && crate::text::occurs_at(text, q, i) && s[k] == match_at(q, row, is_left, i);
            assert(0 <= i < text.len() + 1);
        }
    } else {
        assert forall|i: int|
            0 <= i < text.len() + 1 && #[trigger] crate::text::occurs_at(text, q, i) implies has_match(
            s,
            match_at(q, row, is_left, i),
        ) by {}
    }
}

/// The matches of `q` on one side of a row are exactly its occurrences:
/// every position `i` where the text holds `q` (so `i + |q| <= |text|`)
/// gives a match at column `i` on that row and side, with the query's
/// length; every match is the match of such a position; and the matches go
/// left to right.
pub proof fn law_side_matches_exact(text: Seq<char>, q: Seq<char>, row: int, is_left: bool)
    requires
        text.len() <= usize::MAX,
    ensures
        every_occurrence_found(side_matches(text, q, row, is_left), text, q, row, is_left, text.len() + 1int),
        only_occurrences(side_matches(text, q, row, is_left), text, q, row, is_left, text.len() + 1int),
        left_to_right(side_matches(text, q, row, is_left)),
{
    lemma_side_matches(text, q, row, is_left);
}

/// Row `r`'s side (`is_left`: the old one) is searched: its flag is on and it
/// is not a filler.
pub open spec fn side_on(r: Row, is_left: bool, old: bool, new: bool) -> bool {
    if is_left {
        old && !r.left.is_filler
    } else {
        new && !r.right.is_filler
    }
}

/// The text searched on row `r`'s side: its content in lowercase.
pub open spec fn side_text(r: Row, is_left: bool) -> Seq<char> {
    if is_left {
        lowercase(r.left.content@)
    } else {
        lowercase(r.right.content@)
    }
}

/// Each occurrence of `q` on a searched side of a row of `rows` has its match in `ms`.
pub open spec fn rows_found(ms: Seq<DiffFindMatch>, rows: Seq<Row>, q: Seq<char>, old: bool, new: bool) -> bool {
    forall|r: int, is_left: bool, i: int|
        0 <= r < rows.len() && side_on(rows[r], is_left, old, new) && #[trigger] crate::text::occurs_at(
            side_text(rows[r], is_left),
            q,
            i,
        ) ==> has_match(ms, match_at(q, r, is_left, i))
}

/// `m` is the match of an occurrence of `q` on a searched side of a row of `rows`.
pub open spec fn row_occurrence(m: DiffFindMatch, rows: Seq<Row>, q: Seq<char>, old: bool, new: bool) -> bool {
    exists|r: int|
        0 <= r < rows.len() && side_on(rows[r], m.is_left, old, new) && at_occurrence(
            m,
            side_text(rows[r], m.is_left),
            q,
            r,
            m.is_left,
            side_text(rows[r], m.is_left).len() + 1int,
        )
}

/// The find matches of `q` in row `r` (number `row`): old side first, then
/// new side, each when searched and not a filler, in lowercase.
pub open spec fn row_find_matches(r: Row, row: int, q: Seq<char>, old: bool, new: bool) -> Seq<
    DiffFindMatch,
> {
    (if old && !r.left.is_filler {
        side_matches(lowercase(r.left.content@), q, row, true)
    } else {
        Seq::empty()
    }) + (if new && !r.right.is_filler {
        side_matches(lowercase(r.right.content@), q, row, false)
    } else {
        Seq::empty()
    })
}

/// The find matches of `q` in `rows`, row by row.
pub open spec fn find_matches(rows: Seq<Row>, q: Seq<char>, old: bool, new: bool) -> Seq<
    DiffFindMatch,
>
    decreases rows.len(),
{
    if rows.len() == 0 {
        Seq::empty()
    } else {
        find_matches(rows.drop_last(), q, old, new) + row_find_matches(
            rows.last(),
            rows.len() - 1,
            q,
            old,
            new,
        )
    }
}

/// The find matches of the lowercased query in the current file (none for an
/// empty query or no current file).
pub open spec fn spec_find_matches(a: App) -> Seq<DiffFindMatch> {
    let q = lowercase(a.diff_find_query@);
    if q.len() == 0 || a.nav.current_file >= a.files@.len() {
        Seq::empty()
    } else {
        find_matches(
            a.files@[a.nav.current_file as int].rows@,
            q,
            a.diff_find_search_old,
            a.diff_find_search_new,
        )
    }
}

/// The matches found in `rows` are exactly the occurrences of `q` on their
/// searched sides.
proof fn lemma_find_matches(rows: Seq<Row>, q: Seq<char>, old: bool, new: bool)
    ensures
        rows_found(find_matches(rows, q, old, new), rows, q, old, new),
        forall|k: int|
            0 <= k < find_matches(rows, q, old, new).len() ==> row_occurrence(
                #[trigger] find_matches(rows, q, old, new)[k],
                rows,
                q,
                old,
                new,
            ),
    decreases rows.len(),
{
    if rows.len() > 0 {
        let n = rows.len() - 1;
        let pr = rows.drop_last();
        let last = rows.last();
        lemma_find_matches(pr, q, old, new);
        lemma_side_matches(side_text(last, true), q, n, true);
        lemma_side_matches(side_text(last, false), q, n, false);
        let p = find_matches(pr, q, old, new);
        let lm = if old && !last.left.is_filler {
            side_matches(side_text(last, true), q, n, true)
        } else {
            Seq::empty()
        };
        let rm = if new && !last.right.is_filler {
            side_matches(side_text(last, false), q, n, false)
        } else {
            Seq::empty()
        };
        let s = find_matches(rows, q, old, new);
        assert(s == p + (lm + rm));
        assert forall|r: int, is_left: bool, i: int|
            0 <= r < rows.len() && side_on(rows[r], is_left, old, new) && #[trigger] crate::text::occurs_at(
                side_text(rows[r], is_left),
                q,
                i,
            ) implies has_match(s, match_at(q, r, is_left, i)) by {
            let m = match_at(q, r, is_left, i);
            if r < n {
                assert(pr[r] == rows[r]);
                assert(has_match(p, m));
                let k = choose|k: int| 0 <= k < p.len() && p[k] == m;
                assert(s[k] == p[k]);
            } else if is_left {
                assert(0 <= i < side_text(last, true).len() + 1int);
                assert(has_match(lm, m));
                let k = choose|k: int| 0 <= k < lm.len() && lm[k] == m;
                assert(s[p.len() + k] == lm[k]);
            } else {
                assert(0 <= i < side_text(last, false).len() + 1int);
                assert(has_match(rm, m));
                let k = choose|k: int| 0 <= k < rm.len() && rm[k] == m;
                assert(s[p.len() + lm.len() + k] == rm[k]);
            }
        }
        assert forall|k: int| 0 <= k < s.len() implies row_occurrence(#[trigger] s[k], rows, q, old, new) by {
            if k < p.len() {
                assert(s[k] == p[k]);
                assert(row_occurrence(p[k], pr, q, old, new));
                let r = choose|r: int|
                    0 <= r < pr.len() && side_on(pr[r], p[k].is_left, old, new) && at_occurrence(
                        p[k],
                        side_text(pr[r], p[k].is_left),
                        q,
                        r,
                        p[k].is_left,
                        side_text(pr[r], p[k].is_left).len() + 1int,
                    );
                assert(pr[r] == rows[r]);
            } else if k < p.len() + lm.len() {
                let j = k - p.len();
                assert(s[k] == lm[j]);
                assert(at_occurrence(lm[j], side_text(last, true), q, n, true, side_text(last, true).len() + 1int));
                let i = choose|i: int|
                    0 <= i < side_text(last, true).len() + 1int && crate::text::occurs_at(side_text(last, true), q, i)
                        && lm[j] == match_at(q, n, true, i);
                assert(s[k].is_left);
                assert(rows[n] == last);
            } else {
                let j = k - p.len() - lm.len();
                assert(s[k] == rm[j]);
                assert(at_occurrence(rm[j], side_text(last, false), q, n, false, side_text(last, false).len() + 1int));
                let i = choose|i: int|
                    0 <= i < side_text(last, false).len() + 1int && crate::text::occurs_at(side_text(last, false), q, i)
                        && rm[j] == match_at(q, n, false, i);
                assert(!s[k].is_left);
                assert(rows[n] == last);
            }
        }
    }
}

/// The rows of the current file.
pub open spec fn current_rows(a: App) -> Seq<Row> {
    a.files@[a.nav.current_file as int].rows@
}

/// Find in the diff lists exactly the occurrences of the lowercased query
/// in the current file: every position `i` where a searched side of row `r`
/// (in lowercase) holds the query gives a match at row `r`, column `i`, on
/// that side, with the query's length; and every match is such an
/// occurrence on a searched side of one of the file's rows.
pub proof fn law_find_matches_exact(a: App)
    requires
        lowercase(a.diff_find_query@).len() > 0,
        a.nav.current_file < a.files@.len(),
    ensures
        rows_found(
            spec_find_matches(a),
            current_rows(a),
            lowercase(a.diff_find_query@),
            a.diff_find_search_old,
            a.diff_find_search_new,
        ),
        forall|k: int|
            0 <= k < spec_find_matches(a).len() ==> row_occurrence(
                #[trigger] spec_find_matches(a)[k],
                current_rows(a),
                lowercase(a.diff_find_query@),
                a.diff_find_search_old,
                a.diff_find_search_new,
            ),
{
    lemma_find_matches(current_rows(a), lowercase(a.diff_find_query@), a.diff_find_search_old, a.diff_find_search_new);
}

/// Index of the first match at or below row `cursor`, or 0 when there is none.
pub open spec fn nearest_match(ms: Seq<DiffFindMatch>, cursor: int) -> int {
    if exists|i: int| 0 <= i < ms.len() && ms[i].row >= cursor && forall|j: int| 0 <= j < i ==> ms[j].row < cursor {
        choose|i: int| 0 <= i < ms.len() && ms[i].row >= cursor && forall|j: int| 0 <= j < i ==> ms[j].row < cursor
    } else {
        0
    }
}

/// `f` is `a` with the find matches recomputed and the cursor on the nearest one.
pub open spec fn refound(a: App, f: App) -> bool {
    let m = spec_find_matches(a);
    &&& f.diff_find_matches@ == m
    &&& if m.len() == 0 {
        f == (App { diff_find_matches: f.diff_find_matches, diff_find_current: 0, ..a })
    } else {
        let idx = nearest_match(m, a.diff_cursor as int);
        diff_moved(
            App { diff_find_matches: f.diff_find_matches, diff_find_current: idx as usize, ..a },
            f,
            m[idx].row as int,
        )
    }
}

/// `f` is `o` with the find cursor moved to match `i` and the diff cursor on its row.
pub open spec fn find_moved(o: App, f: App, i: int) -> bool {
    diff_moved(App { diff_find_current: i as usize, ..o }, f, o.diff_find_matches@[i].row as int)
}

/// Moving to the next find match and then back to the previous one returns
/// to the match it started on: the same find cursor, the diff cursor on that
/// match's row and (where the file has a scroll position) that row in view;
/// the matches stay as they were.
pub proof fn law_find_next_then_prev(a: App, b: App, c: App)
    requires
        a.diff_find_matches@.len() > 0,
        a.diff_find_current < a.diff_find_matches@.len(),
        find_moved(a, b, (a.diff_find_current + 1) % (a.diff_find_matches@.len() as int)),
        find_moved(
            b,
            c,
            (b.diff_find_current + b.diff_find_matches@.len() - 1) % (b.diff_find_matches@.len() as int),
        ),
    ensures
        c.diff_find_current == a.diff_find_current,
        c.diff_find_matches == a.diff_find_matches,
        c.diff_cursor == a.diff_find_matches@[a.diff_find_current as int].row,
        a.nav.current_file < a.nav.scroll_positions@.len() ==> c.nav.spec_scroll() <= c.diff_cursor
            < c.nav.spec_scroll() + 30,
{
    let m = a.diff_find_matches@.len() as int;
    let i = a.diff_find_current as int;
    crate::nav::lemma_wrap(i + 1, m);
    let j = (i + 1) % m;
    assert(a.diff_find_matches@.len() == a.diff_find_matches.len());
    assert(0 <= j < m <= usize::MAX);
    assert(b == (App { diff_cursor: b.diff_cursor, nav: b.nav, ..App { diff_find_current: j as usize, ..a } }));
    assert(b.diff_find_current == j);
    crate::nav::lemma_wrap(j + m - 1, m);
    assert(c.diff_find_current == i);
}

impl App {
    /// Appends the match of `q` at position `i` of `text`, if there is one.
    fn push_match_at(&mut self, text: &Vec<char>, q: &Vec<char>, row: usize, is_left: bool, i: usize)
        requires
            i + q@.len() <= text@.len(),
        ensures
            final(self).diff_find_matches@ == old(self).diff_find_matches@ + if crate::text::occurs_at(
                text@,
                q@,
                i as int,
            ) {
                seq![DiffFindMatch { row: row as usize, col: i, len: q@.len() as usize, is_left }]
            } else {
                Seq::empty()
            },
            *final(self) == (App { diff_find_matches: final(self).diff_find_matches, ..*old(self) }),
    {
        if crate::text::matches_at(text, q, i) {
            self.diff_find_matches.push(DiffFindMatch { row, col: i, len: q.len(), is_left });
        } else {
            assert(self.diff_find_matches@ == self.diff_find_matches@ + Seq::<DiffFindMatch>::empty());
        }
    }

    /// Appends the matches of `q` in `text` on row `row` to the find matches.
    fn push_side_matches(&mut self, text: &Vec<char>, q: &Vec<char>, row: usize, is_left: bool)
        ensures
            final(self).diff_find_matches@ == old(self).diff_find_matches@ + side_matches(
                text@,
                q@,
                row as int,
                is_left,
            ),
            *final(self) == (App { diff_find_matches: final(self).diff_find_matches, ..*old(self) }),
    {
        let ghost start = self.diff_find_matches@;
        if text.len() >= q.len() {
            let n = text.len() - q.len();
            let mut i: usize = 0;
            while i < n
                invariant
                    n == text@.len() - q@.len(),
                    i <= n,
                    self.diff_find_matches@ == start + side_matches_upto(text@, q@, row as int, is_left, i as nat),
                    *self == (App { diff_find_matches: self.diff_find_matches, ..*old(self) }),
                decreases n - i,
            {
                self.push_match_at(text, q, row, is_left, i);
                i = i + 1;
            }
            self.push_match_at(text, q, row, is_left, n);
        } else {
            assert(self.diff_find_matches@ == start + Seq::<DiffFindMatch>::empty());
        }
    }

    /// Recomputes the find matches of the query in the current file.
    fn update_diff_find_matches(&mut self)
        requires
            old(self).diff_find_current == 0,
        ensures
            final(self).diff_find_matches@ == spec_find_matches(*old(self)),
            *final(self) == (App { diff_find_matches: final(self).diff_find_matches, ..*old(self) }),
    {
        self.diff_find_matches = Vec::new();
        let query = to_lowercase(self.diff_find_query.as_str());
        let qc = chars_of(query.as_str());
        if qc.len() == 0 {
            return;
        }
        if self.nav.current_file >= self.files.len() {
            return;
        }
        let cur = self.nav.current_file;
        let n_rows = self.files[cur].rows.len();
        let mut r: usize = 0;
        while r < n_rows
            invariant
                cur == old(self).nav.current_file,
                cur < old(self).files@.len(),
                n_rows == old(self).files@[cur as int].rows@.len(),
                qc@ == lowercase(old(self).diff_find_query@),
                r <= n_rows,
                self.diff_find_matches@ == find_matches(
                    old(self).files@[cur as int].rows@.take(r as int),
                    qc@,
                    old(self).diff_find_search_old,
                    old(self).diff_find_search_new,
                ),
                *self == (App { diff_find_matches: self.diff_find_matches, ..*old(self) }),
            decreases n_rows - r,
        {
            let ghost rows = old(self).files@[cur as int].rows@;
            if self.diff_find_search_old && !self.files[cur].rows[r].left.is_filler {
                let t = to_lowercase(self.files[cur].rows[r].left.content.as_str());
                let tc = chars_of(t.as_str());
                self.push_side_matches(&tc, &qc, r, true);
            }
            if self.diff_find_search_new && !self.files[cur].rows[r].right.is_filler {
                let t = to_lowercase(self.files[cur].rows[r].right.content.as_str());
                let tc = chars_of(t.as_str());
                self.push_side_matches(&tc, &qc, r, false);
            }
            proof {
                assert(rows.take(r + 1).drop_last() == rows.take(r as int));
                assert(rows.take(r + 1).last() == rows[r as int]);
            }
            r = r + 1;
        }
        assert(old(self).files@[cur as int].rows@.take(n_rows as int) == old(self).files@[cur as int].rows@);
    }

    /// Moves to the next find match (wrapping) and puts the diff cursor on its row.
    pub fn next_diff_find_match(&mut self)
        requires
            old(self).wf(),
        ensures
            final(self).wf(),
            old(self).diff_find_matches@.len() == 0 ==> *final(self) == *old(self),
            old(self).diff_find_matches@.len() > 0 ==> find_moved(
                *old(self),
                *final(self),
                (old(self).diff_find_current + 1) % (old(self).diff_find_matches@.len() as int),
            ),
    {
        let n = self.diff_find_matches.len();
        if n == 0 {
            return;
        }
        self.diff_find_current = (self.diff_find_current + 1) % n;
        self.diff_cursor = self.diff_find_matches[self.diff_find_current].row;
        self.ensure_diff_cursor_visible();
    }

    /// Moves to the previous find match (wrapping) and puts the diff cursor on its row.
    pub fn prev_diff_find_match(&mut self)
        requires
            old(self).wf(),
        ensures
            final(self).wf(),
            old(self).diff_find_matches@.len() == 0 ==> *final(self) == *old(self),
            old(self).diff_find_matches@.len() > 0 ==> find_moved(
                *old(self),
                *final(self),
                (old(self).diff_find_current + old(self).diff_find_matches@.len() - 1) % (old(
                    self,
                ).diff_find_matches@.len() as int),
            ),
    {
        let n = self.diff_find_matches.len();
        if n == 0 {
            return;
        }
        proof {
            crate::nav::lemma_wrap(self.diff_find_current + n - 1, n as int);
        }
        self.diff_find_current = if self.diff_find_current == 0 {
            n - 1
        } else {
            self.diff_find_current - 1
        };
        self.diff_cursor = self.diff_find_matches[self.diff_find_current].row;
        self.ensure_diff_cursor_visible();
    }

    /// Puts the find cursor on the first match at or below the diff cursor
    /// (else the first match) and the diff cursor on its row.
    fn jump_to_nearest_diff_find(&mut self)
        ensures
            old(self).diff_find_matches@.len() == 0 ==> *final(self) == (App {
                diff_find_current: 0,
                ..*old(self)
            }),
            old(self).diff_find_matches@.len() > 0 ==> find_moved(
                *old(self),
                *final(self),
                nearest_match(old(self).diff_find_matches@, old(self).diff_cursor as int),
            ),
    {
        let n = self.diff_find_matches.len();
        if n == 0 {
            self.diff_find_current = 0;
            return;
        }
        let cursor = self.diff_cursor;
        let mut i: usize = 0;
        while i < n
            invariant
                n == self.diff_find_matches@.len(),
                i <= n,
                forall|j: int| 0 <= j < i ==> self.diff_find_matches@[j].row < cursor,
            ensures
                i <= n,
                forall|j: int| 0 <= j < i ==> self.diff_find_matches@[j].row < cursor,
                i < n ==> self.diff_find_matches@[i as int].row >= cursor,
            decreases n - i,
        {
            if self.diff_find_matches[i].row >= cursor {
                break;
            }
            i = i + 1;
        }
        let ghost ms = self.diff_find_matches@;
        let idx = if i < n {
            proof {
                let w = choose|q: int| 0 <= q < ms.len() && ms[q].row >= cursor && forall|j: int| 0 <= j < q ==> ms[j].row < cursor;
                assert(0 <= i < ms.len() && ms[i as int].row >= cursor && forall|j: int| 0 <= j < i ==> ms[j].row < cursor);
                if w < i {
                    assert(ms[w].row < cursor);
                } else if w > i {
                    assert(ms[i as int].row < cursor);
                }
                assert(nearest_match(ms, cursor as int) == i);
            }
            i
        } else {
            proof {
                assert(!exists|q: int| 0 <= q < ms.len() && ms[q].row >= cursor && forall|j: int| 0 <= j < q ==> ms[j].row < cursor);
            }
            0
        };
        self.diff_find_current = idx;
        self.diff_cursor = self.diff_find_matches[idx].row;
        self.ensure_diff_cursor_visible();
    }
}

/// `f` is `o` after moving to the next find match.
pub open spec fn next_found(o: App, f: App) -> bool {
    let n = o.diff_find_matches@.len() as int;
    &&& n == 0 ==> f == o
    &&& n > 0 ==> find_moved(o, f, (o.diff_find_current + 1) % n)
}

/// `f` is `o` after moving to the previous find match.
pub open spec fn prev_found(o: App, f: App) -> bool {
    let n = o.diff_find_matches@.len() as int;
    &&& n == 0 ==> f == o
    &&& n > 0 ==> find_moved(o, f, (o.diff_find_current + n - 1) % n)
}

/// The state after the find bar handles `key`.
pub open spec fn find_key_post(o: App, f: App, key: KeyInput) -> bool {
    let m = key.modifiers;
    let code = key.code;
    if code == KeyCode::Esc || (code == KeyCode::Char('f') && m == CONTROL) {
        &&& f.diff_find_query@.len() == 0
        &&& f.diff_find_matches@.len() == 0
        &&& f == (App {
            diff_find_active: false,
            diff_find_query: f.diff_find_query,
            diff_find_matches: f.diff_find_matches,
            diff_find_current: 0,
            ..o
        })
    } else if code == KeyCode::Enter && m == SHIFT {
        prev_found(o, f)
    } else if (code == KeyCode::Enter || code == KeyCode::Down) && m == 0 {
        next_found(o, f)
    } else if code == KeyCode::Up && m == 0 {
        prev_found(o, f)
    } else if code == KeyCode::Char('o') && m == CONTROL {
        if o.diff_find_search_old && !o.diff_find_search_new {
            f == o
        } else {
            refound(
                App { diff_find_search_old: !o.diff_find_search_old, diff_find_current: 0, ..o },
                f,
            )
        }
    } else if code == KeyCode::Char('n') && m == CONTROL {
        if o.diff_find_search_new && !o.diff_find_search_old {
            f == o
        } else {
            refound(
                App { diff_find_search_new: !o.diff_find_search_new, diff_find_current: 0, ..o },
                f,
            )
        }
    } else if code == KeyCode::Backspace {
        &&& f.diff_find_query@ == if o.diff_find_query@.len() > 0 {
            o.diff_find_query@.drop_last()
        } else {
            o.diff_find_query@
        }
        &&& refound(App { diff_find_query: f.diff_find_query, diff_find_current: 0, ..o }, f)
    } else if (m == 0 || m == SHIFT) && code is Char {
        &&& f.diff_find_query@ == o.diff_find_query@.push(code->0)
        &&& refound(App { diff_find_query: f.diff_find_query, diff_find_current: 0, ..o }, f)
    } else {
        f == o
    }
}

/// The view context that keys are resolved in.
pub open spec fn view_context(a: App) -> ViewContext {
    match a.view {
        View::Log => ViewContext::Log,
        View::Diff => if a.tree_focused {
            ViewContext::Tree
        } else {
            ViewContext::Diff
        },
        View::Compare(_) => ViewContext::Compare,
        _ => ViewContext::Diff,
    }
}

/// The state after the current view handles `action`, and the outside work it asks for.
pub open spec fn action_post(o: App, f: App, action: Action, r: Effect) -> bool {
    match o.view {
        View::Log => App::log_action_post(o, f, action, r),
        View::Diff => diff_action_post(o, f, action, r),
        View::Compare(_) => compare_action_post(o, f, action, r),
        _ => f == o && r is Nothing,
    }
}

/// The state after the search bar handles `key`, and the outside work it asks for.
pub open spec fn search_key_post(o: App, f: App, key: KeyInput, r: Effect) -> bool {
    let m = key.modifiers;
    let code = key.code;
    let n = o.search_filtered@.len() as int;
    if code == KeyCode::Esc {
        &&& r is Nothing
        &&& f.search_query@.len() == 0 && f.search_filtered@.len() == 0
        &&& f == (App {
            search_active: false,
            search_query: f.search_query,
            search_filtered: f.search_filtered,
            search_cursor: 0,
            search_scroll: 0,
            ..o
        })
    } else if code == KeyCode::Enter {
        &&& f.search_query@.len() == 0 && f.search_filtered@.len() == 0
        &&& action_post(
            App {
                search_active: false,
                search_query: f.search_query,
                search_filtered: f.search_filtered,
                search_cursor: 0,
                search_scroll: 0,
                ..o
            },
            f,
            Action::Select,
            r,
        )
    } else if code == KeyCode::Backspace {
        &&& r is Nothing
        &&& f.search_query@ == if o.search_query@.len() > 0 {
            o.search_query@.drop_last()
        } else {
            o.search_query@
        }
        &&& refiltered(App { search_query: f.search_query, ..o }, f)
    } else if (code == KeyCode::Down || code == KeyCode::Up) && (m == CONTROL || m == SHIFT || m
        == 0) {
        let target: int = if m == CONTROL {
            if code == KeyCode::Down {
                n - 1
            } else {
                0
            }
        } else {
            let d: int = if m == SHIFT {
                5
            } else {
                1
            };
            if code == KeyCode::Down {
                min(o.search_cursor + d, n - 1)
            } else {
                sat_sub(o.search_cursor as int, d)
            }
        };
        &&& r is Nothing
        &&& n == 0 ==> f == o
        &&& n > 0 ==> f == spec_search_moved(o, target as usize)
    } else if (m == 0 || m == SHIFT) && code is Char {
        &&& r is Nothing
        &&& f.search_query@ == o.search_query@.push(code->0)
        &&& refiltered(App { search_query: f.search_query, ..o }, f)
    } else {
        r is Nothing && f == o
    }
}

/// A key press that the state can take: one that selects a commit of the
/// log needs its subject cut for the label, and one that scrolls right needs
/// room to do so.
pub open spec fn key_fits(o: App, key: KeyInput) -> bool {
    if o.diff_find_active {
        true
    } else if o.search_active {
        o.view is Log && key.code == KeyCode::Enter ==> selection_cuttable(o)
    } else {
        match o.view {
            View::Help | View::Error(_) | View::Loading(_) => true,
            _ => action_fits(o, spec_handle_key(o.input_state.pending, key, view_context(o)).0),
        }
    }
}

/// The state after a key press, and the outside work it asks for: the find
/// bar and the search bar take every key while open; otherwise the key is
/// resolved to an action, which closes the help (back to the view it was
/// opened from), leaves an error, cancels a loading diff (back to the view
/// that showed before it), or goes to the current view.
pub open spec fn key_event_post(o: App, f: App, key: KeyInput, r: Effect) -> bool {
    if o.diff_find_active {
        r is Nothing && find_key_post(o, f, key)
    } else if o.search_active {
        search_key_post(o, f, key, r)
    } else {
        let (act, p) = spec_handle_key(o.input_state.pending, key, view_context(o));
        let a = App { input_state: InputState { pending: p }, ..o };
        match o.view {
            View::Help => r is Nothing && f == if act is Quit || act is ShowHelp {
                App { view: o.previous_view, previous_view: View::Log, ..a }
            } else {
                a
            },
            View::Error(_) => if act is Quit {
                if o.launched_with_args {
                    r is Quit && f == a
                } else {
                    r is Nothing && f == (App { view: View::Log, ..a })
                }
            } else {
                r is Nothing && f == a
            },
            View::Loading(_) => if act is Quit {
                if o.launched_with_args {
                    r is Quit && f == (App { loading_state: None, ..a })
                } else {
                    r is CancelLoading && f == (App {
                        view: o.previous_view,
                        previous_view: View::Log,
                        loading_state: None,
                        ..a
                    })
                }
            } else {
                r is Nothing && f == a
            },
            _ => action_post(a, f, act, r),
        }
    }
}

impl App {
    /// Handles an action in the current view.
    pub fn handle_action(&mut self, action: Action) -> (r: Effect)
        requires
            old(self).wf(),
            action_fits(*old(self), action),
        ensures
            final(self).wf(),
            action_post(*old(self), *final(self), action, r),
    {
        let which: u8 = match &self.view {
            View::Log => 0,
            View::Diff => 1,
            View::Compare(_) => 2,
            _ => 3,
        };
        if which == 0 {
            self.handle_log_action(action)
        } else if which == 1 {
            self.handle_diff_action(action)
        } else if which == 2 {
            self.handle_compare_action(action)
        } else {
            Effect::Nothing
        }
    }

    /// Edits the find query (or toggles a side) and jumps to the nearest match.
    fn refind(&mut self)
        requires
            old(self).diff_find_current == 0,
        ensures
            refound(*old(self), *final(self)),
            final(self).wf() <== old(self).wf(),
    {
        self.update_diff_find_matches();
        self.jump_to_nearest_diff_find();
        proof {
            if self.diff_find_matches@.len() > 0 {
                let m = self.diff_find_matches@;
                let idx = nearest_match(m, old(self).diff_cursor as int);
                if exists|i: int| 0 <= i < m.len() && m[i].row >= old(self).diff_cursor && forall|j: int| 0 <= j < i ==> m[j].row < old(self).diff_cursor {
                    assert(0 <= idx < m.len());
                }
            }
        }
    }

    /// Handles a key while the find bar is open.
    #[verifier::spinoff_prover]
    fn handle_diff_find_key(&mut self, key: KeyInput)
        requires
            old(self).wf(),
        ensures
            final(self).wf(),
            find_key_post(*old(self), *final(self), key),
    {
        let m = key.modifiers;
        let code = key.code;
        if code == KeyCode::Esc || (code == KeyCode::Char('f') && m == CONTROL) {
            self.diff_find_active = false;
            self.diff_find_query = String::new();
            self.diff_find_matches = Vec::new();
            self.diff_find_current = 0;
        } else if code == KeyCode::Enter && m == SHIFT {
            self.prev_diff_find_match();
        } else if (code == KeyCode::Enter || code == KeyCode::Down) && m == 0 {
            self.next_diff_find_match();
        } else if code == KeyCode::Up && m == 0 {
            self.prev_diff_find_match();
        } else if code == KeyCode::Char('o') && m == CONTROL {
            if self.diff_find_search_old && !self.diff_find_search_new {
                return;
            }
            self.diff_find_search_old = !self.diff_find_search_old;
            self.diff_find_current = 0;
            self.refind();
        } else if code == KeyCode::Char('n') && m == CONTROL {
            if self.diff_find_search_new && !self.diff_find_search_old {
                return;
            }
            self.diff_find_search_new = !self.diff_find_search_new;
            self.diff_find_current = 0;
            self.refind();
        } else if code == KeyCode::Backspace {
            self.diff_find_query.pop();
            self.diff_find_current = 0;
            self.refind();
        } else if m == 0 || m == SHIFT {
            if let KeyCode::Char(c) = code {
                self.diff_find_query.push(c);
                self.diff_find_current = 0;
                self.refind();
            }
        }
    }

    /// Handles a key while the search bar is open.
    #[verifier::spinoff_prover]
    fn handle_search_key(&mut self, key: KeyInput) -> (r: Effect)
        requires
            old(self).wf(),
            old(self).view is Log && key.code == KeyCode::Enter ==> selection_cuttable(*old(self)),
        ensures
            final(self).wf(),
            search_key_post(*old(self), *final(self), key, r),
    {
        let m = key.modifiers;
        let code = key.code;
        if code == KeyCode::Esc {
            self.deactivate_search();
            Effect::Nothing
        } else if code == KeyCode::Enter {
            self.search_confirm()
        } else if code == KeyCode::Backspace {
            self.search_query.pop();
            self.update_search_filter();
            Effect::Nothing
        } else if (code == KeyCode::Down || code == KeyCode::Up) && (m == CONTROL || m == SHIFT || m == 0) {
            self.search_key_move(key);
            Effect::Nothing
        } else if m == 0 || m == SHIFT {
            if let KeyCode::Char(c) = code {
                self.search_query.push(c);
                self.update_search_filter();
            }
            Effect::Nothing
        } else {
            Effect::Nothing
        }
    }

    /// Closes the search and selects the line under the real cursor.
    fn search_confirm(&mut self) -> (r: Effect)
        requires
            old(self).wf(),
            old(self).view is Log ==> selection_cuttable(*old(self)),
        ensures
            final(self).wf(),
            final(self).search_query@.len() == 0 && final(self).search_filtered@.len() == 0,
            action_post(
                App {
                    search_active: false,
                    search_query: final(self).search_query,
                    search_filtered: final(self).search_filtered,
                    search_cursor: 0,
                    search_scroll: 0,
                    ..*old(self)
                },
                *final(self),
                Action::Select,
                r,
            ),
    {
        self.search_active = false;
        self.search_query = String::new();
        self.search_filtered = Vec::new();
        self.search_cursor = 0;
        self.search_scroll = 0;
        self.handle_action(Action::Select)
    }

    /// Moves the search cursor by an arrow key.
    fn search_key_move(&mut self, key: KeyInput)
        requires
            old(self).wf(),
            (key.code == KeyCode::Down || key.code == KeyCode::Up) && (key.modifiers == CONTROL
                || key.modifiers == SHIFT || key.modifiers == 0),
        ensures
            final(self).wf(),
            search_key_post(*old(self), *final(self), key, Effect::Nothing),
    {
        let m = key.modifiers;
        let code = key.code;
        {
            if m == CONTROL {
                if code == KeyCode::Down {
                    let max = if self.search_filtered.len() > 0 {
                        self.search_filtered.len() - 1
                    } else {
                        0
                    };
                    self.search_move_cursor_to(max);
                } else {
                    self.search_move_cursor_to(0);
                }
            } else {
                let d: i32 = if m == SHIFT {
                    5
                } else {
                    1
                };
                if code == KeyCode::Down {
                    self.search_move_cursor(d);
                } else {
                    self.search_move_cursor(-d);
                }
            }
        }
    }

    /// Whether the commit under the log cursor, if any, can be cut for its label.
    pub fn selection_fits(&self) -> (r: bool)
        ensures
            r == selection_cuttable(*self),
    {
        if self.log_cursor < self.log_items.len() {
            match &self.log_items[self.log_cursor] {
                LogItem::Commit(e) => can_truncate(e.subject.as_str(), 20),
                _ => true,
            }
        } else {
            true
        }
    }

    /// Whether the state can take `key` (see `key_fits`).
    pub fn accepts_key(&self, key: KeyInput) -> (r: bool)
        ensures
            r == key_fits(*self, key),
    {
        if self.diff_find_active {
            return true;
        }
        let in_log = match &self.view {
            View::Log => true,
            _ => false,
        };
        if self.search_active {
            if in_log && key.code == KeyCode::Enter {
                return self.selection_fits();
            }
            return true;
        }
        let ctx = match &self.view {
            View::Help | View::Error(_) | View::Loading(_) => {
                return true;
            },
            View::Log => ViewContext::Log,
            View::Diff => if self.tree_focused {
                ViewContext::Tree
            } else {
                ViewContext::Diff
            },
            View::Compare(_) => ViewContext::Compare,
        };
        let mut probe = InputState { pending: self.input_state.pending };
        let action = probe.handle_key(key, ctx);
        match action {
            Action::ScrollRight(n) => self.nav.h_scroll() <= usize::MAX - n,
            Action::Select => !in_log || self.selection_fits(),
            _ => true,
        }
    }

    /// Resolves a key press and carries it out; returns the outside work to do.
    #[verifier::spinoff_prover]
    pub fn handle_key_event(&mut self, key: KeyInput) -> (r: Effect)
        requires
            old(self).wf(),
            key_fits(*old(self), key),
        ensures
            final(self).wf(),
            key_event_post(*old(self), *final(self), key, r),
    {
        if self.diff_find_active {
            self.handle_diff_find_key(key);
            return Effect::Nothing;
        }
        if self.search_active {
            return self.handle_search_key(key);
        }
        let ctx = match &self.view {
            View::Log => ViewContext::Log,
            View::Diff => if self.tree_focused {
                ViewContext::Tree
            } else {
                ViewContext::Diff
            },
            View::Compare(_) => ViewContext::Compare,
            _ => ViewContext::Diff,
        };
        let action = self.input_state.handle_key(key, ctx);
        let which: u8 = match &self.view {
            View::Help => 0,
            View::Error(_) => 1,
            View::Loading(_) => 2,
            _ => 3,
        };
        let quit = match action {
            Action::Quit => true,
            _ => false,
        };
        if which == 0 {
            let close = match action {
                Action::Quit | Action::ShowHelp => true,
                _ => false,
            };
            if close {
                core::mem::swap(&mut self.view, &mut self.previous_view);
                self.previous_view = View::Log;
            }
            Effect::Nothing
        } else if which == 1 {
            if quit {
                if self.launched_with_args {
                    return Effect::Quit;
                }
                self.view = View::Log;
            }
            Effect::Nothing
        } else if which == 2 {
            if quit {
                if self.cancel_loading() {
                    return Effect::Quit;
                }
                return Effect::CancelLoading;
            }
            Effect::Nothing
        } else {
            self.handle_action(action)
        }
    }

    /// Records the diff about to load: its mode, review scope and context,
    /// and shows the loading view with the context (or "Computing diff..."),
    /// keeping the view it replaces to go back to.
    pub fn start_diff_loading(&mut self, mode: DiffMode, context: Option<String>, scope: String)
        ensures
            final(self).view matches View::Loading(msg) && msg@ == match context {
                Some(c) => c@,
                None => "Computing diff..."@,
            },
            *final(self) == (App {
                view: final(self).view,
                previous_view: old(self).view,
                last_diff_mode: Some(mode),
                diff_scope: Some(scope),
                diff_context: context,
                loading_state: Some(LoadingState { tick: 0 }),
                ..*old(self)
            }),
            final(self).wf() <== old(self).wf(),
    {
        let msg = match &context {
            Some(c) => c.clone(),
            None => "Computing diff...".to_owned(),
        };
        self.last_diff_mode = Some(mode);
        self.diff_scope = Some(scope);
        self.diff_context = context;
        let mut v = View::Loading(msg);
        core::mem::swap(&mut self.view, &mut v);
        self.previous_view = v;
        self.loading_state = Some(LoadingState { tick: 0 });
    }

    /// Drops the diff in progress; says whether the application should end
    /// (it was started on a diff, so there is no view to go back to), and
    /// otherwise goes back to the view that showed before the loading.
    fn cancel_loading(&mut self) -> (quit: bool)
        ensures
            quit == old(self).launched_with_args,
            *final(self) == if quit {
                App { loading_state: None, ..*old(self) }
            } else {
                App { loading_state: None, view: old(self).previous_view, previous_view: View::Log, ..*old(self) }
            },
    {
        self.loading_state = None;
        if self.launched_with_args {
            return true;
        }
        core::mem::swap(&mut self.view, &mut self.previous_view);
        self.previous_view = View::Log;
        false
    }
}


// ---------------------------------------------------------------------------
// Receiving a diff: what changed since the last one, and the new state.
// ---------------------------------------------------------------------------

/// `p` is one of `paths` (the same path, as `Path` equality has it).
pub open spec fn in_paths(paths: Seq<String>, p: Seq<char>) -> bool {
    exists|i: int| 0 <= i < paths.len() && same_path(#[trigger] paths[i]@, p)
}

/// `p` is the path of one of `files` (the same path, as `Path` equality has it).
pub open spec fn in_files(files: Seq<DisplayFile>, p: Seq<char>) -> bool {
    exists|i: int| 0 <= i < files.len() && same_path(#[trigger] files[i].path@, p)
}

/// The hash recorded for `p`: that of its last entry with the same path.
pub open spec fn hash_of(hashes: Seq<(String, u64)>, p: Seq<char>) -> Option<u64>
    decreases hashes.len(),
{
    if hashes.len() == 0 {
        None
    } else if same_path(hashes.last().0@, p) {
        Some(hashes.last().1)
    } else {
        hash_of(hashes.drop_last(), p)
    }
}

/// Number of `files` whose path is not among `base`.
pub open spec fn count_added(files: Seq<DisplayFile>, base: Seq<String>) -> nat
    decreases files.len(),
{
    if files.len() == 0 {
        0
    } else {
        count_added(files.drop_last(), base) + if in_paths(base, files.last().path@) {
            0nat
        } else {
            1nat
        }
    }
}

/// `f` was there before with a known, different content hash.
pub open spec fn is_changed(f: DisplayFile, base: Seq<String>, hashes: Seq<(String, u64)>) -> bool {
    &&& in_paths(base, f.path@)
    &&& hash_of(hashes, f.path@) matches Some(h)
    &&& h != 0
    &&& f.content_hash != 0
    &&& h != f.content_hash
}

/// Number of `files` that changed since the baseline.
pub open spec fn count_changed(files: Seq<DisplayFile>, base: Seq<String>, hashes: Seq<(String, u64)>) -> nat
    decreases files.len(),
{
    if files.len() == 0 {
        0
    } else {
        count_changed(files.drop_last(), base, hashes) + if is_changed(files.last(), base, hashes) {
            1nat
        } else {
            0nat
        }
    }
}

/// Number of `base` paths that no file has any more.
pub open spec fn count_removed(base: Seq<String>, files: Seq<DisplayFile>) -> nat
    decreases base.len(),
{
    if base.len() == 0 {
        0
    } else {
        count_removed(base.drop_last(), files) + if in_files(files, base.last()@) {
            0nat
        } else {
            1nat
        }
    }
}

/// The parts of the refresh summary: new, removed, changed, each when nonzero.
pub open spec fn delta_parts(added: nat, removed: nat, changed: nat) -> Seq<Seq<char>> {
    (if added > 0 {
        seq!["+"@ + dec_digits(added) + " new"@]
    } else {
        Seq::empty()
    }) + (if removed > 0 {
        seq!["-"@ + dec_digits(removed) + " removed"@]
    } else {
        Seq::empty()
    }) + (if changed > 0 {
        seq![dec_digits(changed) + " changed"@]
    } else {
        Seq::empty()
    })
}

/// Parts joined with " · ".
pub open spec fn dot_join(ps: Seq<Seq<char>>) -> Seq<char>
    decreases ps.len(),
{
    if ps.len() == 0 {
        Seq::empty()
    } else if ps.len() == 1 {
        ps[0]
    } else {
        dot_join(ps.drop_last()) + " \u{00b7} "@ + ps.last()
    }
}

/// The summary of what changed between the baseline and `files`.
pub open spec fn spec_refresh_delta(base: Seq<String>, hashes: Seq<(String, u64)>, files: Seq<DisplayFile>) -> Seq<char> {
    if base.len() == 0 && files.len() > 0 {
        "? missing baseline"@
    } else {
        let ps = delta_parts(
            count_added(files, base),
            count_removed(base, files),
            count_changed(files, base, hashes),
        );
        if ps.len() == 0 {
            "no changes"@
        } else {
            dot_join(ps)
        }
    }
}

/// `p` is one of `paths`.
fn paths_contain(paths: &Vec<String>, p: &String) -> (r: bool)
    ensures
        r == in_paths(paths@, p@),
{
    let mut i: usize = 0;
    while i < paths.len()
        invariant
            i <= paths@.len(),
            forall|j: int| 0 <= j < i ==> !same_path(#[trigger] paths@[j]@, p@),
        decreases paths.len() - i,
    {
        if paths_equal(paths[i].as_str(), p.as_str()) {
            return true;
        }
        i = i + 1;
    }
    false
}

/// `p` is the path of one of `files`.
fn files_contain(files: &[DisplayFile], p: &String) -> (r: bool)
    ensures
        r == in_files(files@, p@),
{
    let mut i: usize = 0;
    while i < files.len()
        invariant
            i <= files@.len(),
            forall|j: int| 0 <= j < i ==> !same_path(#[trigger] files@[j].path@, p@),
        decreases files.len() - i,
    {
        if paths_equal(files[i].path.as_str(), p.as_str()) {
            return true;
        }
        i = i + 1;
    }
    false
}

/// The hash recorded for `p`: that of its last entry.
fn lookup_hash(hashes: &Vec<(String, u64)>, p: &String) -> (r: Option<u64>)
    ensures
        r == hash_of(hashes@, p@),
{
    let mut i: usize = hashes.len();
    assert(hashes@.take(hashes@.len() as int) == hashes@);
    while i > 0
        invariant
            i <= hashes@.len(),
            hash_of(hashes@, p@) == hash_of(hashes@.take(i as int), p@),
        decreases i,
    {
        let ghost t = hashes@.take(i as int);
        assert(t.drop_last() == hashes@.take(i - 1));
        assert(t.last() == hashes@[i - 1]);
        if paths_equal(hashes[i - 1].0.as_str(), p.as_str()) {
            return Some(hashes[i - 1].1);
        }
        i = i - 1;
    }
    None
}

/// Parts joined with " · ".
fn join_dots(parts: &Vec<String>) -> (r: String)
    ensures
        r@ == dot_join(views(parts@)),
{
    let mut r = String::new();
    let mut i: usize = 0;
    while i < parts.len()
        invariant
            i <= parts@.len(),
            r@ == dot_join(views(parts@).take(i as int)),
        decreases parts.len() - i,
    {
        let ghost before = r@;
        if i > 0 {
            r.append(" \u{00b7} ");
        }
        r.append(parts[i].as_str());
        proof {
            let t = views(parts@).take(i + 1);
            assert(t.drop_last() == views(parts@).take(i as int));
            assert(t.last() == parts@[i as int]@);
            if i == 0 {
                assert(t.len() == 1);
                assert(before == Seq::<char>::empty());
                assert(r@ == parts@[0]@);
            }
        }
        i = i + 1;
    }
    assert(views(parts@).take(parts@.len() as int) == views(parts@));
    r
}

impl App {
    /// Summarises what changed between the baseline (the files of the last
    /// diff) and `new_files`: "+N new", "-N removed" and "N changed" joined
    /// with " · ", "no changes", or "? missing baseline" when there is no
    /// baseline to compare with. Paths are compared as `Path` equality has
    /// it, component by component.
    fn compute_refresh_delta(&self, new_files: &[DisplayFile]) -> (r: String)
        ensures
            r@ == spec_refresh_delta(self.baseline_file_paths@, self.baseline_file_hashes@, new_files@),
    {
        if self.baseline_file_paths.len() == 0 && new_files.len() > 0 {
            return "? missing baseline".to_owned();
        }
        let ghost base = self.baseline_file_paths@;
        let ghost hashes = self.baseline_file_hashes@;
        let ghost fs = new_files@;
        let mut added: usize = 0;
        let mut changed: usize = 0;
        let mut i: usize = 0;
        while i < new_files.len()
            invariant
                i <= fs.len(),
                fs == new_files@,
                base == self.baseline_file_paths@,
                hashes == self.baseline_file_hashes@,
                added == count_added(fs.take(i as int), base),
                changed == count_changed(fs.take(i as int), base, hashes),
                added <= i,
                changed <= i,
            decreases new_files.len() - i,
        {
            let f = &new_files[i];
            let ghost t = fs.take(i + 1);
            assert(t.drop_last() == fs.take(i as int));
            assert(t.last() == fs[i as int]);
            if !paths_contain(&self.baseline_file_paths, &f.path) {
                added = added + 1;
            } else {
                match lookup_hash(&self.baseline_file_hashes, &f.path) {
                    Some(old_hash) => {
                        if old_hash != 0 && f.content_hash != 0 && old_hash != f.content_hash {
                            changed = changed + 1;
                        }
                    },
                    None => {},
                }
            }
            i = i + 1;
        }
        assert(fs.take(fs.len() as int) == fs);
        let mut removed: usize = 0;
        let mut j: usize = 0;
        while j < self.baseline_file_paths.len()
            invariant
                j <= base.len(),
                fs == new_files@,
                base == self.baseline_file_paths@,
                removed == count_removed(base.take(j as int), fs),
                removed <= j,
            decreases base.len() - j,
        {
            let ghost t = base.take(j + 1);
            assert(t.drop_last() == base.take(j as int));
            assert(t.last() == base[j as int]);
            if !files_contain(new_files, &self.baseline_file_paths[j]) {
                removed = removed + 1;
            }
            j = j + 1;
        }
        assert(base.take(base.len() as int) == base);
        let mut parts: Vec<String> = Vec::new();
        if added > 0 {
            let mut p = "+".to_owned();
            push_decimal(&mut p, added);
            p.append(" new");
            parts.push(p);
        }
        if removed > 0 {
            let mut p = "-".to_owned();
            push_decimal(&mut p, removed);
            p.append(" removed");
            parts.push(p);
        }
        if changed > 0 {
            let mut p = String::new();
            push_decimal(&mut p, changed);
            p.append(" changed");
            parts.push(p);
        }
        proof {
            let ps = delta_parts(added as nat, removed as nat, changed as nat);
            assert(views(parts@) =~= ps);
        }
        if parts.len() == 0 {
            return "no changes".to_owned();
        }
        join_dots(&parts)
    }
}

/// No two of `paths` are the same path.
pub open spec fn distinct_paths(paths: Seq<String>) -> bool {
    forall|a: int, b: int| 0 <= a < b < paths.len() ==> !same_path(#[trigger] paths[a]@, #[trigger] paths[b]@)
}

/// `paths` are the paths of `files`, each once.
pub open spec fn paths_of(paths: Seq<String>, files: Seq<DisplayFile>) -> bool {
    &&& distinct_paths(paths)
    &&& forall|i: int| 0 <= i < paths.len() ==> in_files(files, #[trigger] paths[i]@)
    &&& forall|j: int| 0 <= j < files.len() ==> in_paths(paths, #[trigger] files[j].path@)
}

/// `hashes` holds the path and content hash of each of `files`, in order.
pub open spec fn hashes_of(hashes: Seq<(String, u64)>, files: Seq<DisplayFile>) -> bool {
    &&& hashes.len() == files.len()
    &&& forall|i: int|
        0 <= i < files.len() ==> (#[trigger] hashes[i]).0@ == files[i].path@ && hashes[i].1
            == files[i].content_hash
}

/// The paths of `files`, each once, in order of first appearance.
fn paths_once(files: &[DisplayFile]) -> (r: Vec<String>)
    ensures
        paths_of(r@, files@),
{
    let mut r: Vec<String> = Vec::new();
    let mut i: usize = 0;
    while i < files.len()
        invariant
            i <= files@.len(),
            distinct_paths(r@),
            forall|a: int| 0 <= a < r@.len() ==> in_files(files@, #[trigger] r@[a]@),
            forall|j: int| 0 <= j < i ==> in_paths(r@, #[trigger] files@[j].path@),
        decreases files.len() - i,
    {
        let ghost before = r@;
        if !paths_contain(&r, &files[i].path) {
            r.push(files[i].path.clone());
            proof {
                assert(r@.last()@ == files@[i as int].path@);
                assert forall|j: int| 0 <= j < i + 1 implies in_paths(r@, #[trigger] files@[j].path@) by {
                    if j < i {
                        let a = choose|a: int| 0 <= a < before.len() && same_path(#[trigger] before[a]@, files@[j].path@);
                        assert(r@[a] == before[a]);
                    } else {
                        assert(r@[before.len() as int]@ == files@[j].path@);
                    }
                }
                assert forall|a: int| 0 <= a < r@.len() implies in_files(files@, #[trigger] r@[a]@) by {
                    if a < before.len() {
                        assert(r@[a] == before[a]);
                    } else {
                        assert(files@[i as int].path@ == r@[a]@);
                    }
                }
                assert forall|a: int, b: int| 0 <= a < b < r@.len() implies !same_path(#[trigger] r@[a]@, #[trigger] r@[b]@) by {
                    assert(r@[a] == before[a]);
                    if b < before.len() {
                        assert(r@[b] == before[b]);
                    } else {
                        assert(!in_paths(before, files@[i as int].path@));
                    }
                }
            }
        }
        i = i + 1;
    }
    r
}

/// The path and content hash of each of `files`, in order.
fn path_hashes(files: &[DisplayFile]) -> (r: Vec<(String, u64)>)
    ensures
        hashes_of(r@, files@),
{
    let mut r: Vec<(String, u64)> = Vec::new();
    let mut i: usize = 0;
    while i < files.len()
        invariant
            i <= files@.len(),
            r@.len() == i,
            forall|a: int|
                0 <= a < i ==> (#[trigger] r@[a]).0@ == files@[a].path@ && r@[a].1
                    == files@[a].content_hash,
        decreases files.len() - i,
    {
        r.push((files[i].path.clone(), files[i].content_hash));
        i = i + 1;
    }
    r
}

/// Number of '/' characters in `s`.
fn count_slashes(s: &str) -> (r: usize)
    ensures
        r == slashes(s@),
{
    let cs = chars_of(s);
    let mut n: usize = 0;
    let mut i: usize = 0;
    while i < cs.len()
        invariant
            i <= cs@.len(),
            cs@ == s@,
            n == slashes(cs@.take(i as int)),
            n <= i,
        decreases cs.len() - i,
    {
        assert(cs@.take(i + 1).drop_last() == cs@.take(i as int));
        assert(cs@.take(i + 1).last() == cs@[i as int]);
        if cs[i] == '/' {
            n = n + 1;
        }
        i = i + 1;
    }
    assert(cs@.take(cs@.len() as int) == cs@);
    n
}

/// Whether an earlier file of `files` has the path of file `i`.
fn seen_before(files: &[DisplayFile], i: usize) -> (r: bool)
    requires
        i < files@.len(),
    ensures
        r == path_seen(files@.take(i as int), files@[i as int].path@),
{
    let mut j: usize = 0;
    while j < i
        invariant
            j <= i < files@.len(),
            forall|q: int| 0 <= q < j ==> (#[trigger] files@[q]).path@ != files@[i as int].path@,
        decreases i - j,
    {
        if str_eq(files[j].path.as_str(), files[i].path.as_str()) {
            assert(files@.take(i as int)[j as int] == files@[j as int]);
            return true;
        }
        j = j + 1;
    }
    proof {
        if path_seen(files@.take(i as int), files@[i as int].path@) {
            let q = choose|q: int| 0 <= q < i && #[trigger] files@.take(i as int)[q].path@ == files@[i as int].path@;
            assert(files@.take(i as int)[q] == files@[q]);
        }
    }
    false
}

/// The file tree can be built from `files`: no path is too deep, and the
/// additions and the deletions of the files it shows (the first of each
/// path) each sum to at most `u32::MAX`.
pub fn tree_fits(files: &[DisplayFile]) -> (r: bool)
    ensures
        r == (paths_fit(files@) && shown_total(files@, true) <= u32::MAX && shown_total(files@, false)
            <= u32::MAX),
{
    let ghost fs = files@;
    let mut adds: u64 = 0;
    let mut dels: u64 = 0;
    let mut i: usize = 0;
    while i < files.len()
        invariant
            i <= fs.len(),
            fs == files@,
            forall|j: int| 0 <= j < i ==> slashes(#[trigger] fs[j].path@) <= crate::tree::MAX_DEPTH,
            adds == shown_total(fs.take(i as int), true),
            dels == shown_total(fs.take(i as int), false),
            adds <= u32::MAX,
            dels <= u32::MAX,
        decreases files.len() - i,
    {
        let ghost t = fs.take(i + 1);
        assert(t.drop_last() == fs.take(i as int));
        assert(t.last() == fs[i as int]);
        if count_slashes(files[i].path.as_str()) > crate::tree::MAX_DEPTH as usize {
            return false;
        }
        if !seen_before(files, i) {
            adds = adds + files[i].additions as u64;
            dels = dels + files[i].deletions as u64;
            if adds > u32::MAX as u64 || dels > u32::MAX as u64 {
                proof {
                    lemma_shown_total_prefix(fs, i + 1, true);
                    lemma_shown_total_prefix(fs, i + 1, false);
                }
                return false;
            }
        }
        i = i + 1;
    }
    assert(fs.take(fs.len() as int) == fs);
    true
}

/// The first row of the first hunk of `files[0]` becomes its scroll; every
/// other scroll position is 0.
pub open spec fn first_scrolls(files: Seq<DisplayFile>) -> Seq<usize> {
    let zeros = Seq::new(files.len(), |i: int| 0usize);
    if files.len() > 0 && files[0].hunks@.len() > 0 {
        zeros.update(0, files[0].hunks@[0].0 as usize)
    } else {
        zeros
    }
}

/// `f` is `o` after taking in the diff of `files`, at time `now`, with the
/// files marked reviewed in `reviewed`.
pub open spec fn diff_applied(o: App, f: App, files: Seq<DisplayFile>, now: String, reviewed: Seq<usize>) -> bool {
    let refresh = o.diff_loaded_time is Some;
    &&& f.view is Diff
    &&& f.files@ == files
    &&& built_from(f.tree_nodes@, files)
    &&& f.nav.current_file == 0
    &&& f.nav.scroll_positions@ == first_scrolls(files)
    &&& f.nav.h_scroll_positions@ == Seq::new(files.len(), |i: int| 0usize)
    &&& f.diff_cursor == f.nav.spec_scroll()
    &&& f.tree_scroll == 0
    &&& f.tree_cursor == 0
    &&& f.reviewed@ == reviewed.to_set()
    &&& paths_of(f.baseline_file_paths@, files)
    &&& hashes_of(f.baseline_file_hashes@, files)
    &&& if refresh {
        &&& f.refresh_delta_text@ == spec_refresh_delta(o.baseline_file_paths@, o.baseline_file_hashes@, files)
        &&& f.diff_refreshed_time == Some(now)
        &&& f.diff_loaded_time == o.diff_loaded_time
        &&& f.initial_file_count == o.initial_file_count
    } else {
        &&& f.refresh_delta_text@.len() == 0
        &&& f.diff_refreshed_time is None
        &&& f.diff_loaded_time == Some(now)
        &&& f.initial_file_count == files.len()
    }
    &&& f == App {
        view: f.view,
        files: f.files,
        nav: f.nav,
        tree_nodes: f.tree_nodes,
        tree_scroll: f.tree_scroll,
        tree_cursor: f.tree_cursor,
        diff_cursor: f.diff_cursor,
        reviewed: f.reviewed,
        refresh_delta_text: f.refresh_delta_text,
        diff_refreshed_time: f.diff_refreshed_time,
        diff_loaded_time: f.diff_loaded_time,
        initial_file_count: f.initial_file_count,
        baseline_file_paths: f.baseline_file_paths,
        baseline_file_hashes: f.baseline_file_hashes,
        ..o
    }
}

/// What the event loop's look at the background diff did.
pub open spec fn polled(o: App, f: App, poll: LoadingPoll, now: String, reviewed: Seq<usize>, redraw: bool) -> bool {
    let l = o.loading_state->0;
    let unloaded = App { loading_state: None, ..o };
    match poll {
        LoadingPoll::Received(DiffMessage::Done(p)) => redraw && diff_applied(unloaded, f, p.files@, now, reviewed),
        LoadingPoll::Received(DiffMessage::Error(e)) => redraw && f == (App { view: View::Error(e), ..unloaded }),
        LoadingPoll::Disconnected => {
            &&& redraw
            &&& f.view matches View::Error(m) && m@ == "Diff computation failed unexpectedly"@
            &&& f == (App { view: f.view, ..unloaded })
        },
        LoadingPoll::Empty => !redraw && f == (App {
            loading_state: Some(LoadingState { tick: (l.tick + 1) as usize }),
            ..o
        }),
    }
}

impl App {
    /// Takes in a computed diff: the files, their tree (rebuilt), the
    /// navigation (reset, scrolled to the first hunk of the first file), the
    /// review marks, the baseline for the next refresh and, on a refresh, the
    /// summary of what changed; then shows the diff.
    pub fn apply_diff_result(&mut self, payload: DiffPayload, now: String, reviewed: Vec<usize>)
        requires
            old(self).wf(),
            paths_fit(payload.files@),
            shown_total(payload.files@, true) <= u32::MAX,
            shown_total(payload.files@, false) <= u32::MAX,
        ensures
            final(self).wf(),
            diff_applied(*old(self), *final(self), payload.files@, now, reviewed@),
    {
        let ghost o = *self;
        let ghost files = payload.files@;
        let is_refresh = self.diff_loaded_time.is_some();
        if is_refresh {
            self.refresh_delta_text = self.compute_refresh_delta(payload.files.as_slice());
            self.diff_refreshed_time = Some(now.clone());
        }
        self.files = payload.files;
        self.nav = NavState::new(self.files.len());
        self.tree_nodes = build_tree(self.files.as_slice());
        self.tree_scroll = 0;
        self.tree_cursor = 0;
        self.nav.auto_scroll_to_first_hunk(self.files.as_slice());
        self.diff_cursor = self.nav.scroll();
        let mut marks: HashSet<usize> = HashSet::new();
        let mut k: usize = 0;
        while k < reviewed.len()
            invariant
                k <= reviewed@.len(),
                marks@ == reviewed@.take(k as int).to_set(),
            decreases reviewed.len() - k,
        {
            broadcast use vstd::std_specs::hash::group_hash_axioms;

            marks.insert(reviewed[k]);
            proof {
                assert(reviewed@.take(k + 1) == reviewed@.take(k as int).push(reviewed@[k as int]));
                reviewed@.take(k as int).lemma_push_to_set_commute(reviewed@[k as int]);
            }
            k = k + 1;
        }
        proof {
            assert(reviewed@.take(k as int) == reviewed@);
        }
        self.reviewed = marks;
        if !is_refresh {
            self.diff_loaded_time = Some(now);
            self.initial_file_count = self.files.len();
            self.diff_refreshed_time = None;
            self.refresh_delta_text = String::new();
        }
        self.baseline_file_paths = paths_once(self.files.as_slice());
        self.baseline_file_hashes = path_hashes(self.files.as_slice());
        self.view = View::Diff;
        proof {
            let n = files.len();
            assert(Seq::new(n, |i: int| 0usize).len() == n);
        }
    }

    /// Looks at what the background diff sent: takes in a finished diff, shows
    /// the error of a failed one (or of one that ended without a word), or,
    /// with nothing yet, counts one more pass of the loop. Says whether to
    /// redraw at once.
    pub fn poll_loading(&mut self, poll: LoadingPoll, now: String, reviewed: Vec<usize>) -> (redraw: bool)
        requires
            old(self).wf(),
            old(self).loading_state matches Some(l) && l.tick < usize::MAX,
            poll matches LoadingPoll::Received(DiffMessage::Done(p)) ==> paths_fit(p.files@)
                && shown_total(p.files@, true) <= u32::MAX && shown_total(p.files@, false)
                <= u32::MAX,
        ensures
            final(self).wf(),
            polled(*old(self), *final(self), poll, now, reviewed@, redraw),
    {
        let tick = match &self.loading_state {
            Some(l) => l.tick,
            None => 0,
        };
        self.loading_state = Some(LoadingState { tick: tick + 1 });
        match poll {
            LoadingPoll::Received(DiffMessage::Done(payload)) => {
                self.loading_state = None;
                self.apply_diff_result(payload, now, reviewed);
                true
            },
            LoadingPoll::Received(DiffMessage::Error(e)) => {
                self.loading_state = None;
                self.view = View::Error(e);
                true
            },
            LoadingPoll::Disconnected => {
                self.loading_state = None;
                self.view = View::Error("Diff computation failed unexpectedly".to_owned());
                true
            },
            LoadingPoll::Empty => false,
        }
    }
}

/// No two of `files` have the same path.
pub open spec fn distinct_file_paths(files: Seq<DisplayFile>) -> bool {
    forall|a: int, b: int| 0 <= a < b < files.len() ==> !same_path(#[trigger] files[a].path@, #[trigger] files[b].path@)
}

/// The hash recorded for the path of a file of the baseline is that file's.
proof fn lemma_hash_of_baseline(hashes: Seq<(String, u64)>, files: Seq<DisplayFile>, j: int)
    requires
        hashes_of(hashes, files),
        distinct_file_paths(files),
        0 <= j < files.len(),
    ensures
        hash_of(hashes, files[j].path@) == Some(files[j].content_hash),
    decreases files.len(),
{
    let n = files.len() - 1;
    assert(hashes[n].0@ == files[n].path@);
    if j < n {
        assert(!same_path(files[j].path@, files[n].path@));
        assert(hashes_of(hashes.drop_last(), files.drop_last())) by {
            assert forall|i: int| 0 <= i < files.drop_last().len() implies (#[trigger] hashes.drop_last()[i]).0@
                == files.drop_last()[i].path@ && hashes.drop_last()[i].1 == files.drop_last()[i].content_hash by {
                assert(hashes[i].0@ == files[i].path@);
            }
        }
        lemma_hash_of_baseline(hashes.drop_last(), files.drop_last(), j);
        assert(files.drop_last()[j] == files[j]);
    }
}

/// Against a baseline taken from `files`, no prefix of `files` has anything
/// new or changed, and no prefix of the baseline has anything removed.
proof fn lemma_counts_same(base: Seq<String>, hashes: Seq<(String, u64)>, files: Seq<DisplayFile>, n: int, m: int)
    requires
        paths_of(base, files),
        hashes_of(hashes, files),
        distinct_file_paths(files),
        0 <= n <= files.len(),
        0 <= m <= base.len(),
    ensures
        count_added(files.take(n), base) == 0,
        count_changed(files.take(n), base, hashes) == 0,
        count_removed(base.take(m), files) == 0,
    decreases n + m,
{
    if n > 0 {
        assert(files.take(n).drop_last() == files.take(n - 1));
        assert(files.take(n).last() == files[n - 1]);
        assert(in_paths(base, files[n - 1].path@));
        lemma_hash_of_baseline(hashes, files, n - 1);
        lemma_counts_same(base, hashes, files, n - 1, m);
    } else if m > 0 {
        assert(base.take(m).drop_last() == base.take(m - 1));
        assert(base.take(m).last() == base[m - 1]);
        assert(in_files(files, base[m - 1]@));
        lemma_counts_same(base, hashes, files, n, m - 1);
    }
}

/// A baseline taken from `files` (with distinct paths) finds no changes in `files`.
proof fn lemma_no_changes(base: Seq<String>, hashes: Seq<(String, u64)>, files: Seq<DisplayFile>)
    requires
        paths_of(base, files),
        hashes_of(hashes, files),
        distinct_file_paths(files),
    ensures
        spec_refresh_delta(base, hashes, files) == "no changes"@,
{
    lemma_counts_same(base, hashes, files, files.len() as int, base.len() as int);
    assert(files.take(files.len() as int) == files);
    assert(base.take(base.len() as int) == base);
    if files.len() > 0 {
        assert(in_paths(base, files[0].path@));
    }
    assert(delta_parts(0, 0, 0) =~= Seq::<Seq<char>>::empty());
}

/// Refreshing onto the very diff that was just taken in (files with distinct
/// paths and the same contents) reports "no changes".
pub proof fn law_refresh_same_diff(o: App, f: App, files: Seq<DisplayFile>, now: String, reviewed: Seq<usize>)
    requires
        diff_applied(o, f, files, now, reviewed),
        distinct_file_paths(files),
    ensures
        spec_refresh_delta(f.baseline_file_paths@, f.baseline_file_hashes@, files) == "no changes"@,
{
    lemma_no_changes(f.baseline_file_paths@, f.baseline_file_hashes@, files);
}

/// Marking a file reviewed and unmarking it again (or the other way round)
/// leaves the same files marked, and the two review-store effects undo each
/// other.
pub proof fn law_review_toggle_twice(a: App, b: App, c: App, i: usize, r1: Effect, r2: Effect)
    requires
        review_toggled(a, b, i, r1),
        review_toggled(b, c, i, r2),
        i < a.files@.len(),
    ensures
        c.reviewed@ == a.reviewed@,
        c == (App { reviewed: c.reviewed, ..a }),
        a.diff_scope is Some ==> (r1 is MarkReviewed && r2 is UnmarkReviewed) || (r1 is UnmarkReviewed
            && r2 is MarkReviewed),
{
    if a.reviewed@.contains(i) {
        assert(c.reviewed@ =~= a.reviewed@);
    } else {
        assert(c.reviewed@ =~= a.reviewed@);
    }
}

/// The two range forms "a..b" and "a...b" name the same two revisions, `a`
/// and `b` (HEAD for an empty side), when `a` holds no ".." and does not end
/// with '.', and `b` does not start with '.'.
pub proof fn law_range_forms_agree(a: Seq<char>, b: Seq<char>)
    requires
        forall|i: int| 0 <= i < a.len() ==> !#[trigger] dots_at(a.push('.'), i),
        b.len() == 0 || b[0] != '.',
    ensures
        spec_parse_range(a + ".."@ + b) == (or_head(a), or_head(b)),
        spec_parse_range(a + "..."@ + b) == (or_head(a), or_head(b)),
{
    reveal_strlit("..");
    reveal_strlit("...");
    let n = a.len() as int;
    let s2 = a + ".."@ + b;
    let s3 = a + "..."@ + b;
    lemma_first_dots(s2);
    lemma_first_dots(s3);
    assert forall|i: int| 0 <= i < n implies !dots_at(s2, i) && !dots_at(s3, i) by {
        assert(!dots_at(a.push('.'), i));
        assert(s2[i] == a.push('.')[i]);
        assert(s2[i + 1] == a.push('.')[i + 1]);
        assert(s3[i] == a.push('.')[i]);
        assert(s3[i + 1] == a.push('.')[i + 1]);
    }
    assert(dots_at(s2, n));
    assert(dots_at(s3, n));
    assert(first_dots(s2) == n) by {
        if first_dots(s2) < n {
            assert(dots_at(s2, first_dots(s2)));
        }
    }
    assert(first_dots(s3) == n) by {
        if first_dots(s3) < n {
            assert(dots_at(s3, first_dots(s3)));
        }
    }
    assert(s2.take(n) == a);
    assert(s3.take(n) == a);
    assert(s2.skip(n + 2) == b);
    assert(s3.skip(n + 3) == b);
    if n + 2 < s2.len() {
        assert(s2[n + 2] == b[0]);
    }
    assert(s3[n + 2] == '.');
}

} // verus!
