//! Decisions of the diff pipeline: the git arguments and content sources of
//! each diff mode, the checks on what difftastic produced, renames, and
//! which files are shown.

use vstd::prelude::*;

use vstd::string::StringExecFns;

use crate::app::{parse_git_range, spec_parse_range, DiffMode};
use crate::difft::{DifftFile, Status};
use crate::git::{after_last, extension, language_from_ext, language_of_ext, ChangedEntry};
use crate::integrity::{verified, verify};
use crate::paths::{paths_equal, same_path};
use crate::report::{file_body_read, parse_report, report_error, report_files};
use crate::text::{chars_of, dec_digits, push_decimal, starts_with_char};
use crate::types::{DisplayFile, FileStatus};

verus! {

/// A file keeps its status unless it is shown as unchanged.
pub open spec fn is_shown(f: DisplayFile) -> bool {
    f.status != FileStatus::Unchanged
}

/// The files of `files` that are shown, in order.
pub open spec fn shown_files(files: Seq<DisplayFile>) -> Seq<DisplayFile>
    decreases files.len(),
{
    if files.len() == 0 {
        Seq::empty()
    } else if is_shown(files.last()) {
        shown_files(files.drop_last()).push(files.last())
    } else {
        shown_files(files.drop_last())
    }
}

/// Drops the files whose status is unchanged, keeping the order of the others.
pub fn keep_changed(files: Vec<DisplayFile>) -> (r: Vec<DisplayFile>)
    ensures
        r@ == shown_files(files@),
{
    let ghost orig = files@;
    let mut out: Vec<DisplayFile> = Vec::new();
    for f in it: files.into_iter()
        invariant
            it.seq() == orig,
            out@ == shown_files(orig.take(it.index() as int)),
    {
        let ghost i = it.index();
        proof {
            assert(orig.take(i + 1).drop_last() == orig.take(i as int));
        }
        if f.status != FileStatus::Unchanged {
            out.push(f);
        }
    }
    assert(orig.take(orig.len() as int) == orig);
    out
}


/// The extra arguments that select the changes of `mode` for git: a range
/// "old..new", nothing, "--cached", a commit, or "--cached" and a commit.
pub open spec fn spec_diff_args(mode: DiffMode) -> Seq<Seq<char>> {
    match mode {
        DiffMode::Range(r) => seq![spec_parse_range(r@).0 + ".."@ + spec_parse_range(r@).1],
        DiffMode::Unstaged => Seq::empty(),
        DiffMode::Staged => seq!["--cached"@],
        DiffMode::WorkingTree(c) => seq![c@],
        DiffMode::StagedVsCommit(c) => seq!["--cached"@, c@],
    }
}

/// The extra git arguments of `mode`.
pub fn diff_args(mode: &DiffMode) -> (r: Vec<String>)
    ensures
        r@.map_values(|a: String| a@) == spec_diff_args(*mode),
{
    let mut r: Vec<String> = Vec::new();
    match mode {
        DiffMode::Range(range) => {
            let (o, n) = parse_git_range(range.as_str());
            let mut a = o;
            a.append("..");
            a.append(n.as_str());
            r.push(a);
        },
        DiffMode::Unstaged => {},
        DiffMode::Staged => {
            r.push("--cached".to_owned());
        },
        DiffMode::WorkingTree(commit) => {
            r.push(commit.clone());
        },
        DiffMode::StagedVsCommit(commit) => {
            r.push("--cached".to_owned());
            r.push(commit.clone());
        },
    }
    assert(r@.map_values(|a: String| a@) =~= spec_diff_args(*mode));
    r
}

/// Where one side of a diff is read from.
pub enum FetchMethod {
    /// The file at a revision.
    FromRef(String),
    /// The file in the index.
    FromIndex,
    /// The file in the working tree.
    FromWorkingTree,
}

/// `m` reads the file at revision `rev`.
pub open spec fn reads_ref(m: FetchMethod, rev: Seq<char>) -> bool {
    m matches FetchMethod::FromRef(x) && x@ == rev
}

/// Where the old and new sides of a diff in `mode` are read from.
pub open spec fn fetches_for(mode: DiffMode, r: (FetchMethod, FetchMethod)) -> bool {
    match mode {
        DiffMode::Range(range) => reads_ref(r.0, spec_parse_range(range@).0) && reads_ref(
            r.1,
            spec_parse_range(range@).1,
        ),
        DiffMode::Unstaged => r.0 is FromIndex && r.1 is FromWorkingTree,
        DiffMode::Staged => reads_ref(r.0, "HEAD"@) && r.1 is FromIndex,
        DiffMode::WorkingTree(c) => reads_ref(r.0, c@) && r.1 is FromWorkingTree,
        DiffMode::StagedVsCommit(c) => reads_ref(r.0, c@) && r.1 is FromIndex,
    }
}

/// Where the old and the new side of a diff in `mode` are read from.
pub fn fetch_methods(mode: &DiffMode) -> (r: (FetchMethod, FetchMethod))
    ensures
        fetches_for(*mode, r),
{
    match mode {
        DiffMode::Range(range) => {
            let (o, n) = parse_git_range(range.as_str());
            (FetchMethod::FromRef(o), FetchMethod::FromRef(n))
        },
        DiffMode::Unstaged => (FetchMethod::FromIndex, FetchMethod::FromWorkingTree),
        DiffMode::Staged => (FetchMethod::FromRef("HEAD".to_owned()), FetchMethod::FromIndex),
        DiffMode::WorkingTree(commit) => (FetchMethod::FromRef(commit.clone()), FetchMethod::FromWorkingTree),
        DiffMode::StagedVsCommit(commit) => (FetchMethod::FromRef(commit.clone()), FetchMethod::FromIndex),
    }
}

/// How the lines of both sides of a file are read, per diff mode.
pub enum ContentFetcher {
    Range(String, String),
    Unstaged,
    Staged,
    WorkingTree(String),
    StagedVsCommit(String),
}

impl ContentFetcher {
    /// The fetcher of `mode`; a range is split into its two revisions.
    pub fn new(mode: &DiffMode) -> (r: ContentFetcher)
        ensures
            match *mode {
                DiffMode::Range(range) => r matches ContentFetcher::Range(o, n) && (o@, n@)
                    == spec_parse_range(range@),
                DiffMode::Unstaged => r is Unstaged,
                DiffMode::Staged => r is Staged,
                DiffMode::WorkingTree(c) => r matches ContentFetcher::WorkingTree(x) && x@ == c@,
                DiffMode::StagedVsCommit(c) => r matches ContentFetcher::StagedVsCommit(x) && x@ == c@,
            },
    {
        match mode {
            DiffMode::Range(range) => {
                let (o, n) = parse_git_range(range.as_str());
                ContentFetcher::Range(o, n)
            },
            DiffMode::Unstaged => ContentFetcher::Unstaged,
            DiffMode::Staged => ContentFetcher::Staged,
            DiffMode::WorkingTree(commit) => ContentFetcher::WorkingTree(commit.clone()),
            DiffMode::StagedVsCommit(commit) => ContentFetcher::StagedVsCommit(commit.clone()),
        }
    }

    /// Where this fetcher reads the old and the new lines from: a range reads
    /// both revisions, the others read as the diff mode they stand for.
    pub fn sources(&self) -> (r: (FetchMethod, FetchMethod))
        ensures
            match *self {
                ContentFetcher::Range(o, n) => reads_ref(r.0, o@) && reads_ref(r.1, n@),
                ContentFetcher::Unstaged => r.0 is FromIndex && r.1 is FromWorkingTree,
                ContentFetcher::Staged => reads_ref(r.0, "HEAD"@) && r.1 is FromIndex,
                ContentFetcher::WorkingTree(c) => reads_ref(r.0, c@) && r.1 is FromWorkingTree,
                ContentFetcher::StagedVsCommit(c) => reads_ref(r.0, c@) && r.1 is FromIndex,
            },
    {
        match self {
            ContentFetcher::Range(o, n) => (FetchMethod::FromRef(o.clone()), FetchMethod::FromRef(n.clone())),
            ContentFetcher::Unstaged => (FetchMethod::FromIndex, FetchMethod::FromWorkingTree),
            ContentFetcher::Staged => (FetchMethod::FromRef("HEAD".to_owned()), FetchMethod::FromIndex),
            ContentFetcher::WorkingTree(c) => (FetchMethod::FromRef(c.clone()), FetchMethod::FromWorkingTree),
            ContentFetcher::StagedVsCommit(c) => (FetchMethod::FromRef(c.clone()), FetchMethod::FromIndex),
        }
    }
}

/// Which sides of a changed file need reading: an added file ("A...") has no
/// old side, a deleted one ("D...") no new side.
pub fn sides_to_fetch(status: &str) -> (r: (bool, bool))
    ensures
        r.0 == !(status@.len() > 0 && status@[0] == 'A'),
        r.1 == !(status@.len() > 0 && status@[0] == 'D'),
{
    (!starts_with_char(status, 'A'), !starts_with_char(status, 'D'))
}

/// difftastic ran well: it exits with 0, or 1 when the files differ.
pub fn difft_exit_ok(code: i32) -> (r: bool)
    ensures
        r == (code == 0 || code == 1),
{
    code == 0 || code == 1
}

/// The entries to check the diff against: each changed path with its status,
/// the path standing for both its old and new name.
pub open spec fn expected_of(changed: Seq<(String, String)>) -> Seq<ChangedEntry> {
    changed.map_values(|c: (String, String)| ChangedEntry { status: c.1, old_path: c.0, new_path: c.0 })
}

/// Runs the post-diff checks on the files difftastic produced, against the
/// changed paths and statuses that git reported (see `integrity::verify`).
pub fn check_diff_files(changed: &Vec<(String, String)>, files: &[DifftFile]) -> (r: Result<(), String>)
    ensures
        verified(expected_of(changed@), files@, r),
{
    let mut expected: Vec<ChangedEntry> = Vec::new();
    let mut i: usize = 0;
    while i < changed.len()
        invariant
            i <= changed@.len(),
            expected@ == expected_of(changed@).take(i as int),
        decreases changed.len() - i,
    {
        let (path, status) = &changed[i];
        expected.push(ChangedEntry { status: status.clone(), old_path: path.clone(), new_path: path.clone() });
        assert(expected_of(changed@).take(i + 1) == expected_of(changed@).take(i as int).push(
            expected_of(changed@)[i as int],
        ));
        i = i + 1;
    }
    assert(expected_of(changed@).take(changed@.len() as int) == expected_of(changed@));
    verify(expected.as_slice(), files)
}

/// The untracked files belong to the diff: the new side is the working tree.
pub fn includes_untracked(mode: &DiffMode) -> (r: bool)
    ensures
        r == (*mode is Unstaged || *mode is WorkingTree),
{
    match mode {
        DiffMode::Unstaged | DiffMode::WorkingTree(_) => true,
        _ => false,
    }
}

/// The old path recorded for `path` by the renames (new path, old path, in
/// the order git listed them): that of the last entry for the same path, as
/// a map filled in that order keeps it.
pub open spec fn rename_of(renames: Seq<(String, String)>, path: Seq<char>) -> Option<String>
    decreases renames.len(),
{
    if renames.len() == 0 {
        None
    } else if same_path(renames.last().0@, path) {
        Some(renames.last().1)
    } else {
        rename_of(renames.drop_last(), path)
    }
}

/// A later entry of `renames` is for the same new path as entry `i`, and replaces it.
pub open spec fn superseded(renames: Seq<(String, String)>, i: int) -> bool {
    exists|j: int| i < j < renames.len() && same_path(#[trigger] renames[j].0@, renames[i].0@)
}

/// `path` is the old path of a rename that stands (one no later entry replaces).
pub open spec fn is_old_path(renames: Seq<(String, String)>, path: Seq<char>) -> bool {
    exists|i: int| 0 <= i < renames.len() && !superseded(renames, i) && same_path(#[trigger] renames[i].1@, path)
}

/// `f` after its rename, if it was renamed: it moved from the old path and is created.
pub open spec fn renamed(f: DisplayFile, renames: Seq<(String, String)>) -> DisplayFile {
    match rename_of(renames, f.path@) {
        Some(o) => DisplayFile { moved_from: Some(o), status: FileStatus::Created, ..f },
        None => f,
    }
}

/// The files after the renames: renamed files move from their old path and
/// are created; a deleted file at the old path of a rename is dropped.
pub open spec fn files_after_renames(files: Seq<DisplayFile>, renames: Seq<(String, String)>) -> Seq<DisplayFile>
    decreases files.len(),
{
    if files.len() == 0 {
        Seq::empty()
    } else {
        let g = renamed(files.last(), renames);
        let prev = files_after_renames(files.drop_last(), renames);
        if g.status == FileStatus::Deleted && is_old_path(renames, g.path@) {
            prev
        } else {
            prev.push(g)
        }
    }
}

/// The old path recorded for `path`: that of the last entry for the same path.
fn find_rename(renames: &Vec<(String, String)>, path: &String) -> (r: Option<String>)
    ensures
        r == rename_of(renames@, path@),
{
    let mut i: usize = renames.len();
    assert(renames@.take(renames@.len() as int) == renames@);
    while i > 0
        invariant
            i <= renames@.len(),
            rename_of(renames@, path@) == rename_of(renames@.take(i as int), path@),
        decreases i,
    {
        let ghost t = renames@.take(i as int);
        assert(t.drop_last() == renames@.take(i - 1));
        assert(t.last() == renames@[i - 1]);
        if paths_equal(renames[i - 1].0.as_str(), path.as_str()) {
            return Some(renames[i - 1].1.clone());
        }
        i = i - 1;
    }
    None
}

/// Whether a later entry replaces entry `i`.
fn is_superseded(renames: &Vec<(String, String)>, i: usize) -> (r: bool)
    requires
        i < renames@.len(),
    ensures
        r == superseded(renames@, i as int),
{
    let n = renames.len();
    let mut j: usize = i + 1;
    while j < n
        invariant
            i < j <= renames@.len(),
            n == renames@.len(),
            forall|q: int| i < q < j ==> !same_path(#[trigger] renames@[q].0@, renames@[i as int].0@),
        decreases renames.len() - j,
    {
        if paths_equal(renames[j].0.as_str(), renames[i].0.as_str()) {
            return true;
        }
        j = j + 1;
    }
    false
}

/// `path` is the old path of a rename that stands.
fn old_path_listed(renames: &Vec<(String, String)>, path: &String) -> (r: bool)
    ensures
        r == is_old_path(renames@, path@),
{
    let mut i: usize = 0;
    while i < renames.len()
        invariant
            i <= renames@.len(),
            forall|j: int|
                0 <= j < i ==> superseded(renames@, j) || !same_path(#[trigger] renames@[j].1@, path@),
        decreases renames.len() - i,
    {
        if paths_equal(renames[i].1.as_str(), path.as_str()) && !is_superseded(renames, i) {
            return true;
        }
        i = i + 1;
    }
    false
}

/// Applies the renames git detected (each a new path with its old path, in
/// the order git listed them): a renamed file moves from its old path and is
/// shown as created, and a deleted file at the old path of a rename is
/// dropped. Paths are compared as `Path` equality has it, and a later entry
/// for the same new path replaces an earlier one, as in a map.
pub fn apply_renames(files: Vec<DisplayFile>, renames: &Vec<(String, String)>) -> (r: Vec<DisplayFile>)
    ensures
        r@ == files_after_renames(files@, renames@),
{
    let ghost orig = files@;
    let mut out: Vec<DisplayFile> = Vec::new();
    for f in it: files.into_iter()
        invariant
            it.seq() == orig,
            out@ == files_after_renames(orig.take(it.index() as int), renames@),
    {
        let ghost i = it.index();
        proof {
            assert(orig.take(i + 1).drop_last() == orig.take(i as int));
            assert(orig.take(i + 1).last() == orig[i as int]);
        }
        let mut g = f;
        match find_rename(renames, &g.path) {
            Some(old_path) => {
                g.moved_from = Some(old_path);
                g.status = FileStatus::Created;
            },
            None => {},
        }
        let drop = g.status == FileStatus::Deleted && old_path_listed(renames, &g.path);
        if !drop {
            out.push(g);
        }
    }
    assert(orig.take(orig.len() as int) == orig);
    out
}

/// The diff mode the command line asks for, if any: `--staged`, else
/// `--unstaged`, else the revision or range given.
pub fn direct_mode(staged: bool, unstaged: bool, revspec: Option<String>) -> (r: Option<DiffMode>)
    ensures
        staged ==> r == Some(DiffMode::Staged),
        !staged && unstaged ==> r == Some(DiffMode::Unstaged),
        !staged && !unstaged ==> match revspec {
            Some(s) => r == Some(DiffMode::Range(s)),
            None => r is None,
        },
{
    if staged {
        Some(DiffMode::Staged)
    } else if unstaged {
        Some(DiffMode::Unstaged)
    } else {
        match revspec {
            Some(s) => Some(DiffMode::Range(s)),
            None => None,
        }
    }
}

/// The text shown while the diff of `mode`, started from the command line, loads.
pub open spec fn spec_direct_context(mode: DiffMode) -> Seq<char> {
    match mode {
        DiffMode::Staged => "staged changes"@,
        DiffMode::Unstaged => "unstaged changes"@,
        DiffMode::Range(r) => r@,
        DiffMode::WorkingTree(c) => c@ + " vs working tree"@,
        DiffMode::StagedVsCommit(c) => c@ + " vs staged"@,
    }
}

/// The text shown while the diff of `mode`, started from the command line, loads.
pub fn direct_context(mode: &DiffMode) -> (r: String)
    ensures
        r@ == spec_direct_context(*mode),
{
    match mode {
        DiffMode::Staged => "staged changes".to_owned(),
        DiffMode::Unstaged => "unstaged changes".to_owned(),
        DiffMode::Range(r) => r.clone(),
        DiffMode::WorkingTree(c) => {
            let mut s = c.clone();
            s.append(" vs working tree");
            s
        },
        DiffMode::StagedVsCommit(c) => {
            let mut s = c.clone();
            s.append(" vs staged");
            s
        },
    }
}

/// White space as `char::is_whitespace` has it (Unicode's White_Space).
pub open spec fn is_space(c: char) -> bool {
    ('\u{9}' <= c && c <= '\u{d}') || c == ' ' || c == '\u{85}' || c == '\u{a0}' || c == '\u{1680}' || ('\u{2000}'
        <= c && c <= '\u{200a}') || c == '\u{2028}' || c == '\u{2029}' || c == '\u{202f}' || c == '\u{205f}' || c
        == '\u{3000}'
}

/// Nothing but white space.
pub open spec fn blank(s: Seq<char>) -> bool {
    forall|i: int| 0 <= i < s.len() ==> is_space(#[trigger] s[i])
}

/// Whether `c` is white space.
fn space_char(c: char) -> (r: bool)
    ensures
        r == is_space(c),
{
    ('\u{9}' <= c && c <= '\u{d}') || c == ' ' || c == '\u{85}' || c == '\u{a0}' || c == '\u{1680}' || ('\u{2000}'
        <= c && c <= '\u{200a}') || c == '\u{2028}' || c == '\u{2029}' || c == '\u{202f}' || c == '\u{205f}' || c
        == '\u{3000}'
}

/// What difftastic printed for the file at `path`: where it printed nothing
/// but white space, the file unchanged, in the language its extension names;
/// else the one file of its report, under `path`. Fails, naming `path`,
/// where the output is no report or its report has not exactly one file.
pub fn difft_output_file(json: &str, path: String) -> (r: Result<DifftFile, String>)
    ensures
        blank(json@) ==> (r matches Ok(f) && f.path@ == path@ && f.language@ == language_of_ext(
            extension(after_last(path@, '/')),
        ) && f.status == Status::Unchanged && f.aligned_lines@.len() == 0 && f.chunks@.len() == 0),
        !blank(json@) ==> match report_files(json@) {
            None => r matches Err(m) && m@ == path@ + ": JSON parse error: "@ + report_error(json@),
            Some(vs) => if vs.len() == 1 {
                r matches Ok(f) && f.path@ == path@ && file_body_read(vs[0], f)
            } else {
                r matches Err(m) && m@ == path@ + ": expected 1 file from difft, got "@ + dec_digits(vs.len())
            },
        },
{
    let cs = chars_of(json);
    let mut i: usize = 0;
    while i < cs.len() && space_char(cs[i])
        invariant
            i <= cs@.len(),
            cs@ == json@,
            forall|q: int| 0 <= q < i ==> is_space(#[trigger] cs@[q]),
        decreases cs.len() - i,
    {
        i = i + 1;
    }
    if i == cs.len() {
        let language = language_from_ext(path.as_str());
        return Ok(
            DifftFile { path, language, status: Status::Unchanged, aligned_lines: Vec::new(), chunks: Vec::new() },
        );
    }
    assert(!is_space(json@[i as int]));
    match parse_report(json) {
        Err(e) => {
            let mut m = path.clone();
            m.append(": JSON parse error: ");
            m.append(e.as_str());
            Err(m)
        },
        Ok(mut files) => {
            if files.len() != 1 {
                let mut m = path.clone();
                m.append(": expected 1 file from difft, got ");
                push_decimal(&mut m, files.len());
                Err(m)
            } else {
                let mut f = files.remove(0);
                f.path = path;
                Ok(f)
            }
        },
    }
}

} // verus!
