//! Post-diff safety checks: file counts, paths, and status consistency.

use vstd::prelude::*;
use vstd::string::StringExecFns;

use crate::difft::{DifftFile, Status};
use crate::git::ChangedEntry;
use crate::paths::{paths_equal, same_path};
use crate::text::{dec_digits, push_decimal};

verus! {

/// Message when git and the diff disagree on the number of files.
pub open spec fn count_message(git_count: nat, diff_count: nat) -> Seq<char> {
    "Integrity: git reported "@ + dec_digits(git_count) + " files but diff produced "@
        + dec_digits(diff_count)
}

/// Message when a file that git reported has no diff.
pub open spec fn missing_message(path: Seq<char>) -> Seq<char> {
    "Integrity: file "@ + path + " reported by git but missing from diff output"@
}

/// Message when git says Added and difftastic says Deleted.
pub open spec fn added_deleted_message(path: Seq<char>) -> Seq<char> {
    "Integrity: git says "@ + path + " is Added but difft says Deleted"@
}

/// Message when git says Deleted and difftastic says Created.
pub open spec fn deleted_created_message(path: Seq<char>) -> Seq<char> {
    "Integrity: git says "@ + path + " is Deleted but difft says Created"@
}

/// Some diff output file has path `path` (the same path, component by
/// component, as `Path` equality has it).
pub open spec fn has_path(actual: Seq<DifftFile>, path: Seq<char>) -> bool {
    exists|j: int| 0 <= j < actual.len() && same_path(actual[j].path@, path)
}

/// `j` is the first diff output file with path `path`.
pub open spec fn first_with_path(actual: Seq<DifftFile>, path: Seq<char>, j: int) -> bool {
    &&& 0 <= j < actual.len()
    &&& same_path(actual[j].path@, path)
    &&& forall|k: int| 0 <= k < j ==> !same_path(actual[k].path@, path)
}

/// A git status whose first letter is `c`.
pub open spec fn status_starts(status: Seq<char>, c: char) -> bool {
    status.len() > 0 && status[0] == c
}

/// Git says Added but the first diff file for that path says Deleted.
pub open spec fn added_but_deleted(e: ChangedEntry, actual: Seq<DifftFile>) -> bool {
    exists|j: int|
        first_with_path(actual, e.new_path@, j) && status_starts(e.status@, 'A')
            && actual[j].status == Status::Deleted
}

/// Git says Deleted but the first diff file for that path says Created.
pub open spec fn deleted_but_created(e: ChangedEntry, actual: Seq<DifftFile>) -> bool {
    exists|j: int|
        first_with_path(actual, e.new_path@, j) && status_starts(e.status@, 'D')
            && actual[j].status == Status::Created
}

/// The status of entry `e` contradicts the diff output.
pub open spec fn contradicts(e: ChangedEntry, actual: Seq<DifftFile>) -> bool {
    added_but_deleted(e, actual) || deleted_but_created(e, actual)
}

/// Entry `i` is the first entry whose path the diff output lacks.
pub open spec fn first_missing(expected: Seq<ChangedEntry>, actual: Seq<DifftFile>, i: int) -> bool {
    &&& 0 <= i < expected.len()
    &&& !has_path(actual, expected[i].new_path@)
    &&& forall|k: int| 0 <= k < i ==> has_path(actual, #[trigger] expected[k].new_path@)
}

/// Entry `i` is the first entry whose status contradicts the diff output.
pub open spec fn first_contradiction(
    expected: Seq<ChangedEntry>,
    actual: Seq<DifftFile>,
    i: int,
) -> bool {
    &&& 0 <= i < expected.len()
    &&& contradicts(expected[i], actual)
    &&& forall|k: int| 0 <= k < i ==> !contradicts(#[trigger] expected[k], actual)
}

/// All three checks pass.
pub open spec fn consistent(expected: Seq<ChangedEntry>, actual: Seq<DifftFile>) -> bool {
    &&& expected.len() == actual.len()
    &&& forall|i: int| 0 <= i < expected.len() ==> has_path(actual, #[trigger] expected[i].new_path@)
    &&& forall|i: int| 0 <= i < expected.len() ==> !contradicts(#[trigger] expected[i], actual)
}

/// The text of an error result (empty for `Ok`).
pub open spec fn err_text(r: Result<(), String>) -> Seq<char> {
    match r {
        Ok(_) => Seq::empty(),
        Err(m) => m@,
    }
}

/// What the checks give for `expected` and `actual`: `Ok` exactly when all
/// pass, else the message of the first failed check, for the first entry
/// that fails it.
pub open spec fn verified(expected: Seq<ChangedEntry>, actual: Seq<DifftFile>, r: Result<(), String>) -> bool {
    &&& r is Ok <==> consistent(expected, actual)
    &&& expected.len() != actual.len() ==> r is Err && err_text(r) == count_message(expected.len(), actual.len())
    &&& forall|i: int|
        expected.len() == actual.len() && #[trigger] first_missing(expected, actual, i) ==> r is Err && err_text(r)
            == missing_message(expected[i].new_path@)
    &&& forall|i: int|
        expected.len() == actual.len() && (forall|k: int|
            0 <= k < expected.len() ==> has_path(actual, #[trigger] expected[k].new_path@))
            && #[trigger] first_contradiction(expected, actual, i) ==> r is Err && err_text(r)
            == if added_but_deleted(expected[i], actual) {
            added_deleted_message(expected[i].new_path@)
        } else {
            deleted_created_message(expected[i].new_path@)
        }
}

/// Appends `t` to `s`.
fn push_text(s: &mut String, t: &str)
    ensures
        final(s)@ == old(s)@ + t@,
{
    s.append(t);
}

/// Index of the first file of `actual` with path `path`, if any, paths
/// compared component by component (`a//b`, `a/./b` and `a/b` are one path).
fn find_path(actual: &[DifftFile], path: &String) -> (r: Option<usize>)
    ensures
        r matches Some(j) ==> first_with_path(actual@, path@, j as int),
        r is None ==> !has_path(actual@, path@),
{
    let mut j: usize = 0;
    while j < actual.len()
        invariant
            j <= actual.len(),
            forall|k: int| 0 <= k < j ==> !same_path(actual@[k].path@, path@),
        decreases actual.len() - j,
    {
        if paths_equal(actual[j].path.as_str(), path.as_str()) {
            return Some(j);
        }
        j = j + 1;
    }
    None
}

/// Runs the post-diff safety checks on the files git reported (`expected`) and
/// the files the diff produced (`actual`): first the counts must agree, then
/// every reported path must have a diff, then no reported Added/Deleted status
/// may be contradicted by difftastic. The first failed check gives the error.
pub fn verify(expected: &[ChangedEntry], actual: &[DifftFile]) -> (r: Result<(), String>)
    ensures
        verified(expected@, actual@, r),
{
    if actual.len() != expected.len() {
        let mut m: String = "Integrity: git reported ".to_owned();
        push_decimal(&mut m, expected.len());
        push_text(&mut m, " files but diff produced ");
        push_decimal(&mut m, actual.len());
        return Err(m);
    }
    let mut i: usize = 0;
    while i < expected.len()
        invariant
            i <= expected.len(),
            expected.len() == actual.len(),
            forall|k: int| 0 <= k < i ==> has_path(actual@, #[trigger] expected@[k].new_path@),
        decreases expected.len() - i,
    {
        if find_path(actual, &expected[i].new_path).is_none() {
            let mut m: String = "Integrity: file ".to_owned();
            push_text(&mut m, expected[i].new_path.as_str());
            push_text(&mut m, " reported by git but missing from diff output");
            proof {
                assert forall|q: int| #[trigger] first_missing(expected@, actual@, q) implies q
                    == i by {
                    if q < i {
                        assert(has_path(actual@, expected@[q].new_path@));
                    } else if q > i {
                        assert(has_path(actual@, expected@[i as int].new_path@));
                    }
                }
            }
            return Err(m);
        }
        i = i + 1;
    }
    let mut i: usize = 0;
    while i < expected.len()
        invariant
            i <= expected.len(),
            expected.len() == actual.len(),
            forall|k: int| 0 <= k < expected.len() ==> has_path(actual@, #[trigger] expected@[k].new_path@),
            forall|k: int| 0 <= k < i ==> !contradicts(#[trigger] expected@[k], actual@),
        decreases expected.len() - i,
    {
        let e = &expected[i];
        let found = find_path(actual, &e.new_path);
        if let Some(j) = found {
            let added = crate::text::starts_with_char(e.status.as_str(), 'A');
            let deleted = crate::text::starts_with_char(e.status.as_str(), 'D');
            if added && actual[j].status == Status::Deleted {
                let mut m: String = "Integrity: git says ".to_owned();
                push_text(&mut m, e.new_path.as_str());
                push_text(&mut m, " is Added but difft says Deleted");
                proof {
                    assert(added_but_deleted(expected@[i as int], actual@));
                    assert forall|q: int| #[trigger] first_contradiction(expected@, actual@, q)
                        implies q == i by {
                        if q > i {
                            assert(contradicts(expected@[i as int], actual@));
                        }
                    }
                }
                return Err(m);
            }
            if deleted && actual[j].status == Status::Created {
                let mut m: String = "Integrity: git says ".to_owned();
                push_text(&mut m, e.new_path.as_str());
                push_text(&mut m, " is Deleted but difft says Created");
                proof {
                    assert(deleted_but_created(expected@[i as int], actual@));
                    assert(!added_but_deleted(expected@[i as int], actual@)) by {
                        if added_but_deleted(expected@[i as int], actual@) {
                            let jj = choose|jj: int|
                                first_with_path(actual@, e.new_path@, jj) && status_starts(
                                    e.status@,
                                    'A',
                                ) && actual@[jj].status == Status::Deleted;
                            assert(jj == j);
                        }
                    }
                    assert forall|q: int| #[trigger] first_contradiction(expected@, actual@, q)
                        implies q == i by {
                        if q > i {
                            assert(contradicts(expected@[i as int], actual@));
                        }
                    }
                }
                return Err(m);
            }
            proof {
                assert(!contradicts(expected@[i as int], actual@)) by {
                    if added_but_deleted(expected@[i as int], actual@) {
                        let jj = choose|jj: int|
                            first_with_path(actual@, e.new_path@, jj) && status_starts(e.status@, 'A')
                                && actual@[jj].status == Status::Deleted;
                        assert(jj == j);
                    }
                    if deleted_but_created(expected@[i as int], actual@) {
                        let jj = choose|jj: int|
                            first_with_path(actual@, e.new_path@, jj) && status_starts(e.status@, 'D')
                                && actual@[jj].status == Status::Created;
                        assert(jj == j);
                    }
                }
            }
        } else {
            proof {
                assert(has_path(actual@, expected@[i as int].new_path@));
            }
        }
        i = i + 1;
    }
    Ok(())
}

} // verus!
