//! Review marks: which files of a diff scope were reviewed, at which content.
//! Each mark is stored as a line "scope␉path␉content hash".

use std::collections::hash_map::DefaultHasher;
use std::hash::{Hash, Hasher};

use vstd::prelude::*;
use vstd::std_specs::hash::DefaultHasherAdditionalSpecFns;
use vstd::string::StringExecFns;

use crate::app::{after_field, str_eq};
use crate::git::{has_char, lemma_dec_digits_read_back, number_below, parse_u64};
use crate::text::{dec_digits, first_field, first_field_of, index_of_char, lemma_index_of_char, push_decimal_u64};
use crate::types::DisplayFile;

verus! {

/// A file marked reviewed in a scope, at a content hash.
#[derive(Debug, Clone)]
pub struct ReviewMark {
    pub scope: String,
    pub path: String,
    pub hash: u64,
}

/// `m` is the mark that the line `line` records.
pub open spec fn mark_of_line(line: Seq<char>, m: ReviewMark) -> bool {
    let rest = after_field(line, '\t');
    &&& m.scope@ == first_field(line, '\t')
    &&& m.path@ == first_field(rest, '\t')
    &&& number_below(first_field(after_field(rest, '\t'), '\t'), u64::MAX as nat + 1) == Some(m.hash as nat)
}

/// The line holds a mark: two tabs and a hash that is a number.
pub open spec fn is_mark_line(line: Seq<char>) -> bool {
    let rest = after_field(line, '\t');
    &&& has_char(line, '\t')
    &&& has_char(rest, '\t')
    &&& number_below(first_field(after_field(rest, '\t'), '\t'), u64::MAX as nat + 1) is Some
}

/// Reads a stored mark "scope␉path␉hash"; a line that holds none gives nothing.
pub fn parse_mark(line: &str) -> (r: Option<ReviewMark>)
    ensures
        r is Some <==> is_mark_line(line@),
        r matches Some(m) ==> mark_of_line(line@, m),
{
    let parts = crate::git::parse_numstat_fields(line);
    match parts {
        Some((scope, path, hash_text)) => match parse_u64(hash_text.as_str()) {
            Some(hash) => Some(ReviewMark { scope, path, hash }),
            None => None,
        },
        None => None,
    }
}

/// The line that records `m`: "scope␉path␉hash", the hash in decimal.
pub open spec fn mark_line(m: ReviewMark) -> Seq<char> {
    m.scope@ + seq!['\t'] + m.path@ + seq!['\t'] + dec_digits(m.hash as nat)
}

/// The line that records `m`, as the marks file stores it (without the line end).
pub fn format_mark(m: &ReviewMark) -> (r: String)
    ensures
        r@ == mark_line(*m),
{
    let mut s = m.scope.clone();
    s.push('\t');
    s.append(m.path.as_str());
    s.push('\t');
    push_decimal_u64(&mut s, m.hash);
    s
}

/// In `a`, then a tab, then `b`, where `a` holds no tab: the first field is
/// `a` and what follows the first tab is `b`.
proof fn lemma_split_at_tab(a: Seq<char>, b: Seq<char>)
    requires
        !has_char(a, '\t'),
    ensures
        first_field(a + seq!['\t'] + b, '\t') == a,
        after_field(a + seq!['\t'] + b, '\t') == b,
        has_char(a + seq!['\t'] + b, '\t'),
{
    let s = a + seq!['\t'] + b;
    lemma_index_of_char(a, '\t');
    lemma_index_of_char(s, '\t');
    let k = index_of_char(s, '\t');
    assert(s[a.len() as int] == '\t');
    if k < a.len() {
        assert(s[k] == a[k]);
    }
    assert(k == a.len());
    assert(s.take(k) == a);
    assert(s.skip(k + 1) == b);
}

/// A mark whose scope and path hold no tab is read back from its line as
/// itself: `parse_mark` of `format_mark(m)` gives `m`.
pub proof fn law_mark_line_round_trip(m: ReviewMark)
    requires
        !has_char(m.scope@, '\t'),
        !has_char(m.path@, '\t'),
    ensures
        is_mark_line(mark_line(m)),
        mark_of_line(mark_line(m), m),
{
    let d = dec_digits(m.hash as nat);
    let rest = m.path@ + seq!['\t'] + d;
    assert(mark_line(m) == m.scope@ + seq!['\t'] + rest);
    lemma_split_at_tab(m.scope@, rest);
    lemma_split_at_tab(m.path@, d);
    lemma_dec_digits_read_back(m.hash as nat);
    lemma_index_of_char(d, '\t');
    if index_of_char(d, '\t') < d.len() {
        let k = index_of_char(d, '\t');
        assert(48 <= (d[k] as u32) <= 57);
    }
    assert(first_field(d, '\t') == d);
}

/// `f` is marked reviewed in `scope` at its current content.
pub open spec fn is_marked(marks: Seq<ReviewMark>, scope: Seq<char>, f: DisplayFile) -> bool {
    exists|i: int|
        0 <= i < marks.len() && #[trigger] marks[i].scope@ == scope && marks[i].path@ == f.path@
            && marks[i].hash == f.content_hash
}

/// The indices of the marked files of `files`, in order.
pub open spec fn marked_indices(marks: Seq<ReviewMark>, scope: Seq<char>, files: Seq<DisplayFile>) -> Seq<usize>
    decreases files.len(),
{
    if files.len() == 0 {
        Seq::empty()
    } else {
        let prev = marked_indices(marks, scope, files.drop_last());
        if is_marked(marks, scope, files.last()) {
            prev.push((files.len() - 1) as usize)
        } else {
            prev
        }
    }
}

/// Whether `f` is marked reviewed in `scope` at its current content.
fn marked(marks: &Vec<ReviewMark>, scope: &str, f: &DisplayFile) -> (r: bool)
    ensures
        r == is_marked(marks@, scope@, *f),
{
    let mut i: usize = 0;
    while i < marks.len()
        invariant
            i <= marks@.len(),
            forall|j: int|
                0 <= j < i ==> !(#[trigger] marks@[j].scope@ == scope@ && marks@[j].path@ == f.path@
                    && marks@[j].hash == f.content_hash),
        decreases marks.len() - i,
    {
        let m = &marks[i];
        if str_eq(m.scope.as_str(), scope) && m.path == f.path && m.hash == f.content_hash {
            return true;
        }
        i = i + 1;
    }
    false
}

/// The indices of the files of `files` marked reviewed in `scope` at their
/// current content, in order, each once.
pub fn reviewed_indices(marks: &Vec<ReviewMark>, scope: &str, files: &[DisplayFile]) -> (r: Vec<usize>)
    ensures
        r@ == marked_indices(marks@, scope@, files@),
        r@.no_duplicates(),
        forall|k: int| 0 <= k < r@.len() ==> #[trigger] r@[k] < files@.len(),
{
    let mut r: Vec<usize> = Vec::new();
    let mut i: usize = 0;
    while i < files.len()
        invariant
            i <= files@.len(),
            r@ == marked_indices(marks@, scope@, files@.take(i as int)),
            r@.no_duplicates(),
            forall|k: int| 0 <= k < r@.len() ==> #[trigger] r@[k] < i,
        decreases files.len() - i,
    {
        let ghost t = files@.take(i + 1);
        assert(t.drop_last() == files@.take(i as int));
        assert(t.last() == files@[i as int]);
        if marked(marks, scope, &files[i]) {
            let ghost before = r@;
            r.push(i);
            proof {
                assert forall|a: int, b: int| 0 <= a < b < r@.len() implies r@[a] != r@[b] by {
                    if b == before.len() {
                        assert(r@[a] == before[a]);
                    } else {
                        assert(r@[a] == before[a] && r@[b] == before[b]);
                    }
                }
                assert forall|k: int| 0 <= k < r@.len() implies #[trigger] r@[k] < i + 1 by {
                    if k < before.len() {
                        assert(r@[k] == before[k]);
                    }
                }
            }
        }
        i = i + 1;
    }
    assert(files@.take(files@.len() as int) == files@);
    r
}

/// The marks but those of `path` in `scope`, in order.
pub open spec fn marks_without(marks: Seq<ReviewMark>, scope: Seq<char>, path: Seq<char>) -> Seq<ReviewMark>
    decreases marks.len(),
{
    if marks.len() == 0 {
        Seq::empty()
    } else {
        let prev = marks_without(marks.drop_last(), scope, path);
        let m = marks.last();
        if m.scope@ == scope && m.path@ == path {
            prev
        } else {
            prev.push(m)
        }
    }
}

/// Drops the marks of `path` in `scope`, keeping the others in order.
pub fn remove_mark(marks: Vec<ReviewMark>, scope: &str, path: &str) -> (r: Vec<ReviewMark>)
    ensures
        r@ == marks_without(marks@, scope@, path@),
{
    let ghost orig = marks@;
    let mut out: Vec<ReviewMark> = Vec::new();
    for m in it: marks.into_iter()
        invariant
            it.seq() == orig,
            out@ == marks_without(orig.take(it.index() as int), scope@, path@),
    {
        let ghost i = it.index();
        proof {
            assert(orig.take(i + 1).drop_last() == orig.take(i as int));
            assert(orig.take(i + 1).last() == orig[i as int]);
        }
        if !(str_eq(m.scope.as_str(), scope) && str_eq(m.path.as_str(), path)) {
            out.push(m);
        }
    }
    assert(orig.take(orig.len() as int) == orig);
    out
}

/// What hashing a list of lines (as `Hash` does for a slice of strings)
/// makes of the write sequence of a `DefaultHasher`.
pub uninterp spec fn hashed_lines(state: Seq<Seq<u8>>, lines: Seq<Seq<char>>) -> Seq<Seq<u8>>;

/// `<[String] as Hash>::hash` feeds the hasher what hashing those lines
/// writes; what it writes depends on the lines alone (their number, then
/// each one's bytes and a terminator), which `hashed_lines` names.
#[verifier::external_body]
fn hash_lines(state: &mut DefaultHasher, lines: &[String])
    ensures
        final(state)@ == hashed_lines(old(state)@, lines@.map_values(|l: String| l@)),
{
    lines.hash(state);
}

/// The content hash of a file: both sides' lines hashed in turn with std's
/// `DefaultHasher`. Within one build it depends on the two contents alone,
/// so a review mark made on a file still matches while the file is unchanged.
/// std does not promise the same value across Rust versions or platforms, so
/// a mark written by another build may no longer match.
pub fn compute_content_hash(old_lines: &[String], new_lines: &[String]) -> (r: u64)
    ensures
        r == DefaultHasher::spec_finish(
            hashed_lines(
                hashed_lines(Seq::empty(), old_lines@.map_values(|l: String| l@)),
                new_lines@.map_values(|l: String| l@),
            ),
        ),
{
    let mut hasher = DefaultHasher::new();
    hash_lines(&mut hasher, old_lines);
    hash_lines(&mut hasher, new_lines);
    hasher.finish()
}

} // verus!
