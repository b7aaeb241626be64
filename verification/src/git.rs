//! Records that git reports: changed files and log entries.

use vstd::prelude::*;

use crate::app::{after_field, after_field_of};
use crate::app::str_eq;
use crate::text::{chars_of, dec_digits, digit_char, first_field, first_field_of, index_of_char, lemma_index_of_char, string_of};

verus! {

/// One line of `git diff --name-status`: a status letter and the paths.
#[derive(Debug, Clone)]
pub struct ChangedEntry {
    pub status: String,
    pub old_path: String,
    pub new_path: String,
}

/// One commit of the log.
#[derive(Debug, Clone)]
pub struct LogEntry {
    pub full_hash: String,
    pub short_hash: String,
    pub date: String,
    pub subject: String,
}

impl LogEntry {
    /// A field-by-field copy.
    pub fn duplicate(&self) -> (r: LogEntry)
        ensures
            r == *self,
    {
        LogEntry {
            full_hash: self.full_hash.clone(),
            short_hash: self.short_hash.clone(),
            date: self.date.clone(),
            subject: self.subject.clone(),
        }
    }
}


/// The field separator of the log format (ASCII unit separator).
pub const LOG_SEP: char = '\u{1f}';

/// `s` holds `c`.
pub open spec fn has_char(s: Seq<char>, c: char) -> bool {
    index_of_char(s, c) < s.len()
}

/// Whether `s` holds `c`.
fn holds_char(s: &str, c: char) -> (r: bool)
    ensures
        r == has_char(s@, c),
{
    let cs = chars_of(s);
    proof {
        lemma_index_of_char(cs@, c);
    }
    crate::text::find_char(&cs, c) < cs.len()
}

/// A log line "hash␟short␟date␟subject" read as a commit: the subject is the
/// rest of the line (empty when the third separator is missing); a line with
/// fewer than two separators is no commit.
pub open spec fn log_line_ok(line: Seq<char>, e: LogEntry) -> bool {
    let r1 = after_field(line, LOG_SEP);
    let r2 = after_field(r1, LOG_SEP);
    &&& e.full_hash@ == first_field(line, LOG_SEP)
    &&& e.short_hash@ == first_field(r1, LOG_SEP)
    &&& e.date@ == first_field(r2, LOG_SEP)
    &&& e.subject@ == after_field(r2, LOG_SEP)
}

/// Reads one line of `git log --format=%H%x1f%h%x1f%ad%x1f%s`.
pub fn parse_log_line(line: &str) -> (r: Option<LogEntry>)
    ensures
        r is Some <==> (has_char(line@, LOG_SEP) && has_char(after_field(line@, LOG_SEP), LOG_SEP)),
        r matches Some(e) ==> log_line_ok(line@, e),
{
    if !holds_char(line, LOG_SEP) {
        return None;
    }
    let r1 = after_field_of(line, LOG_SEP);
    if !holds_char(r1.as_str(), LOG_SEP) {
        return None;
    }
    let r2 = after_field_of(r1.as_str(), LOG_SEP);
    Some(LogEntry {
        full_hash: first_field_of(line, LOG_SEP),
        short_hash: first_field_of(r1.as_str(), LOG_SEP),
        date: first_field_of(r2.as_str(), LOG_SEP),
        subject: after_field_of(r2.as_str(), LOG_SEP),
    })
}

/// Reads one line of `git diff --name-status --no-renames`: the status, a tab,
/// the path (up to a further tab). A line without a tab is no entry; the path
/// stands for both the old and the new name.
pub fn parse_name_status(line: &str) -> (r: Option<ChangedEntry>)
    ensures
        r is Some <==> has_char(line@, '\t'),
        r matches Some(e) ==> e.status@ == first_field(line@, '\t') && e.new_path@ == first_field(
            after_field(line@, '\t'),
            '\t',
        ) && e.old_path@ == e.new_path@,
{
    if !holds_char(line, '\t') {
        return None;
    }
    let rest = after_field_of(line, '\t');
    let path = first_field_of(rest.as_str(), '\t');
    Some(ChangedEntry { status: first_field_of(line, '\t'), old_path: path.clone(), new_path: path })
}

/// Reads one line of `git diff --name-status -M`: a rename "R…␉old␉new" gives
/// the new path and the old path; any other line gives nothing.
pub fn parse_rename(line: &str) -> (r: Option<(String, String)>)
    ensures
        r is Some <==> (line@.len() > 0 && line@[0] == 'R' && has_char(line@, '\t') && has_char(
            after_field(line@, '\t'),
            '\t',
        )),
        r matches Some(p) ==> {
            let rest = after_field(line@, '\t');
            p.0@ == first_field(after_field(rest, '\t'), '\t') && p.1@ == first_field(rest, '\t')
        },
{
    if !crate::text::starts_with_char(line, 'R') || !holds_char(line, '\t') {
        return None;
    }
    let rest = after_field_of(line, '\t');
    if !holds_char(rest.as_str(), '\t') {
        return None;
    }
    let old = first_field_of(rest.as_str(), '\t');
    let after = after_field_of(rest.as_str(), '\t');
    Some((first_field_of(after.as_str(), '\t'), old))
}

/// The value of a string of decimal digits.
pub open spec fn digits_value(ds: Seq<char>) -> nat
    decreases ds.len(),
{
    if ds.len() == 0 {
        0
    } else {
        digits_value(ds.drop_last()) * 10 + ((ds.last() as u32) - 48) as nat
    }
}

/// Every character of `ds` is an ASCII digit.
pub open spec fn all_digits(ds: Seq<char>) -> bool {
    forall|i: int| 0 <= i < ds.len() ==> 48 <= (#[trigger] ds[i] as u32) <= 57
}

/// The digits of a number as `str::parse` reads it: an optional '+', then digits.
pub open spec fn number_digits(s: Seq<char>) -> Seq<char> {
    if s.len() > 0 && s[0] == '+' {
        s.drop_first()
    } else {
        s
    }
}

/// The number `s` spells, if it spells one below `bound`: an optional '+'
/// followed by at least one decimal digit.
pub open spec fn number_below(s: Seq<char>, bound: nat) -> Option<nat> {
    let ds = number_digits(s);
    if ds.len() > 0 && all_digits(ds) && digits_value(ds) < bound {
        Some(digits_value(ds))
    } else {
        None
    }
}

/// The decimal digits of `n` read back as `n`: at least one digit, all of
/// them ASCII digits, no leading '+'.
pub proof fn lemma_dec_digits_read_back(n: nat)
    ensures
        dec_digits(n).len() > 0,
        all_digits(dec_digits(n)),
        dec_digits(n)[0] != '+',
        digits_value(dec_digits(n)) == n,
        number_digits(dec_digits(n)) == dec_digits(n),
    decreases n,
{
    let d = dec_digits(n);
    if n < 10 {
        assert(d == seq![digit_char(n)]);
        assert(d.drop_last() == Seq::<char>::empty());
        assert((digit_char(n) as u32) == 48 + n);
        assert(digits_value(d) == digits_value(d.drop_last()) * 10 + ((d.last() as u32) - 48) as nat);
    } else {
        lemma_dec_digits_read_back(n / 10);
        let p = dec_digits(n / 10);
        assert(d == p.push(digit_char(n % 10)));
        assert(d.drop_last() == p);
        assert((digit_char(n % 10) as u32) == 48 + n % 10);
        assert(n == (n / 10) * 10 + n % 10);
        assert(digits_value(d) == digits_value(p) * 10 + ((d.last() as u32) - 48) as nat);
        assert forall|i: int| 0 <= i < d.len() implies 48 <= (#[trigger] d[i] as u32) <= 57 by {
            if i < p.len() {
                assert(d[i] == p[i]);
            }
        }
        assert(d[0] == p[0]);
    }
}

/// A longer run of digits is worth at least as much as its prefix.
proof fn lemma_digits_grow(ds: Seq<char>, i: int)
    requires
        0 <= i <= ds.len(),
        all_digits(ds),
    ensures
        digits_value(ds.take(i)) <= digits_value(ds),
    decreases ds.len(),
{
    if i < ds.len() {
        assert(ds.drop_last().take(i) == ds.take(i));
        assert(all_digits(ds.drop_last())) by {
            assert forall|k: int| 0 <= k < ds.drop_last().len() implies 48 <= (#[trigger] ds.drop_last()[k] as u32)
                <= 57 by {
                assert(ds.drop_last()[k] == ds[k]);
            }
        }
        lemma_digits_grow(ds.drop_last(), i);
    } else {
        assert(ds.take(i) == ds);
    }
}

/// Reads a decimal number as `str::parse::<u64>` does: an optional '+', then
/// one or more digits, with a value that fits.
pub fn parse_u64(s: &str) -> (r: Option<u64>)
    ensures
        r matches Some(v) ==> number_below(s@, u64::MAX as nat + 1) == Some(v as nat),
        r is None ==> number_below(s@, u64::MAX as nat + 1) is None,
{
    let cs = chars_of(s);
    let start: usize = if cs.len() > 0 && cs[0] == '+' {
        1
    } else {
        0
    };
    let ghost ds = number_digits(s@);
    proof {
        assert(ds == cs@.skip(start as int));
    }
    if start >= cs.len() {
        return None;
    }
    let mut acc: u64 = 0;
    let mut i: usize = start;
    while i < cs.len()
        invariant
            start <= i <= cs@.len(),
            start < cs@.len(),
            cs@ == s@,
            ds == number_digits(s@),
            ds == cs@.skip(start as int),
            all_digits(cs@.subrange(start as int, i as int)),
            acc == digits_value(cs@.subrange(start as int, i as int)),
        decreases cs.len() - i,
    {
        let c = cs[i];
        let ghost pre = cs@.subrange(start as int, i as int);
        let ghost next = cs@.subrange(start as int, i + 1);
        assert(next.drop_last() == pre);
        assert(next.last() == c);
        let cu = c as u32;
        if cu < 48 || cu > 57 {
            proof {
                assert(ds[i - start] == c);
                assert(!all_digits(ds));
            }
            return None;
        }
        let d: u64 = (cu - 48) as u64;
        assert(digits_value(next) == acc * 10 + d);
        if acc > (u64::MAX - d) / 10 {
            proof {
                assert(acc * 10 + d > u64::MAX) by (nonlinear_arith)
                    requires
                        acc > (u64::MAX - d) / 10,
                        d <= 9,
                ;
                assert(all_digits(next)) by {
                    assert forall|k: int| 0 <= k < next.len() implies 48 <= (#[trigger] next[k] as u32) <= 57 by {
                        if k < pre.len() {
                            assert(next[k] == pre[k]);
                        }
                    }
                }
                if all_digits(ds) {
                    assert(ds.take(i + 1 - start) == next);
                    lemma_digits_grow(ds, i + 1 - start);
                    assert(digits_value(ds) > u64::MAX);
                }
            }
            return None;
        }
        assert(acc * 10 + d <= u64::MAX) by (nonlinear_arith)
            requires
                acc <= (u64::MAX - d) / 10,
                d <= 9,
        ;
        acc = acc * 10 + d;
        proof {
            assert forall|k: int| 0 <= k < next.len() implies 48 <= (#[trigger] next[k] as u32) <= 57 by {
                if k < pre.len() {
                    assert(next[k] == pre[k]);
                }
            }
        }
        i = i + 1;
    }
    assert(cs@.subrange(start as int, cs@.len() as int) == ds);
    Some(acc)
}

/// Reads one line of `git diff --numstat --no-renames`: "added␉deleted␉path",
/// a count that is no number (binary files show "-") counting as 0. A line
/// with fewer than two tabs gives nothing.
pub fn parse_numstat(line: &str) -> (r: Option<(String, u32, u32)>)
    ensures
        r is Some <==> (has_char(line@, '\t') && has_char(after_field(line@, '\t'), '\t')),
        r matches Some(t) ==> {
            let rest = after_field(line@, '\t');
            &&& t.0@ == first_field(after_field(rest, '\t'), '\t')
            &&& t.1 == match number_below(first_field(line@, '\t'), u32::MAX as nat + 1) {
                Some(v) => v,
                None => 0,
            }
            &&& t.2 == match number_below(first_field(rest, '\t'), u32::MAX as nat + 1) {
                Some(v) => v,
                None => 0,
            }
        },
{
    if !holds_char(line, '\t') {
        return None;
    }
    let rest = after_field_of(line, '\t');
    if !holds_char(rest.as_str(), '\t') {
        return None;
    }
    let adds = count_of(first_field_of(line, '\t').as_str());
    let dels = count_of(first_field_of(rest.as_str(), '\t').as_str());
    let after = after_field_of(rest.as_str(), '\t');
    Some((first_field_of(after.as_str(), '\t'), adds, dels))
}

/// A line count as `str::parse::<u32>` reads it, or 0 when it is none.
fn count_of(s: &str) -> (r: u32)
    ensures
        r == match number_below(s@, u32::MAX as nat + 1) {
            Some(v) => v,
            None => 0,
        },
{
    match parse_u64(s) {
        Some(v) => if v <= u32::MAX as u64 {
            v as u32
        } else {
            0
        },
        None => 0,
    }
}

/// The three tab-separated fields at the start of a line: the text before the
/// first tab, the text between the first and second tabs, and the text after
/// the second tab up to a further tab. A line with fewer than two tabs has none.
pub fn parse_numstat_fields(line: &str) -> (r: Option<(String, String, String)>)
    ensures
        r is Some <==> (has_char(line@, '\t') && has_char(after_field(line@, '\t'), '\t')),
        r matches Some(t) ==> {
            let rest = after_field(line@, '\t');
            &&& t.0@ == first_field(line@, '\t')
            &&& t.1@ == first_field(rest, '\t')
            &&& t.2@ == first_field(after_field(rest, '\t'), '\t')
        },
{
    if !holds_char(line, '\t') {
        return None;
    }
    let rest = after_field_of(line, '\t');
    if !holds_char(rest.as_str(), '\t') {
        return None;
    }
    let after = after_field_of(rest.as_str(), '\t');
    Some((first_field_of(line, '\t'), first_field_of(rest.as_str(), '\t'), first_field_of(after.as_str(), '\t')))
}

/// The part of `s` after its last `c` (all of `s` when it holds no `c`).
pub open spec fn after_last(s: Seq<char>, c: char) -> Seq<char>
    decreases s.len(),
{
    if s.len() == 0 {
        s
    } else if s.last() == c {
        Seq::empty()
    } else {
        after_last(s.drop_last(), c).push(s.last())
    }
}

/// The extension of a file name: what follows its last '.', where that '.'
/// is not its first character; empty where there is none.
pub open spec fn extension(name: Seq<char>) -> Seq<char> {
    let e = after_last(name, '.');
    if e.len() + 1 < name.len() {
        e
    } else {
        Seq::empty()
    }
}

/// The language that files with extension `ext` are written in.
pub open spec fn language_of_ext(ext: Seq<char>) -> Seq<char> {
    if ext == "rs"@ {
        "Rust"@
    } else if ext == "py"@ {
        "Python"@
    } else if ext == "js"@ || ext == "mjs"@ || ext == "cjs"@ {
        "JavaScript"@
    } else if ext == "ts"@ || ext == "tsx"@ {
        "TypeScript"@
    } else if ext == "go"@ {
        "Go"@
    } else if ext == "c"@ || ext == "h"@ {
        "C"@
    } else if ext == "cc"@ || ext == "cpp"@ || ext == "cxx"@ || ext == "hpp"@ {
        "C++"@
    } else if ext == "java"@ {
        "Java"@
    } else if ext == "rb"@ {
        "Ruby"@
    } else if ext == "md"@ {
        "Markdown"@
    } else if ext == "toml"@ {
        "TOML"@
    } else if ext == "json"@ {
        "JSON"@
    } else if ext == "yml"@ || ext == "yaml"@ {
        "YAML"@
    } else if ext == "sh"@ || ext == "bash"@ {
        "Shell"@
    } else {
        "Text"@
    }
}

/// The part of `cs` after its last `c`.
fn after_last_of(cs: &Vec<char>, c: char) -> (r: Vec<char>)
    ensures
        r@ == after_last(cs@, c),
{
    let mut k = cs.len();
    proof {
        assert(cs@.take(k as int) == cs@);
        assert(cs@.skip(k as int) == Seq::<char>::empty());
        assert(after_last(cs@, c) + Seq::<char>::empty() == after_last(cs@, c));
    }
    while k > 0 && cs[k - 1] != c
        invariant
            k <= cs@.len(),
            after_last(cs@, c) == after_last(cs@.take(k as int), c) + cs@.skip(k as int),
        decreases k,
    {
        proof {
            let t = cs@.take(k as int);
            assert(t.drop_last() == cs@.take(k - 1));
            assert(t.last() == cs@[k - 1]);
            assert(after_last(t, c) == after_last(cs@.take(k - 1), c).push(cs@[k - 1]));
            assert(cs@.skip(k - 1) == seq![cs@[k - 1]] + cs@.skip(k as int));
            assert(after_last(cs@.take(k - 1), c).push(cs@[k - 1]) + cs@.skip(k as int) == after_last(
                cs@.take(k - 1),
                c,
            ) + cs@.skip(k - 1));
        }
        k = k - 1;
    }
    proof {
        if k > 0 {
            assert(cs@.take(k as int).last() == cs@[k - 1]);
        }
        assert(Seq::<char>::empty() + cs@.skip(k as int) == cs@.skip(k as int));
    }
    let mut out: Vec<char> = Vec::new();
    let mut q = k;
    while q < cs.len()
        invariant
            k <= q <= cs@.len(),
            out@ == cs@.subrange(k as int, q as int),
        decreases cs.len() - q,
    {
        out.push(cs[q]);
        assert(cs@.subrange(k as int, q + 1) == cs@.subrange(k as int, q as int).push(cs@[q as int]));
        q = q + 1;
    }
    assert(cs@.subrange(k as int, cs@.len() as int) == cs@.skip(k as int));
    out
}

/// A language name for a path, from the extension of its file name.
pub fn language_from_ext(path: &str) -> (r: String)
    ensures
        r@ == language_of_ext(extension(after_last(path@, '/'))),
{
    let cs = chars_of(path);
    let name = after_last_of(&cs, '/');
    let e = after_last_of(&name, '.');
    let ext = if e.len() < name.len() && name.len() - e.len() > 1 {
        string_of(&e)
    } else {
        String::new()
    };
    let x = ext.as_str();
    let lang = if str_eq(x, "rs") {
        "Rust"
    } else if str_eq(x, "py") {
        "Python"
    } else if str_eq(x, "js") || str_eq(x, "mjs") || str_eq(x, "cjs") {
        "JavaScript"
    } else if str_eq(x, "ts") || str_eq(x, "tsx") {
        "TypeScript"
    } else if str_eq(x, "go") {
        "Go"
    } else if str_eq(x, "c") || str_eq(x, "h") {
        "C"
    } else if str_eq(x, "cc") || str_eq(x, "cpp") || str_eq(x, "cxx") || str_eq(x, "hpp") {
        "C++"
    } else if str_eq(x, "java") {
        "Java"
    } else if str_eq(x, "rb") {
        "Ruby"
    } else if str_eq(x, "md") {
        "Markdown"
    } else if str_eq(x, "toml") {
        "TOML"
    } else if str_eq(x, "json") {
        "JSON"
    } else if str_eq(x, "yml") || str_eq(x, "yaml") {
        "YAML"
    } else if str_eq(x, "sh") || str_eq(x, "bash") {
        "Shell"
    } else {
        "Text"
    };
    lang.to_owned()
}

} // verus!
