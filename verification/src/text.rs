//! Character-level text helpers used by the rest of the library.

use vstd::prelude::*;
use vstd::string::StringExecFns;

verus! {

broadcast use vstd::string::group_string_axioms;

/// `String::push` appends one character at the end of the string.
pub assume_specification[ std::string::String::push ](s: &mut std::string::String, ch: char)
    ensures
        final(s)@ == old(s)@.push(ch),
;

/// `String::pop` removes the last character and returns it, or returns
/// `None` when the string is empty.
pub assume_specification[ std::string::String::pop ](s: &mut std::string::String) -> (r: Option<char>)
    ensures
        old(s)@.len() > 0 ==> r == Some(old(s)@.last()) && final(s)@ == old(s)@.drop_last(),
        old(s)@.len() == 0 ==> r is None && final(s)@ == old(s)@,
;

/// The character of a decimal digit.
pub open spec fn digit_char(d: nat) -> char {
    ((48 + d) as char)
}

/// Decimal representation of a natural number, without leading zeros.
pub open spec fn dec_digits(n: nat) -> Seq<char>
    decreases n,
{
    if n < 10 {
        seq![digit_char(n)]
    } else {
        dec_digits(n / 10).push(digit_char(n % 10))
    }
}

/// Appends the decimal representation of `n` to `s`.
pub fn push_decimal(s: &mut String, n: usize)
    ensures
        final(s)@ == old(s)@ + dec_digits(n as nat),
    decreases n,
{
    if n >= 10 {
        push_decimal(s, n / 10);
    }
    let d: u8 = (n % 10) as u8;
    let c: char = (48u8 + d) as char;
    s.push(c);
}

/// Appends the decimal representation of the 64-bit `n` to `s`.
pub fn push_decimal_u64(s: &mut String, n: u64)
    ensures
        final(s)@ == old(s)@ + dec_digits(n as nat),
    decreases n,
{
    if n >= 10 {
        push_decimal_u64(s, n / 10);
    }
    let d: u8 = (n % 10) as u8;
    let c: char = (48u8 + d) as char;
    s.push(c);
}

/// The characters of `s`, in order.
pub fn chars_of(s: &str) -> (r: Vec<char>)
    ensures
        r@ == s@,
{
    let mut r: Vec<char> = Vec::new();
    for c in it: s.chars()
        invariant
            r@ == it.seq().take(it.index() as int),
    {
        r.push(c);
    }
    r
}

/// The string made of the characters of `cs`, in order.
pub fn string_of(cs: &Vec<char>) -> (r: String)
    ensures
        r@ == cs@,
{
    let mut r = String::new();
    let mut i: usize = 0;
    while i < cs.len()
        invariant
            i <= cs.len(),
            r@ == cs@.take(i as int),
        decreases cs.len() - i,
    {
        r.push(cs[i]);
        i = i + 1;
        assert(cs@.take(i as int) == cs@.take(i - 1 as int).push(cs@[i - 1 as int]));
    }
    assert(cs@.take(cs.len() as int) == cs@);
    r
}

/// Unicode lowercase mapping of a string, as `str::to_lowercase` computes it.
pub uninterp spec fn lowercase(s: Seq<char>) -> Seq<char>;

/// Calls `str::to_lowercase`: its result is the Unicode lowercase mapping of
/// the argument, a function of the argument alone, named `lowercase` here;
/// the empty string maps to the empty string.
#[verifier::external_body]
pub(crate) fn to_lowercase(s: &str) -> (r: String)
    ensures
        r@ == lowercase(s@),
        s@.len() == 0 ==> r@.len() == 0,
{
    s.to_lowercase()
}

/// `needle` occurs in `hay` starting at position `i`.
pub open spec fn occurs_at(hay: Seq<char>, needle: Seq<char>, i: int) -> bool {
    0 <= i && i + needle.len() <= hay.len() && hay.subrange(i, i + needle.len()) == needle
}

/// `needle` occurs somewhere in `hay` (the empty needle occurs everywhere).
pub open spec fn contains_seq(hay: Seq<char>, needle: Seq<char>) -> bool {
    exists|i: int| occurs_at(hay, needle, i)
}

/// Whether `needle` occurs in `hay` at position `i`.
pub fn matches_at(hay: &Vec<char>, needle: &Vec<char>, i: usize) -> (r: bool)
    requires
        i + needle.len() <= hay.len(),
    ensures
        r == occurs_at(hay@, needle@, i as int),
{
    let mut k: usize = 0;
    while k < needle.len()
        invariant
            i + needle.len() <= hay.len(),
            k <= needle.len(),
            forall|j: int| 0 <= j < k ==> hay@[i + j] == needle@[j],
        decreases needle.len() - k,
    {
        if hay[i + k] != needle[k] {
            assert(hay@.subrange(i as int, i + needle.len())[k as int] != needle@[k as int]);
            return false;
        }
        k = k + 1;
    }
    assert(hay@.subrange(i as int, i + needle.len()) =~= needle@);
    true
}

/// Whether `needle` occurs in `hay`.
pub fn contains_chars(hay: &Vec<char>, needle: &Vec<char>) -> (r: bool)
    ensures
        r == contains_seq(hay@, needle@),
{
    if needle.len() > hay.len() {
        return false;
    }
    let last = hay.len() - needle.len();
    let mut i: usize = 0;
    while i < last
        invariant
            last == hay.len() - needle.len(),
            needle.len() <= hay.len(),
            i <= last,
            forall|j: int| 0 <= j < i ==> !occurs_at(hay@, needle@, j),
        decreases last - i,
    {
        if matches_at(hay, needle, i) {
            return true;
        }
        i = i + 1;
    }
    matches_at(hay, needle, last)
}

/// Whether `needle` occurs in `hay` (strings).
pub fn str_contains(hay: &str, needle: &str) -> (r: bool)
    ensures
        r == contains_seq(hay@, needle@),
{
    let h = chars_of(hay);
    let n = chars_of(needle);
    contains_chars(&h, &n)
}

/// Index of the first occurrence of `c` in `s`, or the length of `s` when it does not occur.
pub open spec fn index_of_char(s: Seq<char>, c: char) -> int
    decreases s.len(),
{
    if s.len() == 0 {
        0
    } else if s[0] == c {
        0
    } else {
        1 + index_of_char(s.drop_first(), c)
    }
}

/// The first field of `s` split on `c` (all of `s` when `c` does not occur).
pub open spec fn first_field(s: Seq<char>, c: char) -> Seq<char> {
    s.take(index_of_char(s, c))
}

/// Facts about `index_of_char`: it lies within the string, stops at the first `c`.
pub proof fn lemma_index_of_char(s: Seq<char>, c: char)
    ensures
        0 <= index_of_char(s, c) <= s.len(),
        index_of_char(s, c) < s.len() ==> s[index_of_char(s, c)] == c,
        forall|j: int| 0 <= j < index_of_char(s, c) ==> s[j] != c,
    decreases s.len(),
{
    if s.len() > 0 && s[0] != c {
        lemma_index_of_char(s.drop_first(), c);
        assert forall|j: int| 0 <= j < index_of_char(s, c) implies s[j] != c by {
            if j > 0 {
                assert(s[j] == s.drop_first()[j - 1]);
            }
        }
    }
}

/// Position of the first `c` in `cs`, or its length.
pub fn find_char(cs: &Vec<char>, c: char) -> (r: usize)
    ensures
        r == index_of_char(cs@, c),
{
    proof {
        lemma_index_of_char(cs@, c);
    }
    let mut i: usize = 0;
    while i < cs.len()
        invariant
            i <= cs.len(),
            forall|j: int| 0 <= j < i ==> cs@[j] != c,
            0 <= index_of_char(cs@, c) <= cs@.len(),
            index_of_char(cs@, c) < cs@.len() ==> cs@[index_of_char(cs@, c)] == c,
            forall|j: int| 0 <= j < index_of_char(cs@, c) ==> cs@[j] != c,
        decreases cs.len() - i,
    {
        if cs[i] == c {
            return i;
        }
        i = i + 1;
    }
    i
}

/// The text before the first `c` in `s` (all of `s` when there is none), as
/// `s.split(c).next()` gives it.
pub fn first_field_of(s: &str, c: char) -> (r: String)
    ensures
        r@ == first_field(s@, c),
{
    let cs = chars_of(s);
    let k = find_char(&cs, c);
    proof {
        lemma_index_of_char(cs@, c);
    }
    let mut out: Vec<char> = Vec::new();
    let mut i: usize = 0;
    while i < k
        invariant
            k <= cs.len(),
            i <= k,
            out@ == cs@.take(i as int),
        decreases k - i,
    {
        out.push(cs[i]);
        i = i + 1;
        assert(cs@.take(i as int) == cs@.take(i - 1 as int).push(cs@[i - 1 as int]));
    }
    string_of(&out)
}

/// Whether `s` begins with the character `c`.
pub fn starts_with_char(s: &str, c: char) -> (r: bool)
    ensures
        r == (s@.len() > 0 && s@[0] == c),
{
    let cs = chars_of(s);
    cs.len() > 0 && cs[0] == c
}

/// Whether `s` begins with `prefix`.
pub fn starts_with(s: &str, prefix: &str) -> (r: bool)
    ensures
        r == (prefix@.len() <= s@.len() && s@.subrange(0, prefix@.len() as int) == prefix@),
{
    let h = chars_of(s);
    let p = chars_of(prefix);
    if p.len() > h.len() {
        return false;
    }
    matches_at(&h, &p, 0)
}


/// Two decimal digits of `n` (below 100), with a leading zero.
pub open spec fn two_digits(n: nat) -> Seq<char> {
    seq![digit_char(n / 10), digit_char(n % 10)]
}

/// The time of day `secs` seconds after midnight (taken modulo a day) as
/// "HH:MM:SS".
pub open spec fn spec_clock_text(secs: nat) -> Seq<char> {
    let t = secs % 86400;
    two_digits(t / 3600) + seq![':'] + two_digits((t % 3600) / 60) + seq![':'] + two_digits(t % 60)
}

/// Appends two decimal digits of `n` (below 100).
fn push_two_digits(s: &mut String, n: u64)
    requires
        n < 100,
    ensures
        final(s)@ == old(s)@ + two_digits(n as nat),
{
    let tens: u8 = (n / 10) as u8;
    let ones: u8 = (n % 10) as u8;
    s.push((48u8 + tens) as char);
    s.push((48u8 + ones) as char);
}

/// The time of day `secs` seconds after midnight (taken modulo a day) as
/// "HH:MM:SS".
pub fn clock_text(secs: u64) -> (r: String)
    ensures
        r@ == spec_clock_text(secs as nat),
{
    let t = secs % 86400;
    let mut r = String::new();
    push_two_digits(&mut r, t / 3600);
    r.push(':');
    push_two_digits(&mut r, (t % 3600) / 60);
    r.push(':');
    push_two_digits(&mut r, t % 60);
    r
}

/// The characters `[a, b)` of `s`.
pub fn string_between(s: &Vec<char>, a: usize, b: usize) -> (r: String)
    requires
        a <= b <= s@.len(),
    ensures
        r@ == s@.subrange(a as int, b as int),
{
    let mut out = String::new();
    let mut k = a;
    while k < b
        invariant
            a <= k <= b,
            b <= s@.len(),
            out@ == s@.subrange(a as int, k as int),
        decreases b - k,
    {
        out.push(s[k]);
        assert(s@.subrange(a as int, k + 1) == s@.subrange(a as int, k as int).push(s@[k as int]));
        k = k + 1;
    }
    out
}

/// A line without its line ending: a '\r' before the '\n' goes with it.
pub open spec fn strip_cr(l: Seq<char>) -> Seq<char> {
    if l.len() > 0 && l.last() == '\r' {
        l.drop_last()
    } else {
        l
    }
}

/// The lines of a text as `str::lines` gives them: split at each '\n' (a
/// '\r' just before it going with it), the final line ending optional.
pub open spec fn lines_of(s: Seq<char>) -> Seq<Seq<char>>
    decreases s.len(),
{
    if s.len() == 0 {
        Seq::empty()
    } else {
        proof {
            lemma_index_of_char(s, '\n');
        }
        let i = index_of_char(s, '\n');
        if i == s.len() {
            seq![s]
        } else {
            seq![strip_cr(s.take(i))] + lines_of(s.skip(i + 1))
        }
    }
}

/// The lines of `content`, as `str::lines` gives them.
pub fn split_lines(content: &str) -> (r: Vec<String>)
    ensures
        r@.map_values(|l: String| l@) == lines_of(content@),
{
    let cs = chars_of(content);
    let mut out: Vec<String> = Vec::new();
    let mut start: usize = 0;
    proof {
        assert(cs@.skip(0) == cs@);
        assert(out@.map_values(|l: String| l@) + lines_of(cs@) == lines_of(cs@));
    }
    while start < cs.len()
        invariant
            start <= cs@.len(),
            cs@ == content@,
            lines_of(content@) == out@.map_values(|l: String| l@) + lines_of(cs@.skip(start as int)),
        decreases cs.len() - start,
    {
        let mut j = start;
        while j < cs.len() && cs[j] != '\n'
            invariant
                start <= j <= cs@.len(),
                forall|q: int| start <= q < j ==> cs@[q] != '\n',
            decreases cs.len() - j,
        {
            j = j + 1;
        }
        let ghost t = cs@.skip(start as int);
        proof {
            lemma_index_of_char(t, '\n');
            let x = index_of_char(t, '\n');
            if x < j - start {
                assert(t[x] == cs@[start + x]);
            }
            if j < cs.len() {
                assert(t[j - start] == cs@[j as int]);
            }
            assert(index_of_char(t, '\n') == j - start);
        }
        let mut end = j;
        if j < cs.len() && end > start && cs[end - 1] == '\r' {
            end = end - 1;
        }
        let line = string_between(&cs, start, end);
        let ghost before = out@;
        out.push(line);
        proof {
            assert(out@.map_values(|l: String| l@) == before.map_values(|l: String| l@).push(line@));
            if j < cs.len() {
                assert(t.take(j - start) == cs@.subrange(start as int, j as int));
                assert(strip_cr(t.take(j - start)) == cs@.subrange(start as int, end as int));
                assert(t.skip(j - start + 1) == cs@.skip(j + 1));
            } else {
                assert(t == cs@.subrange(start as int, end as int));
                assert(cs@.skip(j as int) == Seq::<char>::empty());
            }
        }
        start = if j < cs.len() {
            j + 1
        } else {
            j
        };
    }
    proof {
        assert(cs@.skip(start as int) == Seq::<char>::empty());
    }
    out
}

} // verus!
