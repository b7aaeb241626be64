//! difftastic's JSON report (`DFT_DISPLAY=json`): the JSON text read into a
//! value, and the files read out of that value.

use vstd::prelude::*;

use crate::app::str_eq;
use crate::difft::{
    highlight_named, spec_highlight_named, spec_status_named, status_named, Change, DifftFile, LineChange, SideChange,
};
use crate::git::{all_digits, number_below, parse_u64};
use crate::text::{chars_of, string_between};

verus! {

/// `core::char::from_u32` gives the character with code point `i`, or `None`
/// when `i` is a surrogate or above `0x10FFFF`.
pub assume_specification[ core::char::from_u32 ](i: u32) -> (r: Option<char>)
    ensures
        r == if i <= 0xD7FF || (0xE000 <= i && i <= 0x10FFFF) {
            Some(i as char)
        } else {
            None
        },
;

/// JSON whitespace.
pub open spec fn is_ws(c: char) -> bool {
    c == ' ' || c == '\t' || c == '\n' || c == '\r'
}

/// The first position at or after `i` that holds no whitespace.
pub open spec fn skip_ws(s: Seq<char>, i: int) -> int
    decreases s.len() - i,
{
    if 0 <= i < s.len() && is_ws(s[i]) {
        skip_ws(s, i + 1)
    } else {
        i
    }
}

/// Skipping whitespace never moves back, nor past the end.
pub proof fn lemma_skip_ws(s: Seq<char>, i: int)
    requires
        0 <= i <= s.len(),
    ensures
        i <= skip_ws(s, i) <= s.len(),
    decreases s.len() - i,
{
    if i < s.len() && is_ws(s[i]) {
        lemma_skip_ws(s, i + 1);
    }
}

/// The value of a hexadecimal digit.
pub open spec fn hex_val(c: char) -> Option<u32> {
    if '0' <= c && c <= '9' {
        Some((c as u32 - '0' as u32) as u32)
    } else if 'a' <= c && c <= 'f' {
        Some((c as u32 - 'a' as u32 + 10) as u32)
    } else if 'A' <= c && c <= 'F' {
        Some((c as u32 - 'A' as u32 + 10) as u32)
    } else {
        None
    }
}

/// The number that the four hexadecimal digits at `i` spell.
pub open spec fn hex4(s: Seq<char>, i: int) -> Option<u32> {
    if 0 <= i && i + 4 <= s.len() {
        match (hex_val(s[i]), hex_val(s[i + 1]), hex_val(s[i + 2]), hex_val(s[i + 3])) {
            (Some(a), Some(b), Some(c), Some(d)) => Some((a * 4096 + b * 256 + c * 16 + d) as u32),
            _ => None,
        }
    } else {
        None
    }
}

/// The character of code point `code`, or U+FFFD where there is none.
pub open spec fn code_char(code: u32) -> char {
    if code <= 0xD7FF || (0xE000 <= code && code <= 0x10FFFF) {
        code as char
    } else {
        '\u{fffd}'
    }
}

/// The character that a backslash followed by `e` stands for (other than `u`).
pub open spec fn escape_char(e: char) -> char {
    if e == 'n' {
        '\n'
    } else if e == 't' {
        '\t'
    } else if e == 'r' {
        '\r'
    } else if e == 'b' {
        '\u{8}'
    } else if e == 'f' {
        '\u{c}'
    } else {
        e
    }
}

/// `c` put in front of the text of a read.
pub open spec fn prepend_char(c: char, r: Option<(Seq<char>, int)>) -> Option<(Seq<char>, int)> {
    match r {
        Some((t, e)) => Some((seq![c] + t, e)),
        None => None,
    }
}

/// The rest of a string whose opening quote lies before `i`: its text, with
/// the escapes resolved, and the position after the closing quote.
pub open spec fn str_rest(s: Seq<char>, i: int) -> Option<(Seq<char>, int)>
    decreases s.len() - i,
{
    if i < 0 || i >= s.len() {
        None
    } else if s[i] == '"' {
        Some((Seq::empty(), i + 1))
    } else if s[i] == '\\' {
        if i + 1 >= s.len() {
            None
        } else if s[i + 1] == 'u' {
            match hex4(s, i + 2) {
                Some(code) => prepend_char(code_char(code), str_rest(s, i + 6)),
                None => None,
            }
        } else {
            prepend_char(escape_char(s[i + 1]), str_rest(s, i + 2))
        }
    } else {
        prepend_char(s[i], str_rest(s, i + 1))
    }
}

/// A string read ends after where it starts, and within the text.
pub proof fn lemma_str_rest(s: Seq<char>, i: int)
    ensures
        str_rest(s, i) matches Some((t, e)) ==> i < e <= s.len(),
    decreases s.len() - i,
{
    if 0 <= i < s.len() && s[i] != '"' {
        if s[i] == '\\' {
            if i + 1 < s.len() {
                if s[i + 1] == 'u' {
                    if hex4(s, i + 2) is Some {
                        lemma_str_rest(s, i + 6);
                    }
                } else {
                    lemma_str_rest(s, i + 2);
                }
            }
        } else {
            lemma_str_rest(s, i + 1);
        }
    }
}

/// The first position at or after `i` that holds no whitespace.
pub fn skip_spaces(s: &Vec<char>, i: usize) -> (r: usize)
    requires
        i <= s@.len(),
    ensures
        r == skip_ws(s@, i as int),
{
    let mut k = i;
    while k < s.len() && (s[k] == ' ' || s[k] == '\t' || s[k] == '\n' || s[k] == '\r')
        invariant
            i <= k <= s@.len(),
            skip_ws(s@, i as int) == skip_ws(s@, k as int),
        decreases s.len() - k,
    {
        k = k + 1;
    }
    k
}

/// The value of a hexadecimal digit.
fn hex_digit(c: char) -> (r: Option<u32>)
    ensures
        r == hex_val(c),
{
    if '0' <= c && c <= '9' {
        Some(c as u32 - '0' as u32)
    } else if 'a' <= c && c <= 'f' {
        Some(c as u32 - 'a' as u32 + 10)
    } else if 'A' <= c && c <= 'F' {
        Some(c as u32 - 'A' as u32 + 10)
    } else {
        None
    }
}

/// The number that the four hexadecimal digits at `i` spell.
fn read_hex4(s: &Vec<char>, i: usize) -> (r: Option<u32>)
    ensures
        r == hex4(s@, i as int),
{
    if i > s.len() || s.len() - i < 4 {
        return None;
    }
    match (hex_digit(s[i]), hex_digit(s[i + 1]), hex_digit(s[i + 2]), hex_digit(s[i + 3])) {
        (Some(a), Some(b), Some(c), Some(d)) => {
            assert(a < 16 && b < 16 && c < 16 && d < 16);
            Some(a * 4096 + b * 256 + c * 16 + d)
        },
        _ => None,
    }
}

/// The character of code point `code`, or U+FFFD where there is none.
fn char_of_code(code: u32) -> (r: char)
    ensures
        r == code_char(code),
{
    match core::char::from_u32(code) {
        Some(c) => c,
        None => '\u{fffd}',
    }
}

/// The character that a backslash followed by `e` stands for (other than `u`).
fn unescape(e: char) -> (r: char)
    ensures
        r == escape_char(e),
{
    if e == 'n' {
        '\n'
    } else if e == 't' {
        '\t'
    } else if e == 'r' {
        '\r'
    } else if e == 'b' {
        '\u{8}'
    } else if e == 'f' {
        '\u{c}'
    } else {
        e
    }
}

/// Reads the rest of a string whose opening quote lies before `i`.
pub fn read_str_rest(s: &Vec<char>, i: usize) -> (r: Option<(String, usize)>)
    ensures
        match str_rest(s@, i as int) {
            Some((t, e)) => r matches Some((x, k)) && x@ == t && k == e,
            None => r is None,
        },
{
    if i >= s.len() {
        return None;
    }
    let mut out = String::new();
    let mut k = i;
    proof {
        assert(out@ + Seq::<char>::empty() == out@);
    }
    loop
        invariant
            i <= k <= s@.len(),
            str_rest(s@, i as int) == match str_rest(s@, k as int) {
                Some((t, e)) => Some((out@ + t, e)),
                None => None,
            },
        decreases s.len() - k,
    {
        if k >= s.len() {
            return None;
        }
        let c = s[k];
        if c == '"' {
            proof {
                assert(out@ + Seq::<char>::empty() == out@);
            }
            return Some((out, k + 1));
        }
        let ghost before = out@;
        if c == '\\' {
            if k + 1 >= s.len() {
                return None;
            }
            if s[k + 1] == 'u' {
                match read_hex4(s, k + 2) {
                    Some(code) => {
                        let ch = char_of_code(code);
                        out.push(ch);
                        proof {
                            match str_rest(s@, k + 6) {
                                Some((t, e)) => assert(before + (seq![ch] + t) == out@ + t),
                                None => {},
                            }
                        }
                        k = k + 6;
                    },
                    None => {
                        return None;
                    },
                }
            } else {
                let ch = unescape(s[k + 1]);
                out.push(ch);
                proof {
                    match str_rest(s@, k + 2) {
                        Some((t, e)) => assert(before + (seq![ch] + t) == out@ + t),
                        None => {},
                    }
                }
                k = k + 2;
            }
        } else {
            out.push(c);
            proof {
                match str_rest(s@, k + 1) {
                    Some((t, e)) => assert(before + (seq![c] + t) == out@ + t),
                    None => {},
                }
            }
            k = k + 1;
        }
    }
}

/// A decimal digit.
pub open spec fn is_digit(c: char) -> bool {
    '0' <= c && c <= '9'
}

/// A character that a number token may hold.
pub open spec fn num_char(c: char) -> bool {
    c == '-' || c == '+' || c == '.' || c == 'e' || c == 'E' || is_digit(c)
}

/// The end of the number token that starts at `i`.
pub open spec fn num_end(s: Seq<char>, i: int) -> int
    decreases s.len() - i,
{
    if 0 <= i < s.len() && num_char(s[i]) {
        num_end(s, i + 1)
    } else {
        i
    }
}

/// The end of the integer part of the number token `[i, e)`: the first '.',
/// 'e' or 'E', or `e`.
pub open spec fn int_end(s: Seq<char>, i: int, e: int) -> int
    decreases e - i,
{
    if i < e && s[i] != '.' && s[i] != 'e' && s[i] != 'E' {
        int_end(s, i + 1, e)
    } else {
        i
    }
}

/// The digits of an integer part, after its sign if it has one.
pub open spec fn unsigned_part(ip: Seq<char>) -> Seq<char> {
    if ip.len() > 0 && (ip[0] == '+' || ip[0] == '-') {
        ip.drop_first()
    } else {
        ip
    }
}

/// An integer part is well formed: an optional sign, then at least one digit.
pub open spec fn num_ok(ip: Seq<char>) -> bool {
    unsigned_part(ip).len() > 0 && all_digits(unsigned_part(ip))
}

/// The number that an integer part gives, where it is one that fits a `u32`.
pub open spec fn num_value(ip: Seq<char>) -> Option<u32> {
    if ip.len() > 0 && ip[0] == '-' {
        None
    } else {
        match number_below(ip, u32::MAX as nat + 1) {
            Some(v) => Some(v as u32),
            None => None,
        }
    }
}

/// `w` stands in `s` at `k`.
pub open spec fn word_at(s: Seq<char>, k: int, w: Seq<char>) -> bool {
    0 <= k && k + w.len() <= s.len() && s.subrange(k, k + w.len()) == w
}

/// A JSON value, as a mathematical value. Numbers keep only what the report
/// needs of them: their value where it is a `u32`.
pub enum JsonV {
    Null,
    Bool(bool),
    Num(Option<u32>),
    Str(Seq<char>),
    Arr(Seq<JsonV>),
    Obj(Seq<(Seq<char>, JsonV)>),
}

/// A JSON value read from a text.
#[derive(Debug)]
pub enum Json {
    Null,
    Bool(bool),
    Num(Option<u32>),
    Str(String),
    Arr(Vec<Json>),
    Obj(Vec<(String, Json)>),
}

/// The mathematical value of `x`.
pub open spec fn json_view(x: Json) -> JsonV
    decreases x,
{
    match x {
        Json::Null => JsonV::Null,
        Json::Bool(b) => JsonV::Bool(b),
        Json::Num(n) => JsonV::Num(n),
        Json::Str(t) => JsonV::Str(t@),
        Json::Arr(v) => {
            proof {
                assert(decreases_to!(v => v@));
            }
            JsonV::Arr(list_view(v@))
        },
        Json::Obj(v) => {
            proof {
                assert(decreases_to!(v => v@));
            }
            JsonV::Obj(fields_view(v@))
        },
    }
}

/// The mathematical values of the items of a list.
pub open spec fn list_view(s: Seq<Json>) -> Seq<JsonV>
    decreases s,
{
    if s.len() == 0 {
        Seq::empty()
    } else {
        proof {
            assert(decreases_to!(s => s[s.len() - 1]));
        }
        list_view(s.drop_last()).push(json_view(s.last()))
    }
}

/// The keys and the mathematical values of the fields of an object.
pub open spec fn fields_view(s: Seq<(String, Json)>) -> Seq<(Seq<char>, JsonV)>
    decreases s,
{
    if s.len() == 0 {
        Seq::empty()
    } else {
        proof {
            assert(decreases_to!(s => s[s.len() - 1]));
            assert(decreases_to!(s[s.len() - 1] => s[s.len() - 1].1));
        }
        fields_view(s.drop_last()).push((s.last().0@, json_view(s.last().1)))
    }
}

/// The value that starts at the first non-blank position from `i`, and the
/// position after it.
pub open spec fn p_value(s: Seq<char>, i: int) -> Option<(JsonV, int)>
    decreases s.len() - i, 1int,
{
    if i < 0 || i > s.len() {
        None
    } else {
        proof {
            lemma_skip_ws(s, i);
        }
        let k = skip_ws(s, i);
        if k >= s.len() {
            None
        } else if s[k] == '{' {
            proof {
                lemma_skip_ws(s, k + 1);
            }
            let m = skip_ws(s, k + 1);
            if m < s.len() && s[m] == '}' {
                Some((JsonV::Obj(Seq::empty()), m + 1))
            } else {
                match p_members(s, k + 1) {
                    Some((fs, e)) => Some((JsonV::Obj(fs), e)),
                    None => None,
                }
            }
        } else if s[k] == '[' {
            proof {
                lemma_skip_ws(s, k + 1);
            }
            let m = skip_ws(s, k + 1);
            if m < s.len() && s[m] == ']' {
                Some((JsonV::Arr(Seq::empty()), m + 1))
            } else {
                match p_elems(s, k + 1) {
                    Some((vs, e)) => Some((JsonV::Arr(vs), e)),
                    None => None,
                }
            }
        } else if s[k] == '"' {
            match str_rest(s, k + 1) {
                Some((t, e)) => Some((JsonV::Str(t), e)),
                None => None,
            }
        } else if s[k] == 't' {
            if word_at(s, k, "true"@) {
                Some((JsonV::Bool(true), k + 4))
            } else {
                None
            }
        } else if s[k] == 'f' {
            if word_at(s, k, "false"@) {
                Some((JsonV::Bool(false), k + 5))
            } else {
                None
            }
        } else if s[k] == 'n' {
            if word_at(s, k, "null"@) {
                Some((JsonV::Null, k + 4))
            } else {
                None
            }
        } else if s[k] == '-' || is_digit(s[k]) {
            let e = num_end(s, k);
            let ip = s.subrange(k, int_end(s, k, e));
            if num_ok(ip) {
                Some((JsonV::Num(num_value(ip)), e))
            } else {
                None
            }
        } else {
            None
        }
    }
}

/// The items of an array from `i` (just after its '[' or a ',') to its
/// closing ']', and the position after that.
pub open spec fn p_elems(s: Seq<char>, i: int) -> Option<(Seq<JsonV>, int)>
    decreases s.len() - i, 2int,
{
    if i < 0 || i > s.len() {
        None
    } else {
        match p_value(s, i) {
            Some((v, j)) => {
                if j <= i || j > s.len() {
                    None
                } else {
                    proof {
                        lemma_skip_ws(s, j);
                    }
                    let m = skip_ws(s, j);
                    if m < s.len() && s[m] == ',' {
                        match p_elems(s, m + 1) {
                            Some((vs, e)) => Some((seq![v] + vs, e)),
                            None => None,
                        }
                    } else if m < s.len() && s[m] == ']' {
                        Some((seq![v], m + 1))
                    } else {
                        None
                    }
                }
            },
            None => None,
        }
    }
}

/// The fields of an object from `i` (just after its '{' or a ',') to its
/// closing '}', and the position after that.
pub open spec fn p_members(s: Seq<char>, i: int) -> Option<(Seq<(Seq<char>, JsonV)>, int)>
    decreases s.len() - i, 2int,
{
    if i < 0 || i > s.len() {
        None
    } else {
        proof {
            lemma_skip_ws(s, i);
        }
        let a = skip_ws(s, i);
        if a >= s.len() || s[a] != '"' {
            None
        } else {
            proof {
                lemma_str_rest(s, a + 1);
            }
            match str_rest(s, a + 1) {
                Some((key, b)) => {
                    proof {
                        lemma_skip_ws(s, b);
                    }
                    let c = skip_ws(s, b);
                    if c >= s.len() || s[c] != ':' {
                        None
                    } else {
                        match p_value(s, c + 1) {
                            Some((v, j)) => {
                                if j <= c + 1 || j > s.len() {
                                    None
                                } else {
                                    proof {
                                        lemma_skip_ws(s, j);
                                    }
                                    let m = skip_ws(s, j);
                                    if m < s.len() && s[m] == ',' {
                                        match p_members(s, m + 1) {
                                            Some((fs, e)) => Some((seq![(key, v)] + fs, e)),
                                            None => None,
                                        }
                                    } else if m < s.len() && s[m] == '}' {
                                        Some((seq![(key, v)], m + 1))
                                    } else {
                                        None
                                    }
                                }
                            },
                            None => None,
                        }
                    }
                },
                None => None,
            }
        }
    }
}

/// The end of the number token that starts at `i`.
fn number_end(s: &Vec<char>, i: usize) -> (r: usize)
    requires
        i <= s@.len(),
    ensures
        r == num_end(s@, i as int),
        i <= r <= s@.len(),
{
    let mut k = i;
    while k < s.len() && (s[k] == '-' || s[k] == '+' || s[k] == '.' || s[k] == 'e' || s[k] == 'E' || ('0'
        <= s[k] && s[k] <= '9'))
        invariant
            i <= k <= s@.len(),
            num_end(s@, i as int) == num_end(s@, k as int),
        decreases s.len() - k,
    {
        k = k + 1;
    }
    k
}

/// The end of the integer part of the number token `[i, e)`.
fn integer_end(s: &Vec<char>, i: usize, e: usize) -> (r: usize)
    requires
        i <= e <= s@.len(),
    ensures
        r == int_end(s@, i as int, e as int),
        i <= r <= e,
{
    let mut k = i;
    while k < e && s[k] != '.' && s[k] != 'e' && s[k] != 'E'
        invariant
            i <= k <= e,
            e <= s@.len(),
            int_end(s@, i as int, e as int) == int_end(s@, k as int, e as int),
        decreases e - k,
    {
        k = k + 1;
    }
    k
}

/// The integer part `[a, b)` is well formed.
fn number_ok(s: &Vec<char>, a: usize, b: usize) -> (r: bool)
    requires
        a <= b <= s@.len(),
    ensures
        r == num_ok(s@.subrange(a as int, b as int)),
{
    let ghost ip = s@.subrange(a as int, b as int);
    let start: usize = if a < b && (s[a] == '+' || s[a] == '-') {
        a + 1
    } else {
        a
    };
    proof {
        assert(unsigned_part(ip) == s@.subrange(start as int, b as int));
    }
    if start >= b {
        return false;
    }
    let mut k = start;
    while k < b
        invariant
            start <= k <= b,
            b <= s@.len(),
            ip == s@.subrange(a as int, b as int),
            unsigned_part(ip) == s@.subrange(start as int, b as int),
            forall|q: int| start <= q < k ==> 48 <= (#[trigger] s@[q] as u32) <= 57,
        decreases b - k,
    {
        let cu = s[k] as u32;
        if cu < 48 || cu > 57 {
            assert(unsigned_part(ip)[k - start] == s@[k as int]);
            assert(!(48 <= (unsigned_part(ip)[k - start] as u32) <= 57));
            return false;
        }
        k = k + 1;
    }
    assert forall|q: int| 0 <= q < unsigned_part(ip).len() implies 48 <= (#[trigger] unsigned_part(ip)[q] as u32)
        <= 57 by {
        assert(unsigned_part(ip)[q] == s@[start + q]);
    }
    true
}

/// The number that the integer part `[a, b)` gives, where it fits a `u32`.
fn number_value(s: &Vec<char>, a: usize, b: usize) -> (r: Option<u32>)
    requires
        a <= b <= s@.len(),
    ensures
        r == num_value(s@.subrange(a as int, b as int)),
{
    if a < b && s[a] == '-' {
        return None;
    }
    let t = string_between(s, a, b);
    match parse_u64(t.as_str()) {
        Some(v) => {
            if v <= u32::MAX as u64 {
                Some(v as u32)
            } else {
                None
            }
        },
        None => None,
    }
}

/// `w` stands in `s` at `k`.
fn word_here(s: &Vec<char>, k: usize, w: &str) -> (r: bool)
    ensures
        r == word_at(s@, k as int, w@),
{
    let ws = chars_of(w);
    if k > s.len() || s.len() - k < ws.len() {
        return false;
    }
    let mut q: usize = 0;
    while q < ws.len()
        invariant
            q <= ws@.len(),
            ws@ == w@,
            k + ws.len() <= s.len(),
            forall|x: int| 0 <= x < q ==> s@[k + x] == #[trigger] ws@[x],
        decreases ws.len() - q,
    {
        if s[k + q] != ws[q] {
            assert(s@.subrange(k as int, k + w@.len())[q as int] == s@[k + q]);
            return false;
        }
        q = q + 1;
    }
    assert(s@.subrange(k as int, k + w@.len()) =~= w@);
    true
}

/// `vs` put in front of the items of a read.
pub open spec fn prepend_items(vs: Seq<JsonV>, r: Option<(Seq<JsonV>, int)>) -> Option<(Seq<JsonV>, int)> {
    match r {
        Some((t, e)) => Some((vs + t, e)),
        None => None,
    }
}

/// `fs` put in front of the fields of a read.
pub open spec fn prepend_fields(
    fs: Seq<(Seq<char>, JsonV)>,
    r: Option<(Seq<(Seq<char>, JsonV)>, int)>,
) -> Option<(Seq<(Seq<char>, JsonV)>, int)> {
    match r {
        Some((t, e)) => Some((fs + t, e)),
        None => None,
    }
}

/// Reads the value that starts at the first non-blank position from `i`:
/// the value and the position after it, or `None` where the text there is
/// no value.
pub fn read_value(s: &Vec<char>, i: usize) -> (r: Option<(Json, usize)>)
    ensures
        match p_value(s@, i as int) {
            Some((v, e)) => r matches Some((x, k)) && json_view(x) == v && k == e,
            None => r is None,
        },
        r matches Some((x, k)) ==> i < k <= s@.len(),
    decreases s@.len() - i,
{
    if i > s.len() {
        return None;
    }
    proof {
        lemma_skip_ws(s@, i as int);
    }
    let k = skip_spaces(s, i);
    if k >= s.len() {
        return None;
    }
    let c = s[k];
    if c == '{' {
        proof {
            lemma_skip_ws(s@, k + 1);
        }
        let m0 = skip_spaces(s, k + 1);
        if m0 < s.len() && s[m0] == '}' {
            return Some((Json::Obj(Vec::new()), m0 + 1));
        }
        let mut fields: Vec<(String, Json)> = Vec::new();
        let mut pos = k + 1;
        proof {
            assert(fields_view(fields@) == Seq::<(Seq<char>, JsonV)>::empty());
            assert(prepend_fields(Seq::empty(), p_members(s@, pos as int)) == p_members(s@, pos as int)) by {
                match p_members(s@, pos as int) {
                    Some((t, e)) => assert(Seq::<(Seq<char>, JsonV)>::empty() + t == t),
                    None => {},
                }
            }
        }
        loop
            invariant
                i <= k < pos <= s@.len(),
                s@[k as int] == '{',
                k == skip_ws(s@, i as int),
                !(skip_ws(s@, k + 1) < s@.len() && s@[skip_ws(s@, k + 1)] == '}'),
                p_members(s@, k + 1) == prepend_fields(fields_view(fields@), p_members(s@, pos as int)),
            decreases s@.len() - pos,
        {
            proof {
                lemma_skip_ws(s@, pos as int);
            }
            let a = skip_spaces(s, pos);
            if a >= s.len() || s[a] != '"' {
                return None;
            }
            proof {
                lemma_str_rest(s@, a + 1);
            }
            let (key, b) = match read_str_rest(s, a + 1) {
                Some(x) => x,
                None => {
                    return None;
                },
            };
            proof {
                lemma_skip_ws(s@, b as int);
            }
            let c2 = skip_spaces(s, b);
            if c2 >= s.len() || s[c2] != ':' {
                return None;
            }
            let (v, j) = match read_value(s, c2 + 1) {
                Some(x) => x,
                None => {
                    return None;
                },
            };
            proof {
                lemma_skip_ws(s@, j as int);
            }
            let m = skip_spaces(s, j);
            let ghost before = fields_view(fields@);
            let ghost kv = (key@, json_view(v));
            let ghost old_f = fields@;
            let ghost pair = (key, v);
            if m < s.len() && s[m] == ',' {
                fields.push((key, v));
                proof {
                    assert(fields@.drop_last() == old_f);
                    assert(fields@.last() == pair);
                    assert(fields_view(fields@) == before.push(kv));
                    match p_members(s@, m + 1) {
                        Some((t, e)) => assert(before.push(kv) + t == before + (seq![kv] + t)),
                        None => {},
                    }
                }
                pos = m + 1;
            } else if m < s.len() && s[m] == '}' {
                fields.push((key, v));
                proof {
                    assert(fields@.drop_last() == old_f);
                    assert(fields@.last() == pair);
                    assert(fields_view(fields@) == before.push(kv));
                    assert(before.push(kv) == before + seq![kv]);
                }
                return Some((Json::Obj(fields), m + 1));
            } else {
                return None;
            }
        }
    } else if c == '[' {
        proof {
            lemma_skip_ws(s@, k + 1);
        }
        let m0 = skip_spaces(s, k + 1);
        if m0 < s.len() && s[m0] == ']' {
            return Some((Json::Arr(Vec::new()), m0 + 1));
        }
        let mut items: Vec<Json> = Vec::new();
        let mut pos = k + 1;
        proof {
            assert(list_view(items@) == Seq::<JsonV>::empty());
            assert(prepend_items(Seq::empty(), p_elems(s@, pos as int)) == p_elems(s@, pos as int)) by {
                match p_elems(s@, pos as int) {
                    Some((t, e)) => assert(Seq::<JsonV>::empty() + t == t),
                    None => {},
                }
            }
        }
        loop
            invariant
                i <= k < pos <= s@.len(),
                s@[k as int] == '[',
                k == skip_ws(s@, i as int),
                !(skip_ws(s@, k + 1) < s@.len() && s@[skip_ws(s@, k + 1)] == ']'),
                p_elems(s@, k + 1) == prepend_items(list_view(items@), p_elems(s@, pos as int)),
            decreases s@.len() - pos,
        {
            let (v, j) = match read_value(s, pos) {
                Some(x) => x,
                None => {
                    return None;
                },
            };
            proof {
                lemma_skip_ws(s@, j as int);
            }
            let m = skip_spaces(s, j);
            let ghost before = list_view(items@);
            let ghost jv = json_view(v);
            let ghost old_i = items@;
            let ghost vg = v;
            if m < s.len() && s[m] == ',' {
                items.push(v);
                proof {
                    assert(items@.drop_last() == old_i);
                    assert(items@.last() == vg);
                    assert(list_view(items@) == before.push(jv));
                    match p_elems(s@, m + 1) {
                        Some((t, e)) => assert(before.push(jv) + t == before + (seq![jv] + t)),
                        None => {},
                    }
                }
                pos = m + 1;
            } else if m < s.len() && s[m] == ']' {
                items.push(v);
                proof {
                    assert(items@.drop_last() == old_i);
                    assert(items@.last() == vg);
                    assert(list_view(items@) == before.push(jv));
                    assert(before.push(jv) == before + seq![jv]);
                }
                return Some((Json::Arr(items), m + 1));
            } else {
                return None;
            }
        }
    } else if c == '"' {
        proof {
            lemma_str_rest(s@, k + 1);
        }
        match read_str_rest(s, k + 1) {
            Some((t, e)) => Some((Json::Str(t), e)),
            None => None,
        }
    } else if c == 't' {
        proof {
            reveal_strlit("true");
        }
        if word_here(s, k, "true") {
            Some((Json::Bool(true), k + 4))
        } else {
            None
        }
    } else if c == 'f' {
        proof {
            reveal_strlit("false");
        }
        if word_here(s, k, "false") {
            Some((Json::Bool(false), k + 5))
        } else {
            None
        }
    } else if c == 'n' {
        proof {
            reveal_strlit("null");
        }
        if word_here(s, k, "null") {
            Some((Json::Null, k + 4))
        } else {
            None
        }
    } else if c == '-' || ('0' <= c && c <= '9') {
        let e = number_end(s, k + 1);
        assert(num_end(s@, k as int) == num_end(s@, k + 1));
        let ie = integer_end(s, k, e);
        if !number_ok(s, k, ie) {
            return None;
        }
        let val = number_value(s, k, ie);
        Some((Json::Num(val), e))
    } else {
        None
    }
}

/// The value of the first field named `key` among `fs`.
pub open spec fn field_in(fs: Seq<(Seq<char>, JsonV)>, key: Seq<char>) -> Option<JsonV>
    decreases fs.len(),
{
    if fs.len() == 0 {
        None
    } else if fs[0].0 == key {
        Some(fs[0].1)
    } else {
        field_in(fs.drop_first(), key)
    }
}

/// The value of field `key` of an object (the first of that name); nothing
/// for a value that is no object.
pub open spec fn lookup(v: JsonV, key: Seq<char>) -> Option<JsonV> {
    match v {
        JsonV::Obj(fs) => field_in(fs, key),
        _ => None,
    }
}

/// The text of a string value.
pub open spec fn as_text(v: Option<JsonV>) -> Option<Seq<char>> {
    match v {
        Some(JsonV::Str(t)) => Some(t),
        _ => None,
    }
}

/// The `u32` of a number value.
pub open spec fn as_num(v: Option<JsonV>) -> Option<u32> {
    match v {
        Some(JsonV::Num(n)) => n,
        _ => None,
    }
}

/// The items of an array value; none for anything else.
pub open spec fn as_list(v: Option<JsonV>) -> Seq<JsonV> {
    match v {
        Some(JsonV::Arr(xs)) => xs,
        _ => Seq::empty(),
    }
}

/// A text, or `d` where there is none.
pub open spec fn text_or(t: Option<Seq<char>>, d: Seq<char>) -> Seq<char> {
    match t {
        Some(x) => x,
        None => d,
    }
}

/// The old and new line numbers of one aligned row `[old, new]`.
pub open spec fn aligned_of(row: JsonV) -> (Option<u32>, Option<u32>) {
    let p = as_list(Some(row));
    (
        if p.len() > 0 {
            as_num(Some(p[0]))
        } else {
            None
        },
        if p.len() > 1 {
            as_num(Some(p[1]))
        } else {
            None
        },
    )
}

/// A changed region, where it has a start and an end.
pub open spec fn change_of(c: JsonV) -> Option<Change> {
    match (as_num(lookup(c, "start"@)), as_num(lookup(c, "end"@))) {
        (Some(a), Some(b)) => Some(
            Change {
                start: a,
                end: b,
                highlight: spec_highlight_named(text_or(as_text(lookup(c, "highlight"@)), "normal"@)),
            },
        ),
        _ => None,
    }
}

/// The changed regions of a list, those without a start or an end left out.
pub open spec fn changes_of(cs: Seq<JsonV>) -> Seq<Change>
    decreases cs.len(),
{
    if cs.len() == 0 {
        Seq::empty()
    } else {
        let rest = changes_of(cs.drop_last());
        match change_of(cs.last()) {
            Some(ch) => rest.push(ch),
            None => rest,
        }
    }
}

/// `r` is what one side of a line pair reads as: nothing where the side is
/// missing or has no line number, else that line and its changed regions.
pub open spec fn side_read(v: Option<JsonV>, r: Option<SideChange>) -> bool {
    match v {
        None => r is None,
        Some(x) => match as_num(lookup(x, "line_number"@)) {
            None => r is None,
            Some(n) => r matches Some(sc) && sc.line_number == n && sc.changes@ == changes_of(
                as_list(lookup(x, "changes"@)),
            ),
        },
    }
}

/// `r` is what a line pair reads as.
pub open spec fn line_read(v: JsonV, r: LineChange) -> bool {
    side_read(lookup(v, "lhs"@), r.lhs) && side_read(lookup(v, "rhs"@), r.rhs)
}

/// `r` is what a list of line pairs reads as.
pub open spec fn chunk_read(v: JsonV, r: Seq<LineChange>) -> bool {
    let ls = as_list(Some(v));
    r.len() == ls.len() && forall|l: int| 0 <= l < ls.len() ==> line_read(ls[l], #[trigger] r[l])
}

/// `f` is what a file object reads as: its path (empty where missing), and
/// the rest as `file_body_read` says.
pub open spec fn file_read(v: JsonV, f: DifftFile) -> bool {
    &&& f.path@ == text_or(as_text(lookup(v, "path"@)), Seq::empty())
    &&& file_body_read(v, f)
}

/// `f` is, but for its path, what a file object reads as: its language
/// ("Text" where missing), its status ("unchanged" where missing), its
/// aligned rows and its chunks of line pairs.
pub open spec fn file_body_read(v: JsonV, f: DifftFile) -> bool {
    let chunks = as_list(lookup(v, "chunks"@));
    &&& f.language@ == text_or(as_text(lookup(v, "language"@)), "Text"@)
    &&& f.status == spec_status_named(text_or(as_text(lookup(v, "status"@)), "unchanged"@))
    &&& f.aligned_lines@ == as_list(lookup(v, "aligned_lines"@)).map_values(|row: JsonV| aligned_of(row))
    &&& f.chunks@.len() == chunks.len()
    &&& forall|c: int| 0 <= c < chunks.len() ==> chunk_read(chunks[c], #[trigger] f.chunks@[c]@)
}

/// The file values of a report: the items of a top-level array, or a
/// top-level object alone; nothing where the text is no such value.
pub open spec fn report_files(s: Seq<char>) -> Option<Seq<JsonV>> {
    match p_value(s, 0) {
        Some((JsonV::Arr(items), _)) => Some(items),
        Some((JsonV::Obj(fs), _)) => Some(seq![JsonV::Obj(fs)]),
        _ => None,
    }
}

/// The items of a list, viewed one by one.
pub proof fn lemma_list_view(s: Seq<Json>)
    ensures
        list_view(s).len() == s.len(),
        forall|q: int| 0 <= q < s.len() ==> #[trigger] list_view(s)[q] == json_view(s[q]),
    decreases s.len(),
{
    if s.len() > 0 {
        lemma_list_view(s.drop_last());
    }
}

/// The fields of an object, viewed one by one.
pub proof fn lemma_fields_view(s: Seq<(String, Json)>)
    ensures
        fields_view(s).len() == s.len(),
        forall|q: int| 0 <= q < s.len() ==> #[trigger] fields_view(s)[q] == (s[q].0@, json_view(s[q].1)),
    decreases s.len(),
{
    if s.len() > 0 {
        lemma_fields_view(s.drop_last());
    }
}

/// The mathematical value of an optional value.
pub open spec fn opt_view(v: Option<&Json>) -> Option<JsonV> {
    match v {
        Some(x) => Some(json_view(*x)),
        None => None,
    }
}

/// The value of field `key` of `v` (the first of that name), where `v` is an
/// object that has one.
fn field<'a>(v: &'a Json, key: &str) -> (r: Option<&'a Json>)
    ensures
        opt_view(r) == lookup(json_view(*v), key@),
{
    match v {
        Json::Obj(fs) => {
            let ghost fv = fields_view(fs@);
            proof {
                lemma_fields_view(fs@);
                assert(fv.skip(0) == fv);
            }
            let mut q: usize = 0;
            while q < fs.len()
                invariant
                    q <= fs@.len(),
                    fv == fields_view(fs@),
                    fv.len() == fs@.len(),
                    forall|t: int| 0 <= t < fs@.len() ==> #[trigger] fv[t] == (fs@[t].0@, json_view(fs@[t].1)),
                    json_view(*v) == JsonV::Obj(fv),
                    field_in(fv, key@) == field_in(fv.skip(q as int), key@),
                decreases fs.len() - q,
            {
                let pair = &fs[q];
                proof {
                    assert(fv.skip(q as int).drop_first() == fv.skip(q + 1));
                    assert(fv.skip(q as int)[0] == fv[q as int]);
                }
                if str_eq(pair.0.as_str(), key) {
                    return Some(&pair.1);
                }
                q = q + 1;
            }
            proof {
                assert(fv.skip(q as int).len() == 0);
            }
            None
        },
        _ => None,
    }
}

/// The text of a string value.
fn text_of(v: Option<&Json>) -> (r: Option<&str>)
    ensures
        match as_text(opt_view(v)) {
            Some(t) => r matches Some(x) && x@ == t,
            None => r is None,
        },
{
    match v {
        Some(Json::Str(t)) => Some(t.as_str()),
        _ => None,
    }
}

/// The `u32` of a number value.
fn num_of(v: Option<&Json>) -> (r: Option<u32>)
    ensures
        r == as_num(opt_view(v)),
{
    match v {
        Some(Json::Num(n)) => *n,
        _ => None,
    }
}

/// The items of an array value.
fn list_of<'a>(v: Option<&'a Json>) -> (r: Option<&'a Vec<Json>>)
    ensures
        match r {
            Some(xs) => as_list(opt_view(v)) == list_view(xs@),
            None => as_list(opt_view(v)) == Seq::<JsonV>::empty(),
        },
{
    match v {
        Some(Json::Arr(xs)) => Some(xs),
        _ => None,
    }
}

/// The old and new line numbers of one aligned row.
fn aligned_row(row: &Json) -> (r: (Option<u32>, Option<u32>))
    ensures
        r == aligned_of(json_view(*row)),
{
    match list_of(Some(row)) {
        Some(p) => {
            proof {
                lemma_list_view(p@);
            }
            let a = if p.len() > 0 {
                num_of(Some(&p[0]))
            } else {
                None
            };
            let b = if p.len() > 1 {
                num_of(Some(&p[1]))
            } else {
                None
            };
            (a, b)
        },
        None => (None, None),
    }
}

/// A changed region, where it has a start and an end.
fn change_at(c: &Json) -> (r: Option<Change>)
    ensures
        r == change_of(json_view(*c)),
{
    match (num_of(field(c, "start")), num_of(field(c, "end"))) {
        (Some(a), Some(b)) => {
            let h = match text_of(field(c, "highlight")) {
                Some(t) => highlight_named(t),
                None => highlight_named("normal"),
            };
            Some(Change { start: a, end: b, highlight: h })
        },
        _ => None,
    }
}

/// What one side of a line pair reads as.
fn side_at(v: Option<&Json>) -> (r: Option<SideChange>)
    ensures
        side_read(opt_view(v), r),
{
    match v {
        None => None,
        Some(x) => match num_of(field(x, "line_number")) {
            None => None,
            Some(n) => {
                let mut changes: Vec<Change> = Vec::new();
                match list_of(field(x, "changes")) {
                    Some(cs) => {
                        let ghost lv = list_view(cs@);
                        proof {
                            lemma_list_view(cs@);
                            assert(lv.take(0) == Seq::<JsonV>::empty());
                        }
                        let mut q: usize = 0;
                        while q < cs.len()
                            invariant
                                q <= cs@.len(),
                                lv == list_view(cs@),
                                lv.len() == cs@.len(),
                                forall|t: int| 0 <= t < cs@.len() ==> #[trigger] lv[t] == json_view(cs@[t]),
                                changes@ == changes_of(lv.take(q as int)),
                            decreases cs.len() - q,
                        {
                            proof {
                                assert(lv.take(q + 1).drop_last() == lv.take(q as int));
                                assert(lv.take(q + 1).last() == lv[q as int]);
                            }
                            match change_at(&cs[q]) {
                                Some(ch) => {
                                    changes.push(ch);
                                },
                                None => {},
                            }
                            q = q + 1;
                        }
                        proof {
                            assert(lv.take(q as int) == lv);
                        }
                    },
                    None => {},
                }
                Some(SideChange { line_number: n, changes })
            },
        },
    }
}

/// What a list of line pairs reads as.
fn chunk_at(v: &Json) -> (r: Vec<LineChange>)
    ensures
        chunk_read(json_view(*v), r@),
{
    let mut out: Vec<LineChange> = Vec::new();
    match list_of(Some(v)) {
        Some(ls) => {
            proof {
                lemma_list_view(ls@);
            }
            let mut q: usize = 0;
            while q < ls.len()
                invariant
                    q <= ls@.len(),
                    list_view(ls@).len() == ls@.len(),
                    forall|t: int| 0 <= t < ls@.len() ==> #[trigger] list_view(ls@)[t] == json_view(ls@[t]),
                    as_list(Some(json_view(*v))) == list_view(ls@),
                    out@.len() == q,
                    forall|l: int| 0 <= l < q ==> line_read(list_view(ls@)[l], #[trigger] out@[l]),
                decreases ls.len() - q,
            {
                let line = &ls[q];
                let lc = LineChange { lhs: side_at(field(line, "lhs")), rhs: side_at(field(line, "rhs")) };
                out.push(lc);
                proof {
                    assert(list_view(ls@)[q as int] == json_view(*line));
                }
                q = q + 1;
            }
        },
        None => {},
    }
    out
}

/// What a file object reads as.
pub fn file_at(v: &Json) -> (r: DifftFile)
    ensures
        file_read(json_view(*v), r),
{
    let path = match text_of(field(v, "path")) {
        Some(t) => t.to_owned(),
        None => String::new(),
    };
    let language = match text_of(field(v, "language")) {
        Some(t) => t.to_owned(),
        None => "Text".to_owned(),
    };
    let status = match text_of(field(v, "status")) {
        Some(t) => status_named(t),
        None => status_named("unchanged"),
    };
    let mut aligned_lines: Vec<(Option<u32>, Option<u32>)> = Vec::new();
    let ghost rows_v = as_list(lookup(json_view(*v), "aligned_lines"@));
    match list_of(field(v, "aligned_lines")) {
        Some(rows) => {
            proof {
                lemma_list_view(rows@);
            }
            let mut q: usize = 0;
            while q < rows.len()
                invariant
                    q <= rows@.len(),
                    rows_v == list_view(rows@),
                    rows_v.len() == rows@.len(),
                    forall|t: int| 0 <= t < rows@.len() ==> #[trigger] rows_v[t] == json_view(rows@[t]),
                    aligned_lines@ == rows_v.take(q as int).map_values(|row: JsonV| aligned_of(row)),
                decreases rows.len() - q,
            {
                let a = aligned_row(&rows[q]);
                aligned_lines.push(a);
                proof {
                    assert(rows_v.take(q + 1).map_values(|row: JsonV| aligned_of(row)) == rows_v.take(
                        q as int,
                    ).map_values(|row: JsonV| aligned_of(row)).push(aligned_of(rows_v[q as int])));
                }
                q = q + 1;
            }
            proof {
                assert(rows_v.take(q as int) == rows_v);
            }
        },
        None => {
            proof {
                assert(rows_v.map_values(|row: JsonV| aligned_of(row)) == Seq::<(Option<u32>, Option<u32>)>::empty());
            }
        },
    }
    let mut chunks: Vec<Vec<LineChange>> = Vec::new();
    let ghost cv = as_list(lookup(json_view(*v), "chunks"@));
    match list_of(field(v, "chunks")) {
        Some(cs) => {
            proof {
                lemma_list_view(cs@);
            }
            let mut q: usize = 0;
            while q < cs.len()
                invariant
                    q <= cs@.len(),
                    cv == list_view(cs@),
                    cv.len() == cs@.len(),
                    forall|t: int| 0 <= t < cs@.len() ==> #[trigger] cv[t] == json_view(cs@[t]),
                    chunks@.len() == q,
                    forall|c: int| 0 <= c < q ==> chunk_read(cv[c], #[trigger] chunks@[c]@),
                decreases cs.len() - q,
            {
                let ch = chunk_at(&cs[q]);
                chunks.push(ch);
                proof {
                    assert(cv[q as int] == json_view(cs@[q as int]));
                }
                q = q + 1;
            }
        },
        None => {},
    }
    DifftFile { path, language, status, aligned_lines, chunks }
}

/// Why a text is no report: it holds no JSON value, or one of another kind.
pub open spec fn report_error(s: Seq<char>) -> Seq<char> {
    if p_value(s, 0) is None {
        "malformed JSON"@
    } else {
        "expected an object or an array"@
    }
}

/// Reads the files of a difftastic JSON report: a top-level array of file
/// objects, or one file object. Fails with "malformed JSON" where the text
/// holds no JSON value, and with "expected an object or an array" where the
/// value is of another kind.
pub fn parse_report(json: &str) -> (r: Result<Vec<DifftFile>, String>)
    ensures
        match report_files(json@) {
            Some(vs) => r matches Ok(fs) && fs@.len() == vs.len() && forall|q: int|
                0 <= q < vs.len() ==> file_read(vs[q], #[trigger] fs@[q]),
            None => r matches Err(m) && m@ == report_error(json@),
        },
{
    let cs = chars_of(json);
    match read_value(&cs, 0) {
        None => Err("malformed JSON".to_owned()),
        Some((v, _)) => match &v {
            Json::Arr(items) => {
                proof {
                    lemma_list_view(items@);
                }
                let mut out: Vec<DifftFile> = Vec::new();
                let mut q: usize = 0;
                while q < items.len()
                    invariant
                        q <= items@.len(),
                        list_view(items@).len() == items@.len(),
                        forall|t: int| 0 <= t < items@.len() ==> #[trigger] list_view(items@)[t] == json_view(items@[t]),
                        out@.len() == q,
                        forall|k: int| 0 <= k < q ==> file_read(list_view(items@)[k], #[trigger] out@[k]),
                    decreases items.len() - q,
                {
                    let f = file_at(&items[q]);
                    out.push(f);
                    proof {
                        assert(list_view(items@)[q as int] == json_view(items@[q as int]));
                    }
                    q = q + 1;
                }
                Ok(out)
            },
            Json::Obj(_) => {
                let f = file_at(&v);
                let mut out: Vec<DifftFile> = Vec::new();
                out.push(f);
                Ok(out)
            },
            _ => Err("expected an object or an array".to_owned()),
        },
    }
}

} // verus!
