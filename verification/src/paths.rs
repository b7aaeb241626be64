//! Paths compared as `std::path::Path` compares them: by their components,
//! so that `a//b`, `a/./b`, `a/b/` and `a/b` are one path.

use vstd::prelude::*;

use crate::app::str_eq;
use crate::text::{chars_of, index_of_char, lemma_index_of_char, string_between};

verus! {

/// The pieces of `s` between its '/'s, in order (one piece when it has none).
pub open spec fn pieces(s: Seq<char>) -> Seq<Seq<char>>
    decreases s.len(),
{
    proof {
        lemma_index_of_char(s, '/');
    }
    let i = index_of_char(s, '/');
    if i == s.len() {
        seq![s]
    } else {
        seq![s.take(i)] + pieces(s.skip(i + 1))
    }
}

/// The pieces that name something: neither empty nor ".".
pub open spec fn kept(ps: Seq<Seq<char>>) -> Seq<Seq<char>>
    decreases ps.len(),
{
    if ps.len() == 0 {
        Seq::empty()
    } else if ps[0].len() == 0 || ps[0] == "."@ {
        kept(ps.drop_first())
    } else {
        seq![ps[0]] + kept(ps.drop_first())
    }
}

/// What stands before the named pieces: the root "/" of an absolute path,
/// or "." for a relative path that starts with a "." piece.
pub open spec fn path_head(s: Seq<char>) -> Seq<Seq<char>> {
    if s.len() > 0 && s[0] == '/' {
        seq!["/"@]
    } else if pieces(s)[0] == "."@ {
        seq!["."@]
    } else {
        Seq::empty()
    }
}

/// The components of a path, as `Path::components` gives them: the root or
/// a leading ".", then the pieces that name something; repeated '/', "."
/// pieces further on and a final '/' leave no component.
pub open spec fn path_components(s: Seq<char>) -> Seq<Seq<char>> {
    path_head(s) + kept(pieces(s))
}

/// Two paths are the same path, as `Path` equality has it.
pub open spec fn same_path(a: Seq<char>, b: Seq<char>) -> bool {
    path_components(a) == path_components(b)
}

/// Keeping the pieces of a list that starts with `p` keeps `p` (where it
/// names something) and then the rest.
proof fn lemma_kept_front(p: Seq<char>, rest: Seq<Seq<char>>)
    ensures
        kept(seq![p] + rest) == if p.len() == 0 || p == "."@ {
            kept(rest)
        } else {
            seq![p] + kept(rest)
        },
{
    assert((seq![p] + rest).drop_first() == rest);
}

/// Whether the piece `cs[a..b]` is ".".
fn is_dot(cs: &Vec<char>, a: usize, b: usize) -> (r: bool)
    requires
        a <= b <= cs@.len(),
    ensures
        r == (cs@.subrange(a as int, b as int) == "."@),
{
    proof {
        reveal_strlit(".");
    }
    if b - a == 1 && cs[a] == '.' {
        assert(cs@.subrange(a as int, b as int) =~= "."@);
        true
    } else {
        if b - a == 1 {
            assert(cs@.subrange(a as int, b as int)[0] != "."@[0]);
        } else {
            assert(cs@.subrange(a as int, b as int).len() != "."@.len());
        }
        false
    }
}

/// The components of the path `s`.
pub fn components(s: &str) -> (r: Vec<String>)
    ensures
        r@.map_values(|c: String| c@) == path_components(s@),
{
    let cs = chars_of(s);
    let mut out: Vec<String> = Vec::new();
    let mut start: usize = 0;
    let mut first_dot = false;
    proof {
        assert(cs@.skip(0) == cs@);
        assert(out@.map_values(|c: String| c@) + kept(pieces(cs@)) == kept(pieces(cs@)));
    }
    loop
        invariant_except_break
            start <= cs@.len(),
            cs@ == s@,
            kept(pieces(s@)) == out@.map_values(|c: String| c@) + kept(pieces(cs@.skip(start as int))),
            start > 0 ==> first_dot == (pieces(s@)[0] == "."@),
        ensures
            cs@ == s@,
            kept(pieces(s@)) == out@.map_values(|c: String| c@),
            first_dot == (pieces(s@)[0] == "."@),
        decreases cs.len() - start,
    {
        let mut j = start;
        while j < cs.len() && cs[j] != '/'
            invariant
                start <= j <= cs@.len(),
                forall|q: int| start <= q < j ==> cs@[q] != '/',
            decreases cs.len() - j,
        {
            j = j + 1;
        }
        let ghost t = cs@.skip(start as int);
        proof {
            lemma_index_of_char(t, '/');
            let x = index_of_char(t, '/');
            if x < j - start {
                assert(t[x] == cs@[start + x]);
            }
            if j < cs.len() {
                assert(t[j - start] == cs@[j as int]);
            }
            assert(index_of_char(t, '/') == j - start);
        }
        let ghost piece = cs@.subrange(start as int, j as int);
        let ghost rest = if j < cs.len() {
            pieces(t.skip(j - start + 1))
        } else {
            Seq::<Seq<char>>::empty()
        };
        proof {
            assert(t.take(j - start) == piece);
            if j < cs.len() {
                assert(pieces(t) == seq![piece] + rest);
                assert(t.skip(j - start + 1) == cs@.skip(j + 1));
            } else {
                assert(t == piece);
                assert(pieces(t) == seq![piece]);
                assert(seq![piece] + rest == seq![piece]);
            }
            lemma_kept_front(piece, rest);
            if start == 0 {
                assert(t == s@);
                assert(pieces(s@)[0] == piece);
            }
        }
        let dot = is_dot(&cs, start, j);
        if start == 0 {
            first_dot = dot;
        }
        let ghost before = out@;
        if j > start && !dot {
            let p = string_between(&cs, start, j);
            out.push(p);
            proof {
                assert(out@.map_values(|c: String| c@) == before.map_values(|c: String| c@).push(piece));
                assert(before.map_values(|c: String| c@).push(piece) + kept(rest) == before.map_values(
                    |c: String| c@,
                ) + (seq![piece] + kept(rest)));
            }
        } else {
            assert(piece.len() == 0 || piece == "."@);
        }
        if j >= cs.len() {
            proof {
                assert(kept(rest) == Seq::<Seq<char>>::empty());
                assert(out@.map_values(|c: String| c@) + Seq::<Seq<char>>::empty() == out@.map_values(
                    |c: String| c@,
                ));
            }
            break;
        }
        proof {
            assert(rest == pieces(cs@.skip(j + 1)));
        }
        start = j + 1;
    }
    proof {
        reveal_strlit("/");
        reveal_strlit(".");
    }
    let mut r: Vec<String> = Vec::new();
    if cs.len() > 0 && cs[0] == '/' {
        r.push("/".to_owned());
    } else if first_dot {
        r.push(".".to_owned());
    }
    let ghost head = r@;
    proof {
        assert(head.map_values(|c: String| c@) == path_head(s@));
    }
    let mut k: usize = 0;
    while k < out.len()
        invariant
            k <= out@.len(),
            r@.map_values(|c: String| c@) == path_head(s@) + out@.take(k as int).map_values(|c: String| c@),
        decreases out.len() - k,
    {
        let ghost b = r@;
        let c = out[k].clone();
        r.push(c);
        proof {
            assert(out@.take(k + 1).map_values(|c: String| c@) == out@.take(k as int).map_values(
                |c: String| c@,
            ).push(out@[k as int]@));
            assert(r@.map_values(|c: String| c@) == b.map_values(|c: String| c@).push(out@[k as int]@));
        }
        k = k + 1;
    }
    proof {
        assert(out@.take(k as int) == out@);
    }
    r
}

/// Whether `a` and `b` are the same path, as `Path` equality has it.
pub fn paths_equal(a: &str, b: &str) -> (r: bool)
    ensures
        r == same_path(a@, b@),
{
    let ca = components(a);
    let cb = components(b);
    let ghost va = ca@.map_values(|c: String| c@);
    let ghost vb = cb@.map_values(|c: String| c@);
    if ca.len() != cb.len() {
        assert(va.len() != vb.len());
        return false;
    }
    let mut k: usize = 0;
    while k < ca.len()
        invariant
            k <= ca@.len(),
            ca@.len() == cb@.len(),
            va == ca@.map_values(|c: String| c@),
            vb == cb@.map_values(|c: String| c@),
            va == path_components(a@),
            vb == path_components(b@),
            forall|q: int| 0 <= q < k ==> va[q] == vb[q],
        decreases ca.len() - k,
    {
        if !str_eq(ca[k].as_str(), cb[k].as_str()) {
            assert(va[k as int] != vb[k as int]);
            assert(va != vb);
            return false;
        }
        k = k + 1;
    }
    assert(va =~= vb);
    true
}

} // verus!
