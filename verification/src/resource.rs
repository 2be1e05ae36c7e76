//! Resource references of the form `name:major.minor.patch/dir`, found in a
//! string as the pattern
//! `(?P<name>((\w|-|\.|_)+)):(?P<version>\d+\.\d+\.\d+)(?P<dir>[\w/]+)`
//! finds them: the leftmost match, and at that position the match that
//! greedy repetition prefers.

use vstd::prelude::*;

use crate::chars::{digit_class, is_digit_char, is_word_char, word_class};
use crate::tmpfs::all_digit_class;

verus! {

/// A character of the name part: `\w`, `-`, `.` or `_`.
pub open spec fn name_class(c: char) -> bool {
    word_class(c) || c == '-' || c == '.' || c == '_'
}

/// A character of the directory part: `\w` or `/`.
pub open spec fn dir_class(c: char) -> bool {
    word_class(c) || c == '/'
}

pub open spec fn all_name_class(s: Seq<char>, lo: int, hi: int) -> bool {
    forall|i: int| lo <= i < hi ==> #[trigger] name_class(s[i])
}

pub open spec fn all_dir_class(s: Seq<char>, lo: int, hi: int) -> bool {
    forall|i: int| lo <= i < hi ==> #[trigger] dir_class(s[i])
}

/// The pattern matches `s` from position `p` with groups of the lengths
/// `a` (name), `b`, `c`, `d` (the three numbers) and `e` (dir).
pub open spec fn match_at(s: Seq<char>, p: int, a: int, b: int, c: int, d: int, e: int) -> bool {
    &&& 0 <= p
    &&& 1 <= a && 1 <= b && 1 <= c && 1 <= d && 1 <= e
    &&& p + a + b + c + d + e + 3 <= s.len()
    &&& all_name_class(s, p, p + a)
    &&& s[p + a] == ':'
    &&& all_digit_class(s, p + a + 1, p + a + 1 + b)
    &&& s[p + a + 1 + b] == '.'
    &&& all_digit_class(s, p + a + 2 + b, p + a + 2 + b + c)
    &&& s[p + a + 2 + b + c] == '.'
    &&& all_digit_class(s, p + a + 3 + b + c, p + a + 3 + b + c + d)
    &&& all_dir_class(s, p + a + 3 + b + c + d, p + a + 3 + b + c + d + e)
}

/// `(a, b, c, d, e)` comes after `(a2, b2, c2, d2, e2)` in the order in which
/// greedy repetition tries them: longer groups first, earlier groups first.
pub open spec fn preferred(
    a: int,
    b: int,
    c: int,
    d: int,
    e: int,
    a2: int,
    b2: int,
    c2: int,
    d2: int,
    e2: int,
) -> bool {
    ||| a2 > a
    ||| a2 == a && b2 > b
    ||| a2 == a && b2 == b && c2 > c
    ||| a2 == a && b2 == b && c2 == c && d2 > d
    ||| a2 == a && b2 == b && c2 == c && d2 == d && e2 > e
}

/// `m` is the match that leftmost-first search reports: no match starts
/// earlier, and no match at the same start is preferred to it.
pub open spec fn leftmost_first(s: Seq<char>, m: (int, int, int, int, int, int)) -> bool {
    &&& match_at(s, m.0, m.1, m.2, m.3, m.4, m.5)
    &&& forall|p: int, a: int, b: int, c: int, d: int, e: int|
        #[trigger] match_at(s, p, a, b, c, d, e) ==> m.0 <= p
    &&& forall|a: int, b: int, c: int, d: int, e: int|
        #[trigger] match_at(s, m.0, a, b, c, d, e) ==> !preferred(m.1, m.2, m.3, m.4, m.5, a, b, c, d, e)
}

/// The pattern matches somewhere in `s`.
pub open spec fn has_match(s: Seq<char>) -> bool {
    exists|p: int, a: int, b: int, c: int, d: int, e: int| #[trigger] match_at(s, p, a, b, c, d, e)
}

/// The match that the search reports, if the pattern matches.
pub open spec fn resource_match(s: Seq<char>) -> Option<(int, int, int, int, int, int)> {
    if exists|m: (int, int, int, int, int, int)| leftmost_first(s, m) {
        Some(choose|m: (int, int, int, int, int, int)| leftmost_first(s, m))
    } else {
        None
    }
}

/// At most one match is the leftmost-first one.
pub proof fn lemma_leftmost_first_unique(
    s: Seq<char>,
    m: (int, int, int, int, int, int),
    n: (int, int, int, int, int, int),
)
    requires
        leftmost_first(s, m),
        leftmost_first(s, n),
    ensures
        m == n,
{
    assert(match_at(s, n.0, n.1, n.2, n.3, n.4, n.5));
    assert(match_at(s, m.0, m.1, m.2, m.3, m.4, m.5));
    assert(m.0 == n.0);
    assert(!preferred(m.1, m.2, m.3, m.4, m.5, n.1, n.2, n.3, n.4, n.5));
    assert(!preferred(n.1, n.2, n.3, n.4, n.5, m.1, m.2, m.3, m.4, m.5));
}

/// The classes of the characters of `v`.
struct Classes {
    word: Vec<bool>,
    digit: Vec<bool>,
}

spec fn classes_of(k: &Classes, v: Seq<char>) -> bool {
    &&& k.word@.len() == v.len()
    &&& k.digit@.len() == v.len()
    &&& forall|i: int| 0 <= i < v.len() ==> k.word@[i] == word_class(#[trigger] v[i])
    &&& forall|i: int| 0 <= i < v.len() ==> k.digit@[i] == digit_class(#[trigger] v[i])
}

/// The length of the longest run of name characters from `p`.
fn name_run(v: &Vec<char>, k: &Classes, p: usize) -> (n: usize)
    requires
        classes_of(k, v@),
        p <= v@.len(),
    ensures
        p + n <= v@.len(),
        all_name_class(v@, p as int, p + n),
        p + n < v@.len() ==> !name_class(v@[p + n]),
{
    let mut i = p;
    while i < v.len() && (k.word[i] || v[i] == '-' || v[i] == '.' || v[i] == '_')
        invariant
            p <= i <= v@.len(),
            classes_of(k, v@),
            all_name_class(v@, p as int, i as int),
        decreases v@.len() - i,
    {
        i += 1;
    }
    i - p
}

/// The length of the longest run of `\d` characters from `p`.
fn digit_run(v: &Vec<char>, k: &Classes, p: usize) -> (n: usize)
    requires
        classes_of(k, v@),
        p <= v@.len(),
    ensures
        p + n <= v@.len(),
        all_digit_class(v@, p as int, p + n),
        p + n < v@.len() ==> !digit_class(v@[p + n]),
{
    let mut i = p;
    while i < v.len() && k.digit[i]
        invariant
            p <= i <= v@.len(),
            classes_of(k, v@),
            all_digit_class(v@, p as int, i as int),
        decreases v@.len() - i,
    {
        i += 1;
    }
    i - p
}

/// The length of the longest run of directory characters from `p`.
fn dir_run(v: &Vec<char>, k: &Classes, p: usize) -> (n: usize)
    requires
        classes_of(k, v@),
        p <= v@.len(),
    ensures
        p + n <= v@.len(),
        all_dir_class(v@, p as int, p + n),
        p + n < v@.len() ==> !dir_class(v@[p + n]),
{
    let mut i = p;
    while i < v.len() && (k.word[i] || v[i] == '/')
        invariant
            p <= i <= v@.len(),
            classes_of(k, v@),
            all_dir_class(v@, p as int, i as int),
        decreases v@.len() - i,
    {
        i += 1;
    }
    i - p
}

/// Which characters of `v` are in `\w` and in `\d`.
fn classify(v: &Vec<char>) -> (k: Classes)
    ensures
        classes_of(&k, v@),
{
    let mut word: Vec<bool> = Vec::new();
    let mut digit: Vec<bool> = Vec::new();
    let mut i: usize = 0;
    while i < v.len()
        invariant
            i <= v@.len(),
            word@.len() == i,
            digit@.len() == i,
            forall|j: int| 0 <= j < i ==> word@[j] == word_class(#[trigger] v@[j]),
            forall|j: int| 0 <= j < i ==> digit@[j] == digit_class(#[trigger] v@[j]),
        decreases v@.len() - i,
    {
        let c = v[i];
        let w = is_word_char(c);
        let d = is_digit_char(c);
        word.push(w);
        digit.push(d);
        i += 1;
    }
    Classes { word, digit }
}

/// A maximal run of name characters from `p` fixes the name group of every
/// match at `p`, since `:` is not a name character.
proof fn lemma_name_group_forced(s: Seq<char>, p: int, n: int)
    requires
        0 <= p,
        0 <= n,
        p + n <= s.len(),
        all_name_class(s, p, p + n),
        p + n < s.len() ==> !name_class(s[p + n]),
    ensures
        forall|a: int, b: int, c: int, d: int, e: int|
            #[trigger] match_at(s, p, a, b, c, d, e) ==> a == n,
{
    assert forall|a: int, b: int, c: int, d: int, e: int|
        #[trigger] match_at(s, p, a, b, c, d, e) implies a == n by {
        if a > n {
            assert(name_class(s[p + n]));
        }
        if a < n {
            assert(name_class(s[p + a]));
            assert(!name_class(':'));
        }
    }
}

/// A maximal run of `\d` characters from `q`, followed by `.` in a match,
/// is the whole group, since `.` is not in `\d`.
proof fn lemma_digit_group_forced(s: Seq<char>, q: int, n: int, b: int)
    requires
        0 <= q,
        0 <= n,
        q + n <= s.len(),
        all_digit_class(s, q, q + n),
        q + n < s.len() ==> !digit_class(s[q + n]),
        1 <= b,
        q + b < s.len(),
        all_digit_class(s, q, q + b),
        s[q + b] == '.',
    ensures
        b == n,
{
    if b > n {
        assert(digit_class(s[q + n]));
    }
    if b < n {
        assert(digit_class(s[q + b]));
        assert(!digit_class('.'));
    }
}

/// The match at `p` that greedy repetition prefers, or `None` when the
/// pattern does not match at `p`.
fn match_from(v: &Vec<char>, k: &Classes, p: usize) -> (r: Option<(usize, usize, usize, usize, usize)>)
    requires
        classes_of(k, v@),
        p <= v@.len(),
    ensures
        match r {
            Some((a, b, c, d, e)) => {
                &&& match_at(v@, p as int, a as int, b as int, c as int, d as int, e as int)
                &&& forall|a2: int, b2: int, c2: int, d2: int, e2: int|
                    #[trigger] match_at(v@, p as int, a2, b2, c2, d2, e2) ==> !preferred(
                        a as int,
                        b as int,
                        c as int,
                        d as int,
                        e as int,
                        a2,
                        b2,
                        c2,
                        d2,
                        e2,
                    )
            },
            None => forall|a2: int, b2: int, c2: int, d2: int, e2: int|
                !#[trigger] match_at(v@, p as int, a2, b2, c2, d2, e2),
        },
{
    let ghost s = v@;
    let len = v.len();
    let a = name_run(v, k, p);
    proof {
        lemma_name_group_forced(s, p as int, a as int);
    }
    if a == 0 || p + a >= len || v[p + a] != ':' {
        return None;
    }
    let q = p + a + 1;
    let b = digit_run(v, k, q);
    proof {
        assert forall|a2: int, b2: int, c2: int, d2: int, e2: int|
            #[trigger] match_at(s, p as int, a2, b2, c2, d2, e2) implies b2 == b by {
            lemma_digit_group_forced(s, q as int, b as int, b2);
        }
    }
    if b == 0 || q + b >= len || v[q + b] != '.' {
        return None;
    }
    let q2 = q + b + 1;
    let c = digit_run(v, k, q2);
    proof {
        assert forall|a2: int, b2: int, c2: int, d2: int, e2: int|
            #[trigger] match_at(s, p as int, a2, b2, c2, d2, e2) implies c2 == c by {
            lemma_digit_group_forced(s, q2 as int, c as int, c2);
        }
    }
    if c == 0 || q2 + c >= len || v[q2 + c] != '.' {
        return None;
    }
    let r = q2 + c + 1;
    let dmax = digit_run(v, k, r);
    proof {
        assert forall|a2: int, b2: int, c2: int, d2: int, e2: int|
            #[trigger] match_at(s, p as int, a2, b2, c2, d2, e2) implies d2 <= dmax && r + d2 < len
                && dir_class(s[r + d2]) by {
            if d2 > dmax {
                assert(digit_class(s[r + dmax]));
            }
            assert(dir_class(s[r + d2]));
        }
    }
    let mut d = dmax;
    while d >= 1 && !(r + d < len && (k.word[r + d] || v[r + d] == '/'))
        invariant
            classes_of(k, s),
            s == v@,
            len == s.len(),
            r <= len,
            d <= dmax,
            r + dmax <= len,
            forall|d2: int| d < d2 <= dmax ==> !(r + d2 < len && dir_class(#[trigger] s[r + d2])),
        decreases d,
    {
        d -= 1;
    }
    if d == 0 {
        assert forall|a2: int, b2: int, c2: int, d2: int, e2: int|
            !#[trigger] match_at(s, p as int, a2, b2, c2, d2, e2) by {
            if match_at(s, p as int, a2, b2, c2, d2, e2) {
                assert(dir_class(s[r + d2]));
            }
        }
        return None;
    }
    let e = dir_run(v, k, r + d);
    proof {
        assert(all_digit_class(s, r as int, r + d));
        assert forall|a2: int, b2: int, c2: int, d2: int, e2: int|
            #[trigger] match_at(s, p as int, a2, b2, c2, d2, e2) implies !preferred(
                a as int,
                b as int,
                c as int,
                d as int,
                e as int,
                a2,
                b2,
                c2,
                d2,
                e2,
            ) by {
            assert(dir_class(s[r + d2]));
            if d2 == d && e2 > e {
                assert(dir_class(s[r + d + e]));
            }
        }
    }
    Some((a, b, c, d, e))
}

/// Finds the match of the resource pattern that leftmost-first search
/// reports: its start and the lengths of its groups.
pub fn find_resource_match(v: &Vec<char>) -> (r: Option<(usize, usize, usize, usize, usize, usize)>)
    ensures
        match r {
            Some((p, a, b, c, d, e)) => leftmost_first(
                v@,
                (p as int, a as int, b as int, c as int, d as int, e as int),
            ),
            None => !has_match(v@),
        },
{
    let k = classify(v);
    let mut p: usize = 0;
    while p < v.len()
        invariant
            classes_of(&k, v@),
            p <= v@.len(),
            forall|p2: int, a2: int, b2: int, c2: int, d2: int, e2: int|
                #[trigger] match_at(v@, p2, a2, b2, c2, d2, e2) ==> p2 >= p,
        decreases v@.len() - p,
    {
        match match_from(v, &k, p) {
            Some((a, b, c, d, e)) => {
                return Some((p, a, b, c, d, e));
            },
            None => {
                assert forall|p2: int, a2: int, b2: int, c2: int, d2: int, e2: int|
                    #[trigger] match_at(v@, p2, a2, b2, c2, d2, e2) implies p2 >= p + 1 by {
                    if p2 == p {
                        assert(!match_at(v@, p as int, a2, b2, c2, d2, e2));
                    }
                }
            },
        }
        p += 1;
    }
    assert forall|p2: int, a2: int, b2: int, c2: int, d2: int, e2: int|
        !#[trigger] match_at(v@, p2, a2, b2, c2, d2, e2) by {
        if match_at(v@, p2, a2, b2, c2, d2, e2) {
            assert(p2 >= v@.len());
        }
    }
    None
}

} // verus!
