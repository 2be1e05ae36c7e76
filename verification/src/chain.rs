//! The texts on which the parser of `semver` panics.
//!
//! `semver-parser` reads a chain of pre-release or build identifiers joined
//! by hyphens, such as `beta-1-rc`, recursively, and panics when it comes to
//! the 257th identifier of one chain, that is after 256 identifiers that are
//! each followed by a hyphen. It gets there only when everything before the
//! chain reads: optional whitespace, three numbers joined by dots, a `-` or
//! `+`, and well-formed identifiers; and when the token after the 256th
//! hyphen can be lexed. The library hands that parser no such text.

use vstd::prelude::*;

use crate::chars::{chars_of, is_ascii_digit};
use crate::decimal::{decimal, lemma_decimal};
use crate::version::{is_triple_text, lemma_triple_chars, lexer_space, triple_at, triple_text};

verus! {

/// A character of a semver identifier token: an ASCII letter or digit.
pub open spec fn ident_char(c: char) -> bool {
    ('0' <= c && c <= '9') || ('a' <= c && c <= 'z') || ('A' <= c && c <= 'Z')
}

/// `s[a..b]` is one identifier followed by a hyphen: one or more identifier
/// characters, then `-`.
pub open spec fn hyphen_group(s: Seq<char>, a: int, b: int) -> bool {
    &&& 0 <= a
    &&& a + 1 < b
    &&& b <= s.len()
    &&& s[b - 1] == '-'
    &&& forall|q: int| a <= q < b - 1 ==> #[trigger] ident_char(s[q])
}

/// `b` holds the bounds of `n` groups in a row: `s[b[k]..b[k + 1]]` is an
/// identifier followed by a hyphen, for each `k < n`.
pub open spec fn hyphen_chain(s: Seq<char>, b: Seq<int>, n: nat) -> bool {
    &&& b.len() == n + 1
    &&& forall|k: int| 0 <= k < n ==> #[trigger] hyphen_group(s, b[k], b[k + 1])
}

/// The number of hyphen-terminated identifiers in a row at which the parser
/// of `semver` panics.
pub open spec fn chain_limit() -> nat {
    256
}

/// A separator between identifiers: `-`, `.` or `+`.
pub open spec fn tail_sep(c: char) -> bool {
    c == '-' || c == '.' || c == '+'
}

/// `t` is the text from the sign after a version's three numbers (`-` for
/// pre-release, `+` for build) up to a place where the parser starts a new
/// chain of identifiers: identifier characters and separators, each
/// separator but the last followed by an identifier character, ending in the
/// first sign, a dot or the `+` of the build part, with at most one `+`
/// after the first sign, and that only after a `-`.
pub open spec fn chain_start_text(t: Seq<char>) -> bool {
    &&& t.len() >= 1
    &&& (t[0] == '-' || t[0] == '+')
    &&& forall|k: int| 0 <= k < t.len() ==> ident_char(#[trigger] t[k]) || tail_sep(t[k])
    &&& forall|k: int| 0 <= k < t.len() - 1 ==> tail_sep(#[trigger] t[k]) ==> ident_char(t[k + 1])
    &&& (t.len() == 1 || t.last() == '.' || t.last() == '+')
    &&& forall|k: int| 1 <= k < t.len() ==> #[trigger] t[k] == '+' ==> t[0] == '-'
    &&& forall|k1: int, k2: int|
        1 <= k1 < k2 < t.len() ==> !(#[trigger] t[k1] == '+' && #[trigger] t[k2] == '+')
}

/// The lexer of `semver-parser` can read a token that starts at `e`.
pub open spec fn lexable_at(s: Seq<char>, e: int) -> bool {
    &&& 0 <= e < s.len()
    &&& {
        let c = s[e];
        ||| lexer_space(c) || ident_char(c)
        ||| c == '=' || c == '>' || c == '<' || c == '^' || c == '~' || c == '*'
        ||| c == '.' || c == ',' || c == '-' || c == '+'
        ||| c == '|' && e + 1 < s.len() && s[e + 1] == '|'
    }
}

/// The parser panics on `s` at the chain `b`: whitespace up to `j`, three
/// numbers up to `m`, a well-formed lead from `m` to the chain, 256
/// hyphen-terminated identifiers, and a token that can be lexed after them
/// (or the end).
pub open spec fn panic_witness(s: Seq<char>, j: int, m: int, b: Seq<int>) -> bool {
    &&& 0 <= j <= m
    &&& forall|k: int| 0 <= k < j ==> lexer_space(#[trigger] s[k])
    &&& is_triple_text(s.subrange(j, m))
    &&& hyphen_chain(s, b, chain_limit())
    &&& m < b[0]
    &&& chain_start_text(s.subrange(m, b[0]))
    &&& (b[chain_limit() as int] == s.len() || lexable_at(s, b[chain_limit() as int]))
}

/// The parser of `semver` panics on `s`.
pub open spec fn semver_panics(s: Seq<char>) -> bool {
    exists|j: int, m: int, b: Seq<int>| #[trigger] panic_witness(s, j, m, b)
}

/// Two chains from the same start have the same bounds as far as both go.
proof fn lemma_chains_aligned(s: Seq<char>, p: Seq<int>, n1: nat, b: Seq<int>, n2: nat, k: nat)
    requires
        hyphen_chain(s, p, n1),
        hyphen_chain(s, b, n2),
        p[0] == b[0],
        k <= n1,
        k <= n2,
    ensures
        p[k as int] == b[k as int],
    decreases k,
{
    if k > 0 {
        let k1 = (k - 1) as nat;
        lemma_chains_aligned(s, p, n1, b, n2, k1);
        assert(hyphen_group(s, p[k1 as int], p[k1 + 1 as int]));
        assert(hyphen_group(s, b[k1 as int], b[k1 + 1 as int]));
        let a = p[k1 as int];
        if p[k as int] < b[k as int] {
            assert(ident_char(s[p[k as int] - 1]));
        } else if p[k as int] > b[k as int] {
            assert(ident_char(s[b[k as int] - 1]));
        }
    }
}

/// A witness starts after the leading whitespace and the three numbers that
/// a scan finds: whitespace up to `j`, no sign from `j` up to `m`, and a sign
/// at `m` if `m` is inside the text.
proof fn lemma_lead(s: Seq<char>, j: int, m: int, j2: int, m2: int, b: Seq<int>)
    requires
        0 <= j <= m <= s.len(),
        forall|k: int| 0 <= k < j ==> lexer_space(#[trigger] s[k]),
        j < s.len() ==> !lexer_space(s[j]),
        forall|k: int| j <= k < m ==> !(#[trigger] s[k] == '-' || s[k] == '+'),
        m < s.len() ==> (s[m] == '-' || s[m] == '+'),
        panic_witness(s, j2, m2, b),
    ensures
        j2 == j,
        m2 == m,
{
    assert(hyphen_group(s, b[0int], b[0int + 1]));
    let tri = s.subrange(j2, m2);
    let w = choose|w: (u64, u64, u64)| tri == triple_text(w.0 as nat, w.1 as nat, w.2 as nat);
    lemma_decimal(w.0 as nat);
    lemma_triple_chars(w.0 as nat, w.1 as nat, w.2 as nat);
    assert(tri.len() > 0);
    assert(tri[0] == decimal(w.0 as nat)[0]);
    assert(is_ascii_digit(decimal(w.0 as nat)[0]));
    assert(tri[0] == s[j2]);
    assert(is_ascii_digit(s[j2]));
    assert(hyphen_group(s, b[0int], b[0int + 1]));
    if j2 < j {
        assert(lexer_space(s[j2]));
    }
    if j2 > j {
        assert(lexer_space(s[j]));
    }
    let lead = s.subrange(m2, b[0]);
    assert(lead[0] == s[m2]);
    if m2 < m {
        assert(s[m2] == '-' || s[m2] == '+');
    }
    if m2 > m {
        assert(s[m] == tri[m - j]);
        assert(tri[m - j] == '.' || is_ascii_digit(tri[m - j]));
    }
}

/// What the scan knows of a witness whose chain starts at or after the
/// current chain `b` from `cs`, when the identifier run from `i` ends at `e`:
/// either it is the current chain, and its next group ends with a hyphen at
/// `e`, or it starts after `e`.
proof fn lemma_witness_here(
    s: Seq<char>,
    j: int,
    m: int,
    p: Seq<int>,
    b: Seq<int>,
    cnt: nat,
    cs: int,
    i: int,
    e: int,
)
    requires
        panic_witness(s, j, m, p),
        m < cs <= i <= e <= s.len(),
        p[0] >= cs,
        hyphen_chain(s, b, cnt),
        b[0] == cs,
        b[cnt as int] == i,
        cnt < chain_limit(),
        forall|k: int| cs <= k < i ==> ident_char(#[trigger] s[k]) || s[k] == '-',
        forall|k: int| i <= k < e ==> #[trigger] ident_char(s[k]),
        e < s.len() ==> !ident_char(s[e]),
    ensures
        (p[0] == cs && p[cnt as int] == i && p[cnt + 1 as int] == e + 1 && e < s.len() && s[e] == '-')
            || p[0] > e,
{
    let l = chain_limit();
    assert(hyphen_group(s, p[0int], p[0int + 1]));
    assert(hyphen_group(s, p[(l - 1) as int], p[(l - 1) + 1]));
    if p[0] > cs && p[0] <= e {
        let lead = s.subrange(m, p[0]);
        assert(lead.len() > 1);
        assert(lead.last() == s[p[0] - 1]);
        assert(s[p[0] - 1] == '.' || s[p[0] - 1] == '+');
        let q = p[0] - 1;
        if q < i {
            assert(ident_char(s[q]) || s[q] == '-');
        } else {
            assert(ident_char(s[q]));
        }
    }
    if p[0] == cs {
        lemma_chains_aligned(s, p, l, b, cnt, cnt);
        let k = cnt as int;
        assert(hyphen_group(s, p[k], p[k + 1]));
        let f = p[k + 1] - 1;
        assert(s[f] == '-');
        if f < e {
            assert(ident_char(s[f]));
        }
        if f > e {
            assert(ident_char(s[e]));
        }
    }
}

/// The text `s[m..i]` keeps the local rules of a lead: identifier
/// characters and separators, each separator but the last followed by an
/// identifier character, and at most one `+` after `s[m]`, only after a `-`.
pub open spec fn lead_ok(s: Seq<char>, m: int, i: int) -> bool {
    &&& forall|k: int| m <= k < i ==> ident_char(#[trigger] s[k]) || tail_sep(s[k])
    &&& forall|k: int| m <= k < i - 1 ==> tail_sep(#[trigger] s[k]) ==> ident_char(s[k + 1])
    &&& forall|k: int| m < k < i ==> #[trigger] s[k] == '+' ==> s[m] == '-'
    &&& forall|k1: int, k2: int| m < k1 < k2 < i ==> !(#[trigger] s[k1] == '+' && #[trigger] s[k2] == '+')
}

/// No `+` stands in `s` after `m` and before `i`.
pub open spec fn no_plus_between(s: Seq<char>, m: int, i: int) -> bool {
    forall|k: int| m < k < i ==> #[trigger] s[k] != '+'
}

/// A lead that keeps its rules goes on over an identifier and a separator.
proof fn lemma_lead_extend(s: Seq<char>, m: int, i: int, e: int)
    requires
        0 <= m < i <= e < s.len(),
        lead_ok(s, m, i),
        tail_sep(s[i - 1]),
        i < e,
        forall|k: int| i <= k < e ==> #[trigger] ident_char(s[k]),
        tail_sep(s[e]),
        s[e] == '+' ==> s[m] == '-' && no_plus_between(s, m, i),
    ensures
        lead_ok(s, m, e + 1),
        no_plus_between(s, m, e + 1) == (no_plus_between(s, m, i) && s[e] != '+'),
{
    assert forall|k: int| m <= k < e + 1 implies ident_char(#[trigger] s[k]) || tail_sep(s[k]) by {
        if i <= k < e {
            assert(ident_char(s[k]));
        }
    }
    assert forall|k: int| m <= k < e + 1 - 1 implies (tail_sep(#[trigger] s[k]) ==> ident_char(s[k + 1])) by {
        if i <= k < e {
            assert(ident_char(s[k]));
        }
        if k == i - 1 {
            assert(ident_char(s[i]));
        }
    }
    assert forall|k: int| m < k < e + 1 implies (#[trigger] s[k] == '+' ==> s[m] == '-') by {
        if i <= k < e {
            assert(ident_char(s[k]));
        }
    }
    assert forall|k1: int, k2: int| m < k1 < k2 < e + 1 implies !(#[trigger] s[k1] == '+'
        && #[trigger] s[k2] == '+') by {
        if i <= k2 < e {
            assert(ident_char(s[k2]));
        }
        if k2 == e && i <= k1 {
            assert(ident_char(s[k1]));
        }
    }
    if no_plus_between(s, m, i) && s[e] != '+' {
        assert forall|k: int| m < k < e + 1 implies #[trigger] s[k] != '+' by {
            if i <= k < e {
                assert(ident_char(s[k]));
            }
        }
    }
}

/// A lead that keeps its rules and ends in the first sign, a dot or a `+`
/// is where a chain starts.
proof fn lemma_lead_start(s: Seq<char>, m: int, q: int)
    requires
        0 <= m < q <= s.len(),
        lead_ok(s, m, q),
        s[m] == '-' || s[m] == '+',
        q == m + 1 || s[q - 1] == '.' || s[q - 1] == '+',
    ensures
        chain_start_text(s.subrange(m, q)),
{
    let lead = s.subrange(m, q);
    assert forall|k: int| 0 <= k < lead.len() implies ident_char(#[trigger] lead[k]) || tail_sep(lead[k]) by {
        assert(lead[k] == s[m + k]);
    }
    assert forall|k: int| 0 <= k < lead.len() - 1 implies (tail_sep(#[trigger] lead[k]) ==> ident_char(
        lead[k + 1],
    )) by {
        assert(lead[k] == s[m + k]);
        assert(lead[k + 1] == s[m + k + 1]);
    }
    assert forall|k: int| 1 <= k < lead.len() implies (#[trigger] lead[k] == '+' ==> lead[0] == '-') by {
        assert(lead[k] == s[m + k]);
        assert(lead[0] == s[m]);
    }
    assert forall|k1: int, k2: int| 1 <= k1 < k2 < lead.len() implies !(#[trigger] lead[k1] == '+'
        && #[trigger] lead[k2] == '+') by {
        assert(lead[k1] == s[m + k1]);
        assert(lead[k2] == s[m + k2]);
    }
    assert(lead[0] == s[m]);
    assert(lead.last() == s[q - 1]);
}

/// A lead that is a chain start keeps the local rules at every point before
/// its end.
proof fn lemma_lead_prefix_rules(s: Seq<char>, m: int, q: int, k: int)
    requires
        0 <= m < q <= s.len(),
        chain_start_text(s.subrange(m, q)),
        m <= k < q,
    ensures
        ident_char(s[k]) || tail_sep(s[k]),
        k < q - 1 ==> tail_sep(s[k]) ==> ident_char(s[k + 1]),
        m < k && s[k] == '+' ==> s[m] == '-',
        q == m + 1 || s[q - 1] == '.' || s[q - 1] == '+',
{
    let lead = s.subrange(m, q);
    assert(lead[k - m] == s[k]);
    assert(lead[0] == s[m]);
    assert(lead.last() == s[q - 1]);
    if k < q - 1 {
        assert(lead[k - m + 1] == s[k + 1]);
    }
}

/// A lead that is a chain start has no two `+` after its sign.
proof fn lemma_lead_two_plus(s: Seq<char>, m: int, q: int, k1: int, k2: int)
    requires
        0 <= m < q <= s.len(),
        chain_start_text(s.subrange(m, q)),
        m < k1 < k2 < q,
    ensures
        !(s[k1] == '+' && s[k2] == '+'),
{
    let lead = s.subrange(m, q);
    assert(lead[k1 - m] == s[k1]);
    assert(lead[k2 - m] == s[k2]);
}

/// Whether the parser of `semver` panics on `s`.
pub fn semver_would_panic(s: &str) -> (r: bool)
    ensures
        r == semver_panics(s@),
{
    let v = chars_of(s);
    let ghost t = v@;
    let n = v.len();
    let mut j: usize = 0;
    while j < n && (v[j] == ' ' || v[j] == '\t' || v[j] == '\n' || v[j] == '\r')
        invariant
            t == v@,
            n == t.len(),
            j <= n,
            forall|k: int| 0 <= k < j ==> lexer_space(#[trigger] t[k]),
        decreases n - j,
    {
        j += 1;
    }
    let mut m: usize = j;
    while m < n && v[m] != '-' && v[m] != '+'
        invariant
            t == v@,
            n == t.len(),
            j <= m <= n,
            forall|k: int| j <= k < m ==> !(#[trigger] t[k] == '-' || t[k] == '+'),
        decreases n - m,
    {
        m += 1;
    }
    proof {
        assert forall|j2: int, m2: int, p: Seq<int>| #[trigger] panic_witness(t, j2, m2, p) implies j2
            == j && m2 == m by {
            lemma_lead(t, j as int, m as int, j2, m2, p);
        }
    }
    if m == n {
        proof {
            if semver_panics(t) {
                let (j2, m2, p) = choose|j2: int, m2: int, p: Seq<int>| #[trigger] panic_witness(t, j2, m2, p);
                assert(hyphen_group(t, p[0int], p[0int + 1]));
            }
        }
        return false;
    }
    if !triple_at(&v, j, m) {
        proof {
            if semver_panics(t) {
                let (j2, m2, p) = choose|j2: int, m2: int, p: Seq<int>| #[trigger] panic_witness(t, j2, m2, p);
            }
        }
        return false;
    }
    let mut pre = v[m] == '-';
    let mut i: usize = m + 1;
    let ghost mut cs: int = i as int;
    let mut cnt: usize = 0;
    let ghost mut b: Seq<int> = seq![i as int];
    proof {
        lemma_lead_start(t, m as int, i as int);
    }
    loop
        invariant
            t == v@,
            t == s@,
            n == t.len(),
            j <= m < i <= n,
            t[m as int] == '-' || t[m as int] == '+',
            forall|k: int| 0 <= k < j ==> lexer_space(#[trigger] t[k]),
            is_triple_text(t.subrange(j as int, m as int)),
            forall|j2: int, m2: int, p: Seq<int>| #[trigger] panic_witness(t, j2, m2, p) ==> j2 == j && m2 == m,
            tail_sep(t[i - 1]),
            m < cs <= i,
            chain_start_text(t.subrange(m as int, cs)),
            cnt < chain_limit(),
            hyphen_chain(t, b, cnt as nat),
            b[0] == cs,
            b[cnt as int] == i,
            forall|k: int| cs <= k < i ==> ident_char(#[trigger] t[k]) || t[k] == '-',
            lead_ok(t, m as int, i as int),
            pre == (t[m as int] == '-' && no_plus_between(t, m as int, i as int)),
            forall|p: Seq<int>| #[trigger] panic_witness(t, j as int, m as int, p) ==> p[0] >= cs,
        decreases n - i,
    {
        let mut e = i;
        while e < n && (('0' <= v[e] && v[e] <= '9') || ('a' <= v[e] && v[e] <= 'z') || ('A' <= v[e]
            && v[e] <= 'Z'))
            invariant
                t == v@,
                n == t.len(),
                i <= e <= n,
                forall|k: int| i <= k < e ==> #[trigger] ident_char(t[k]),
            decreases n - e,
        {
            e += 1;
        }
        if e == i || e == n {
            proof {
                if semver_panics(t) {
                    let (j2, m2, p) = choose|j2: int, m2: int, p: Seq<int>| #[trigger] panic_witness(t, j2, m2, p);
                    assert(panic_witness(t, j as int, m as int, p));
                    lemma_witness_here(t, j as int, m as int, p, b, cnt as nat, cs, i as int, e as int);
                    assert(hyphen_group(t, p[0int], p[0int + 1]));
                    if p[0] == cs {
                        let k = cnt as int;
                        assert(hyphen_group(t, p[k], p[k + 1]));
                    } else {
                        lemma_lead_prefix_rules(t, m as int, p[0], i - 1);
                    }
                }
            }
            return false;
        }
        let c = v[e];
        if c == '-' {
            let ghost nb = b.push(e + 1);
            proof {
                assert(hyphen_group(t, i as int, e + 1));
                assert forall|k: int| 0 <= k < cnt + 1 implies #[trigger] hyphen_group(t, nb[k], nb[k + 1]) by {
                    if k < cnt {
                        assert(nb[k] == b[k] && nb[k + 1] == b[k + 1]);
                        assert(hyphen_group(t, b[k], b[k + 1]));
                    }
                }
            }
            if cnt + 1 == 256 {
                let at_end = e + 1 == n;
                let lexable = !at_end && {
                    let d = v[e + 1];
                    d == ' ' || d == '\t' || d == '\n' || d == '\r' || ('0' <= d && d <= '9') || ('a' <= d
                        && d <= 'z') || ('A' <= d && d <= 'Z') || d == '=' || d == '>' || d == '<' || d == '^'
                        || d == '~' || d == '*' || d == '.' || d == ',' || d == '-' || d == '+' || (d == '|'
                        && e + 2 < n && v[e + 2] == '|')
                };
                let r = at_end || lexable;
                proof {
                    if r {
                        assert(panic_witness(t, j as int, m as int, nb));
                    } else if semver_panics(t) {
                        let (j2, m2, p) = choose|j2: int, m2: int, p: Seq<int>| #[trigger] panic_witness(t, j2, m2, p);
                        assert(panic_witness(t, j as int, m as int, p));
                        lemma_witness_here(t, j as int, m as int, p, b, cnt as nat, cs, i as int, e as int);
                        assert(hyphen_group(t, p[0int], p[0int + 1]));
                        if p[0] > e {
                            lemma_lead_prefix_rules(t, m as int, p[0], e as int);
                        }
                    }
                }
                return r;
            }
            proof {
                lemma_lead_extend(t, m as int, i as int, e as int);
                assert forall|p: Seq<int>| #[trigger] panic_witness(t, j as int, m as int, p) implies p[0] >= cs by {}
                assert forall|k: int| cs <= k < e + 1 implies ident_char(#[trigger] t[k]) || t[k] == '-' by {
                    if i <= k < e {
                        assert(ident_char(t[k]));
                    }
                }
                b = nb;
            }
            cnt = cnt + 1;
            i = e + 1;
        } else if c == '.' || (c == '+' && pre) {
            proof {
                lemma_lead_extend(t, m as int, i as int, e as int);
                lemma_lead_start(t, m as int, e + 1);
                assert forall|p: Seq<int>| #[trigger] panic_witness(t, j as int, m as int, p) implies p[0] >= e + 1 by {
                    lemma_witness_here(t, j as int, m as int, p, b, cnt as nat, cs, i as int, e as int);
                }
                cs = e + 1;
                b = seq![cs];
            }
            if c == '+' {
                pre = false;
            }
            cnt = 0;
            i = e + 1;
        } else {
            proof {
                if semver_panics(t) {
                    let (j2, m2, p) = choose|j2: int, m2: int, p: Seq<int>| #[trigger] panic_witness(t, j2, m2, p);
                    assert(panic_witness(t, j as int, m as int, p));
                    lemma_witness_here(t, j as int, m as int, p, b, cnt as nat, cs, i as int, e as int);
                    assert(hyphen_group(t, p[0int], p[0int + 1]));
                    lemma_lead_prefix_rules(t, m as int, p[0], e as int);
                    if t[e as int] == '+' && t[m as int] == '-' {
                        let k = choose|k: int| m < k < i && #[trigger] t[k] == '+';
                        lemma_lead_two_plus(t, m as int, p[0], k, e as int);
                    }
                }
            }
            return false;
        }
    }
}

/// Text without a `-` or a `+` never makes the parser panic.
pub proof fn lemma_no_sign_no_panic(s: Seq<char>)
    requires
        forall|i: int| 0 <= i < s.len() ==> #[trigger] s[i] != '-' && s[i] != '+',
    ensures
        !semver_panics(s),
{
    if semver_panics(s) {
        let (j, m, p) = choose|j: int, m: int, p: Seq<int>| #[trigger] panic_witness(s, j, m, p);
        assert(hyphen_group(s, p[0int], p[0int + 1]));
        assert(s.subrange(m, p[0])[0] == s[m]);
    }
}

} // verus!
