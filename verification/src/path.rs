//! Equality of paths as `std::path::Path` compares them: by components.
//! Repeated separators and a trailing separator are ignored, and `.`
//! components are dropped except at the start of a relative path.

use vstd::prelude::*;

use crate::chars::chars_of;

verus! {

/// The pieces of `s` between its `/` separators (at least one, maybe empty).
pub open spec fn path_pieces(s: Seq<char>) -> Seq<Seq<char>>
    decreases s.len(),
{
    if s.len() == 0 {
        seq![Seq::empty()]
    } else if s.last() == '/' {
        path_pieces(s.drop_last()).push(Seq::empty())
    } else {
        let p = path_pieces(s.drop_last());
        p.update(p.len() - 1, p.last().push(s.last()))
    }
}

/// A piece after the first one names a component unless it is empty or `.`.
pub open spec fn names_component(piece: Seq<char>) -> bool {
    piece.len() > 0 && piece != seq!['.']
}

/// The components of the pieces from index `i` on.
pub open spec fn later_components(pieces: Seq<Seq<char>>, i: int) -> Seq<Seq<char>>
    decreases pieces.len() - i,
{
    if i >= pieces.len() {
        Seq::empty()
    } else if names_component(pieces[i]) {
        seq![pieces[i]] + later_components(pieces, i + 1)
    } else {
        later_components(pieces, i + 1)
    }
}

/// The components of a path: whether it starts at the root, and the
/// component texts (a leading `.` of a relative path is one of them).
pub open spec fn path_components(s: Seq<char>) -> (bool, Seq<Seq<char>>) {
    let pieces = path_pieces(s);
    let first = if pieces[0].len() > 0 {
        seq![pieces[0]]
    } else {
        Seq::empty()
    };
    (s.len() > 0 && s[0] == '/', first + later_components(pieces, 1))
}

/// Two paths are equal as `Path` values.
pub open spec fn same_path(a: Seq<char>, b: Seq<char>) -> bool {
    path_components(a) == path_components(b)
}

proof fn lemma_path_pieces_len(s: Seq<char>)
    ensures
        path_pieces(s).len() >= 1,
    decreases s.len(),
{
    if s.len() > 0 {
        lemma_path_pieces_len(s.drop_last());
    }
}

/// The pieces of `v` between its separators.
fn pieces_of(v: &Vec<char>) -> (r: Vec<Vec<char>>)
    ensures
        r@.len() == path_pieces(v@).len(),
        forall|i: int| 0 <= i < r@.len() ==> #[trigger] r@[i]@ == path_pieces(v@)[i],
{
    let mut r: Vec<Vec<char>> = Vec::new();
    let mut cur: Vec<char> = Vec::new();
    let mut i: usize = 0;
    assert(v@.subrange(0, 0).len() == 0);
    while i < v.len()
        invariant
            i <= v@.len(),
            path_pieces(v@.subrange(0, i as int)).len() == r@.len() + 1,
            forall|j: int| 0 <= j < r@.len() ==> #[trigger] r@[j]@ == path_pieces(v@.subrange(0, i as int))[j],
            cur@ == path_pieces(v@.subrange(0, i as int)).last(),
        decreases v@.len() - i,
    {
        let ghost pre = v@.subrange(0, i as int);
        let ghost next = v@.subrange(0, i + 1);
        assert(next.drop_last() == pre);
        assert(next.last() == v@[i as int]);
        proof {
            lemma_path_pieces_len(pre);
        }
        if v[i] == '/' {
            let done = cur;
            r.push(done);
            cur = Vec::new();
            assert forall|j: int| 0 <= j < r@.len() implies #[trigger] r@[j]@ == path_pieces(next)[j] by {
                if j < r@.len() - 1 {
                    assert(path_pieces(next)[j] == path_pieces(pre)[j]);
                }
            }
        } else {
            cur.push(v[i]);
            assert forall|j: int| 0 <= j < r@.len() implies #[trigger] r@[j]@ == path_pieces(next)[j] by {
                assert(path_pieces(next)[j] == path_pieces(pre)[j]);
            }
        }
        i += 1;
    }
    r.push(cur);
    assert(v@.subrange(0, v@.len() as int) == v@);
    assert forall|j: int| 0 <= j < r@.len() implies #[trigger] r@[j]@ == path_pieces(v@)[j] by {
    }
    r
}

/// The components of the path text `s`.
pub fn components_of(s: &str) -> (r: (bool, Vec<Vec<char>>))
    ensures
        r.0 == path_components(s@).0,
        r.1@.len() == path_components(s@).1.len(),
        forall|i: int| 0 <= i < r.1@.len() ==> #[trigger] r.1@[i]@ == path_components(s@).1[i],
{
    let v = chars_of(s);
    let pieces = pieces_of(&v);
    proof {
        lemma_path_pieces_len(v@);
    }
    let ghost ps = path_pieces(v@);
    let mut out: Vec<Vec<char>> = Vec::new();
    if pieces[0].len() > 0 {
        out.push(pieces[0].clone());
    }
    let ghost first = if ps[0].len() > 0 {
        seq![ps[0]]
    } else {
        Seq::<Seq<char>>::empty()
    };
    assert(out@.len() == first.len());
    // Walk the later pieces from the end, so each step prepends.
    let mut tail: Vec<Vec<char>> = Vec::new();
    let mut k: usize = pieces.len();
    while k > 1
        invariant
            1 <= k <= pieces@.len(),
            pieces@.len() == ps.len(),
            forall|j: int| 0 <= j < pieces@.len() ==> #[trigger] pieces@[j]@ == ps[j],
            tail@.len() == later_components(ps, k as int).len(),
            forall|j: int| 0 <= j < tail@.len() ==> #[trigger] tail@[j]@ == later_components(ps, k as int)[tail@.len() - 1 - j],
        decreases k,
    {
        k -= 1;
        let p = &pieces[k];
        let keep = p.len() > 0 && !(p.len() == 1 && p[0] == '.');
        proof {
            assert(ps[k as int] == pieces@[k as int]@);
            if p@.len() == 1 && p@[0] == '.' {
                assert(ps[k as int] =~= seq!['.']);
            }
            if ps[k as int] == seq!['.'] {
                assert(p@.len() == 1 && p@[0] == '.');
            }
        }
        if keep {
            tail.push(p.clone());
            assert forall|j: int| 0 <= j < tail@.len() implies #[trigger] tail@[j]@ == later_components(ps, k as int)[tail@.len() - 1 - j] by {
                if j < tail@.len() - 1 {
                    assert(later_components(ps, k as int)[tail@.len() - 1 - j] == later_components(ps, k + 1)[tail@.len() - 2 - j]);
                }
            }
        }
    }
    let mut j: usize = tail.len();
    let ghost later = later_components(ps, 1);
    while j > 0
        invariant
            j <= tail@.len(),
            tail@.len() == later.len(),
            later == later_components(ps, 1),
            forall|i: int| 0 <= i < tail@.len() ==> #[trigger] tail@[i]@ == later[tail@.len() - 1 - i],
            out@.len() == first.len() + (tail@.len() - j),
            forall|i: int| 0 <= i < first.len() ==> #[trigger] out@[i]@ == first[i],
            forall|i: int| first.len() <= i < out@.len() ==> #[trigger] out@[i]@ == later[i - first.len()],
        decreases j,
    {
        j -= 1;
        out.push(tail[j].clone());
    }
    (v.len() > 0 && v[0] == '/', out)
}

/// Whether the path texts `a` and `b` are equal as paths.
pub fn paths_equal(a: &str, b: &str) -> (r: bool)
    ensures
        r == same_path(a@, b@),
{
    let (ra, ca) = components_of(a);
    let (rb, cb) = components_of(b);
    let ghost pa = path_components(a@);
    let ghost pb = path_components(b@);
    if ra != rb || ca.len() != cb.len() {
        assert(pa.1.len() != pb.1.len() || pa.0 != pb.0);
        return false;
    }
    let mut i: usize = 0;
    while i < ca.len()
        invariant
            i <= ca@.len() == cb@.len(),
            pa == path_components(a@),
            pb == path_components(b@),
            ca@.len() == pa.1.len(),
            cb@.len() == pb.1.len(),
            forall|j: int| 0 <= j < ca@.len() ==> #[trigger] ca@[j]@ == pa.1[j],
            forall|j: int| 0 <= j < cb@.len() ==> #[trigger] cb@[j]@ == pb.1[j],
            forall|j: int| 0 <= j < i ==> pa.1[j] == pb.1[j],
        decreases ca@.len() - i,
    {
        let x = &ca[i];
        let y = &cb[i];
        assert(x@ == pa.1[i as int]);
        assert(y@ == pb.1[i as int]);
        if x.len() != y.len() {
            assert(pa.1[i as int] != pb.1[i as int]);
            assert(pa.1 != pb.1);
            assert(!same_path(a@, b@));
            return false;
        }
        let mut k: usize = 0;
        while k < x.len()
            invariant
                k <= x@.len() == y@.len(),
                i < ca@.len(),
                pa == path_components(a@),
                pb == path_components(b@),
                ca@.len() == pa.1.len(),
                cb@.len() == pb.1.len(),
                x@ == pa.1[i as int],
                y@ == pb.1[i as int],
                forall|m: int| 0 <= m < k ==> x@[m] == y@[m],
            decreases x@.len() - k,
        {
            if x[k] != y[k] {
                assert(x@[k as int] != y@[k as int]);
                assert(pa.1[i as int] != pb.1[i as int]);
                assert(pa.1 != pb.1);
                assert(!same_path(a@, b@));
                return false;
            }
            k += 1;
        }
        assert(x@ =~= y@);
        i += 1;
    }
    assert(pa.1 =~= pb.1);
    true
}

/// Sameness of paths is an equivalence: reflexive, symmetric, transitive.
pub proof fn lemma_same_path_equivalence(a: Seq<char>, b: Seq<char>, c: Seq<char>)
    ensures
        same_path(a, a),
        same_path(a, b) == same_path(b, a),
        same_path(a, b) && same_path(b, c) ==> same_path(a, c),
{
}

/// The same path has the same root and the same components, one by one, so
/// paths with different numbers of components are never the same.
pub proof fn lemma_same_path_components(a: Seq<char>, b: Seq<char>)
    requires
        same_path(a, b),
    ensures
        path_components(a).0 == path_components(b).0,
        path_components(a).1.len() == path_components(b).1.len(),
        forall|i: int| 0 <= i < path_components(a).1.len() ==> path_components(a).1[i] == path_components(b).1[i],
{
}

/// The components after index `i` of pieces with one more piece at the end:
/// those of the pieces, and the new piece if it names a component.
proof fn lemma_later_components_push(pieces: Seq<Seq<char>>, i: int, x: Seq<char>)
    requires
        0 <= i <= pieces.len(),
    ensures
        later_components(pieces.push(x), i) == later_components(pieces, i) + (if names_component(x) {
            seq![x]
        } else {
            Seq::<Seq<char>>::empty()
        }),
    decreases pieces.len() - i,
{
    let q = pieces.push(x);
    if i == pieces.len() {
        assert(later_components(q, i + 1) == Seq::<Seq<char>>::empty());
        assert(later_components(pieces, i) == Seq::<Seq<char>>::empty());
        if names_component(x) {
            assert(later_components(q, i) =~= seq![x]);
        }
    } else {
        lemma_later_components_push(pieces, i + 1, x);
        assert(q[i] == pieces[i]);
        if names_component(pieces[i]) {
            assert(later_components(q, i) =~= seq![pieces[i]] + later_components(q, i + 1));
            assert(seq![pieces[i]] + (later_components(pieces, i + 1) + (if names_component(x) {
                seq![x]
            } else {
                Seq::<Seq<char>>::empty()
            })) =~= (seq![pieces[i]] + later_components(pieces, i + 1)) + (if names_component(x) {
                seq![x]
            } else {
                Seq::<Seq<char>>::empty()
            }));
        }
    }
}

/// The pieces of `a`, a separator and a text without separators: those of
/// `a` and that text as one more piece.
proof fn lemma_pieces_after_separator(a: Seq<char>, c: Seq<char>)
    requires
        forall|k: int| 0 <= k < c.len() ==> #[trigger] c[k] != '/',
    ensures
        path_pieces(a + seq!['/'] + c) == path_pieces(a).push(c),
    decreases c.len(),
{
    let s = a + seq!['/'] + c;
    if c.len() == 0 {
        assert(s.drop_last() =~= a);
        assert(s.last() == '/');
        assert(c =~= Seq::<char>::empty());
    } else {
        let c1 = c.drop_last();
        assert forall|k: int| 0 <= k < c1.len() implies #[trigger] c1[k] != '/' by {
            assert(c1[k] == c[k]);
        }
        lemma_pieces_after_separator(a, c1);
        assert(s.drop_last() =~= a + seq!['/'] + c1);
        assert(s.last() == c.last());
        let p = path_pieces(a).push(c1);
        assert(c1.push(c.last()) =~= c);
        assert(p.last() == c1);
        assert(p.update(p.len() - 1, p.last().push(c.last())) =~= path_pieces(a).push(c));
    }
}

/// A path and the path one component further down are never the same path:
/// `/data` and `/data/logs` are two mount points.
pub proof fn lemma_longer_path_differs(a: Seq<char>, c: Seq<char>)
    requires
        forall|k: int| 0 <= k < c.len() ==> #[trigger] c[k] != '/',
        names_component(c),
    ensures
        path_components(a + seq!['/'] + c).1 == path_components(a).1.push(c),
        !same_path(a, a + seq!['/'] + c),
{
    let s = a + seq!['/'] + c;
    lemma_pieces_after_separator(a, c);
    lemma_path_pieces_len(a);
    let pa = path_pieces(a);
    let ps = path_pieces(s);
    assert(ps[0] == pa[0]);
    lemma_later_components_push(pa, 1, c);
    let first = if pa[0].len() > 0 {
        seq![pa[0]]
    } else {
        Seq::<Seq<char>>::empty()
    };
    assert(path_components(s).1 =~= first + later_components(pa, 1).push(c));
    assert(path_components(s).1 =~= path_components(a).1.push(c));
    assert(path_components(s).1.len() != path_components(a).1.len());
}

/// A trailing separator does not change a non-empty path.
pub proof fn lemma_trailing_separator(a: Seq<char>)
    requires
        a.len() > 0,
    ensures
        same_path(a, a.push('/')),
{
    let s = a.push('/');
    assert(s.drop_last() =~= a);
    lemma_path_pieces_len(a);
    let pa = path_pieces(a);
    assert(path_pieces(s) == pa.push(Seq::<char>::empty()));
    lemma_later_components_push(pa, 1, Seq::<char>::empty());
    assert(later_components(pa.push(Seq::<char>::empty()), 1) =~= later_components(pa, 1));
    assert(path_pieces(s)[0] == pa[0]);
    assert(s[0] == a[0]);
}

/// Repeated separators and `.` components do not change a path: with `x`
/// empty or `.`, `a/x/c` is the same path as `a/c`.
pub proof fn lemma_dropped_piece(a: Seq<char>, x: Seq<char>, c: Seq<char>)
    requires
        x == Seq::<char>::empty() || x == seq!['.'],
        forall|k: int| 0 <= k < c.len() ==> #[trigger] c[k] != '/',
    ensures
        same_path(a + seq!['/'] + x + seq!['/'] + c, a + seq!['/'] + c),
{
    let ax = a + seq!['/'] + x;
    let s = ax + seq!['/'] + c;
    let t = a + seq!['/'] + c;
    assert forall|k: int| 0 <= k < x.len() implies #[trigger] x[k] != '/' by {}
    lemma_pieces_after_separator(a, x);
    lemma_pieces_after_separator(ax, c);
    lemma_pieces_after_separator(a, c);
    lemma_path_pieces_len(a);
    let pa = path_pieces(a);
    lemma_later_components_push(pa, 1, x);
    lemma_later_components_push(pa.push(x), 1, c);
    lemma_later_components_push(pa, 1, c);
    assert(!names_component(x));
    assert(later_components(pa.push(x), 1) =~= later_components(pa, 1));
    assert(path_pieces(s)[0] == pa[0]);
    assert(path_pieces(t)[0] == pa[0]);
    assert(s[0] == t[0]);
    assert(path_components(s).1 =~= path_components(t).1);
}

} // verus!
