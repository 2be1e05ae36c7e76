//! Key-value tables such as a manifest's environment: each key once, a later
//! value for a key replacing the earlier one.

use vstd::prelude::*;

use crate::chars::texts_equal;

verus! {

/// No key occurs twice.
pub open spec fn unique_keys(s: Seq<(Seq<char>, Seq<char>)>) -> bool {
    forall|i: int, j: int| 0 <= i < j < s.len() ==> #[trigger] s[i].0 != #[trigger] s[j].0
}

/// The key `k` occurs at index `i`.
pub open spec fn key_at(s: Seq<(Seq<char>, Seq<char>)>, k: Seq<char>, i: int) -> bool {
    0 <= i < s.len() && s[i].0 == k
}

/// The key `k` occurs in the table.
pub open spec fn has_key(s: Seq<(Seq<char>, Seq<char>)>, k: Seq<char>) -> bool {
    exists|i: int| #[trigger] key_at(s, k, i)
}

/// The table after setting `k` to `v`: the value of an existing key is
/// replaced in place, a new key is added at the end.
pub open spec fn set_key(s: Seq<(Seq<char>, Seq<char>)>, k: Seq<char>, v: Seq<char>) -> Seq<(Seq<char>, Seq<char>)> {
    if exists|i: int| #[trigger] key_at(s, k, i) {
        s.update(choose|i: int| #[trigger] key_at(s, k, i), (k, v))
    } else {
        s.push((k, v))
    }
}

/// Two tables hold the same pairs, whatever their order.
pub open spec fn same_pairs(a: Seq<(Seq<char>, Seq<char>)>, b: Seq<(Seq<char>, Seq<char>)>) -> bool {
    &&& a.len() == b.len()
    &&& forall|i: int| 0 <= i < a.len() ==> #[trigger] b.contains(a[i])
}

/// The values of a list of pairs of strings.
pub open spec fn pairs_view(p: Seq<(String, String)>) -> Seq<(Seq<char>, Seq<char>)> {
    p.map_values(|e: (String, String)| (e.0@, e.1@))
}

/// A table of string keys and values, each key once, in the order in which
/// the keys first came.
#[derive(Debug)]
pub struct KeyValues {
    pairs: Vec<(String, String)>,
}

impl View for KeyValues {
    type V = Seq<(Seq<char>, Seq<char>)>;

    closed spec fn view(&self) -> Seq<(Seq<char>, Seq<char>)> {
        pairs_view(self.pairs@)
    }
}

impl KeyValues {
    #[verifier::type_invariant]
    spec fn keys_once(self) -> bool {
        unique_keys(pairs_view(self.pairs@))
    }

    /// The empty table.
    pub fn new() -> (t: KeyValues)
        ensures
            t@ == Seq::<(Seq<char>, Seq<char>)>::empty(),
    {
        let t = KeyValues { pairs: Vec::new() };
        assert(pairs_view(t.pairs@) =~= Seq::<(Seq<char>, Seq<char>)>::empty());
        t
    }

    /// Where the key `k` is, if it is in the table.
    fn find(&self, k: &String) -> (r: Option<usize>)
        ensures
            match r {
                Some(i) => key_at(self@, k@, i as int),
                None => forall|i: int| !#[trigger] key_at(self@, k@, i),
            },
    {
        let mut i: usize = 0;
        while i < self.pairs.len()
            invariant
                i <= self.pairs@.len(),
                forall|j: int| 0 <= j < i ==> self.pairs@[j].0@ != k@,
            decreases self.pairs@.len() - i,
        {
            if texts_equal(self.pairs[i].0.as_str(), k.as_str()) {
                return Some(i);
            }
            i += 1;
        }
        None
    }

    /// Sets the key `k` to `v`: the value of a key that is already there is
    /// replaced, a new key is added at the end.
    pub fn insert(&mut self, k: String, v: String)
        ensures
            final(self)@ == set_key(old(self)@, k@, v@),
            unique_keys(final(self)@),
    {
        proof {
            use_type_invariant(&*self);
        }
        let ghost s = self@;
        let found = self.find(&k);
        let mut pairs: Vec<(String, String)> = Vec::new();
        assert(pairs_view(pairs@) =~= Seq::<(Seq<char>, Seq<char>)>::empty());
        std::mem::swap(&mut pairs, &mut self.pairs);
        match found {
            Some(i) => {
                proof {
                    let j = choose|j: int| #[trigger] key_at(s, k@, j);
                    assert(key_at(s, k@, j));
                    if j != i {
                        if j < i {
                            assert(s[j].0 != s[i as int].0);
                        } else {
                            assert(s[i as int].0 != s[j].0);
                        }
                    }
                }
                pairs.set(i, (k, v));
                let ghost n = s.update(i as int, (k@, v@));
                assert(pairs_view(pairs@) =~= n);
                assert forall|a: int, b: int| 0 <= a < b < n.len() implies #[trigger] n[a].0 != #[trigger] n[b].0 by {
                    assert(s[a].0 != s[b].0);
                }
            },
            None => {
                pairs.push((k, v));
                let ghost n = s.push((k@, v@));
                assert(pairs_view(pairs@) =~= n);
                assert forall|a: int, b: int| 0 <= a < b < n.len() implies #[trigger] n[a].0 != #[trigger] n[b].0 by {
                    if b < s.len() {
                        assert(s[a].0 != s[b].0);
                    } else {
                        assert(!key_at(s, k@, a));
                    }
                }
            },
        }
        self.pairs = pairs;
    }

    /// The pairs, in order.
    pub fn pairs(&self) -> (r: &Vec<(String, String)>)
        ensures
            pairs_view(r@) == self@,
            unique_keys(self@),
    {
        proof {
            use_type_invariant(self);
        }
        &self.pairs
    }

    /// The number of keys.
    pub fn len(&self) -> (n: usize)
        ensures
            n == self@.len(),
    {
        self.pairs.len()
    }

    /// Whether the pair `(k, v)` is in the table.
    fn holds(&self, k: &String, v: &String) -> (r: bool)
        ensures
            r == self@.contains((k@, v@)),
    {
        let mut i: usize = 0;
        while i < self.pairs.len()
            invariant
                i <= self.pairs@.len(),
                forall|j: int| 0 <= j < i ==> pairs_view(self.pairs@)[j] != (k@, v@),
            decreases self.pairs@.len() - i,
        {
            if texts_equal(self.pairs[i].0.as_str(), k.as_str())
                && texts_equal(self.pairs[i].1.as_str(), v.as_str()) {
                assert(self@[i as int] == (k@, v@));
                return true;
            }
            i += 1;
        }
        false
    }
}

impl Clone for KeyValues {
    /// A copy of the table.
    fn clone(&self) -> (r: KeyValues)
        ensures
            r@ == self@,
    {
        proof {
            use_type_invariant(self);
        }
        let mut out: Vec<(String, String)> = Vec::new();
        let mut k: usize = 0;
        while k < self.pairs.len()
            invariant
                k <= self.pairs@.len(),
                out@.len() == k,
                forall|j: int| 0 <= j < k ==> (#[trigger] out@[j]).0@ == self.pairs@[j].0@
                    && out@[j].1@ == self.pairs@[j].1@,
            decreases self.pairs@.len() - k,
        {
            let e = &self.pairs[k];
            out.push((e.0.clone(), e.1.clone()));
            k += 1;
        }
        assert(pairs_view(out@) =~= pairs_view(self.pairs@));
        KeyValues { pairs: out }
    }
}

impl PartialEq for KeyValues {
    /// Two tables are equal when they hold the same pairs, whatever their
    /// order.
    fn eq(&self, other: &KeyValues) -> (r: bool) {
        if self.pairs.len() != other.pairs.len() {
            return false;
        }
        let mut i: usize = 0;
        while i < self.pairs.len()
            invariant
                i <= self.pairs@.len(),
                self.pairs@.len() == other.pairs@.len(),
                forall|j: int| 0 <= j < i ==> #[trigger] other@.contains(self@[j]),
            decreases self.pairs@.len() - i,
        {
            assert(self@[i as int] == (self.pairs@[i as int].0@, self.pairs@[i as int].1@));
            if !other.holds(&self.pairs[i].0, &self.pairs[i].1) {
                return false;
            }
            i += 1;
        }
        true
    }
}

impl vstd::std_specs::cmp::PartialEqSpecImpl for KeyValues {
    open spec fn obeys_eq_spec() -> bool {
        true
    }

    open spec fn eq_spec(&self, other: &KeyValues) -> bool {
        same_pairs(self@, other@)
    }
}

impl Eq for KeyValues {
}

/// Equal key-value tables hold as many pairs.
pub proof fn lemma_same_pairs_len(a: Seq<(Seq<char>, Seq<char>)>, b: Seq<(Seq<char>, Seq<char>)>)
    requires
        same_pairs(a, b),
    ensures
        a.len() == b.len(),
{
}

/// Equality of tables that hold each key once is symmetric: when every pair
/// of `a` is in `b`, every pair of `b` is in `a`, so both have the same keys
/// with the same values.
pub proof fn lemma_same_pairs_symmetric(a: Seq<(Seq<char>, Seq<char>)>, b: Seq<(Seq<char>, Seq<char>)>)
    requires
        unique_keys(a),
        unique_keys(b),
        same_pairs(a, b),
    ensures
        same_pairs(b, a),
        forall|k: Seq<char>| #[trigger] has_key(a, k) == has_key(b, k),
{
    let n = a.len() as int;
    let f = |i: int| choose|j: int| 0 <= j < b.len() && b[j] == a[i];
    assert forall|i: int| 0 <= i < n implies 0 <= #[trigger] f(i) < n && b[f(i)] == a[i] by {
        assert(b.contains(a[i]));
    }
    assert forall|i1: int, i2: int| 0 <= i1 < n && 0 <= i2 < n && #[trigger] f(i1) == #[trigger] f(i2) implies i1
        == i2 by {
        assert(a[i1] == a[i2]);
        if i1 < i2 {
            assert(a[i1].0 != a[i2].0);
        } else if i2 < i1 {
            assert(a[i2].0 != a[i1].0);
        }
    }
    assert forall|j: int| 0 <= j < b.len() implies #[trigger] a.contains(b[j]) by {
        crate::counting::lemma_injection_is_onto(n, f, j);
        let i = choose|i: int| 0 <= i < n && #[trigger] f(i) == j;
        assert(a[i] == b[j]);
    }
    assert forall|k: Seq<char>| #[trigger] has_key(a, k) == has_key(b, k) by {
        if has_key(a, k) {
            let i = choose|i: int| #[trigger] key_at(a, k, i);
            assert(key_at(b, k, f(i)));
        }
        if has_key(b, k) {
            let j = choose|j: int| #[trigger] key_at(b, k, j);
            assert(a.contains(b[j]));
            let i = choose|i: int| 0 <= i < a.len() && a[i] == b[j];
            assert(key_at(a, k, i));
        }
    }
}

/// Setting a key: the table then holds the key with the new value, keeps
/// every other pair, holds each key once, and grows by one exactly when the
/// key was not there.
pub proof fn lemma_set_key(s: Seq<(Seq<char>, Seq<char>)>, k: Seq<char>, v: Seq<char>)
    requires
        unique_keys(s),
    ensures
        set_key(s, k, v).contains((k, v)),
        unique_keys(set_key(s, k, v)),
        forall|i: int| 0 <= i < s.len() && s[i].0 != k ==> set_key(s, k, v).contains(#[trigger] s[i]),
        forall|w: Seq<char>| s.contains((k, w)) && set_key(s, k, v).contains((k, w)) ==> w == v,
        forall|k2: Seq<char>| #[trigger] has_key(set_key(s, k, v), k2) == (has_key(s, k2) || k2 == k),
        set_key(s, k, v).len() == s.len() + (if has_key(s, k) { 0int } else { 1int }),
{
    let t = set_key(s, k, v);
    if has_key(s, k) {
        let j = choose|i: int| #[trigger] key_at(s, k, i);
        assert(t == s.update(j, (k, v)));
        assert(t[j] == (k, v));
        assert forall|i: int| 0 <= i < s.len() && s[i].0 != k implies t.contains(#[trigger] s[i]) by {
            assert(i != j);
            assert(t[i] == s[i]);
        }
        assert forall|a: int, b: int| 0 <= a < b < t.len() implies #[trigger] t[a].0 != #[trigger] t[b].0 by {
            assert(s[a].0 != s[b].0);
        }
        assert forall|w: Seq<char>| s.contains((k, w)) && t.contains((k, w)) implies w == v by {
            let q = choose|q: int| 0 <= q < t.len() && t[q] == (k, w);
            if q != j {
                assert(t[q] == s[q]);
                if q < j {
                    assert(s[q].0 != s[j].0);
                } else {
                    assert(s[j].0 != s[q].0);
                }
            }
        }
        assert forall|k2: Seq<char>| #[trigger] has_key(t, k2) == (has_key(s, k2) || k2 == k) by {
            if has_key(t, k2) {
                let q = choose|q: int| #[trigger] key_at(t, k2, q);
                if q != j {
                    assert(key_at(s, k2, q));
                }
            }
            if has_key(s, k2) {
                let q = choose|q: int| #[trigger] key_at(s, k2, q);
                if q != j {
                    assert(key_at(t, k2, q));
                } else {
                    assert(key_at(t, k2, j));
                }
            }
            if k2 == k {
                assert(key_at(t, k2, j));
            }
        }
    } else {
        assert(t == s.push((k, v)));
        let n = s.len() as int;
        assert(t[n] == (k, v));
        assert forall|i: int| 0 <= i < s.len() && s[i].0 != k implies t.contains(#[trigger] s[i]) by {
            assert(t[i] == s[i]);
        }
        assert forall|a: int, b: int| 0 <= a < b < t.len() implies #[trigger] t[a].0 != #[trigger] t[b].0 by {
            if b < n {
                assert(s[a].0 != s[b].0);
            } else {
                assert(!key_at(s, k, a));
            }
        }
        assert forall|w: Seq<char>| s.contains((k, w)) && t.contains((k, w)) implies w == v by {
            let q = choose|q: int| 0 <= q < s.len() && s[q] == (k, w);
            assert(key_at(s, k, q));
        }
        assert forall|k2: Seq<char>| #[trigger] has_key(t, k2) == (has_key(s, k2) || k2 == k) by {
            if has_key(t, k2) {
                let q = choose|q: int| #[trigger] key_at(t, k2, q);
                if q < n {
                    assert(key_at(s, k2, q));
                }
            }
            if has_key(s, k2) {
                let q = choose|q: int| #[trigger] key_at(s, k2, q);
                assert(key_at(t, k2, q));
            }
            if k2 == k {
                assert(key_at(t, k2, n));
            }
        }
    }
}

} // verus!
