//! Counting on finite index ranges.

use vstd::prelude::*;

use vstd::set_lib::{lemma_int_range, lemma_map_size, lemma_subset_equality, set_int_range};

verus! {

/// A map of `0..n` into itself that never sends two indices to the same one
/// reaches every index, `j` among them.
pub proof fn lemma_injection_is_onto(n: int, f: spec_fn(int) -> int, j: int)
    requires
        0 <= j < n,
        forall|i: int| 0 <= i < n ==> 0 <= #[trigger] f(i) < n,
        forall|i1: int, i2: int| 0 <= i1 < n && 0 <= i2 < n && #[trigger] f(i1) == #[trigger] f(i2) ==> i1 == i2,
    ensures
        exists|i: int| 0 <= i < n && #[trigger] f(i) == j,
{
    let x = set_int_range(0, n);
    let y = x.map(f);
    lemma_int_range(0, n);
    assert(vstd::relations::injective_on(f, x)) by {
        assert forall|i1: int, i2: int| x.contains(i1) && x.contains(i2) && #[trigger] f(i1) == #[trigger] f(i2)
            implies i1 == i2 by {
            assert(0 <= i1 < n && 0 <= i2 < n);
        }
    }
    lemma_map_size(x, y, f);
    assert(y.subset_of(x)) by {
        assert forall|j: int| y.contains(j) implies x.contains(j) by {
            let i = choose|i: int| x.contains(i) && f(i) == j;
        }
    }
    lemma_subset_equality(y, x);
    assert(x.contains(j));
    assert(y.contains(j));
    let i = choose|i: int| x.contains(i) && f(i) == j;
    assert(0 <= i < n && f(i) == j);
}

} // verus!
