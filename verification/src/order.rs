//! The model of a caller-supplied comparator: a function value of shape
//! `(&T, &T) -> bool` meaning "strictly less than", tied to a mathematical
//! order relation through the results it can return.

use vstd::prelude::*;

verus! {

/// The comparator may be called on any pair of values.
pub open spec fn callable_on_all<T, F: Fn(&T, &T) -> bool>(f: F) -> bool {
    forall|x: &T, y: &T| #[trigger] call_requires(f, (x, y))
}

/// The comparator decides the relation `lt`: every result it can return on a
/// pair of values is the value of `lt` on that pair.
pub open spec fn decided_by<T, F: Fn(&T, &T) -> bool>(f: F, lt: spec_fn(T, T) -> bool) -> bool {
    forall|x: &T, y: &T, b: bool| #[trigger] call_ensures(f, (x, y), b) ==> b == lt(*x, *y)
}

/// The laws of a "strictly less than" relation consistent with a total order:
/// asymmetry, transitivity, and transitivity of "not less than" (so that
/// being unordered in both directions behaves as equivalence).
pub open spec fn strict_order<T>(lt: spec_fn(T, T) -> bool) -> bool {
    &&& forall|x: T, y: T| #[trigger] lt(x, y) ==> !lt(y, x)
    &&& forall|x: T, y: T, z: T| #[trigger] lt(x, y) && #[trigger] lt(y, z) ==> lt(x, z)
    &&& forall|x: T, y: T, z: T| !(#[trigger] lt(x, y)) && !(#[trigger] lt(y, z)) ==> !lt(x, z)
}

/// A sequence is sorted under `lt` when no later element is less than an
/// earlier one (non-decreasing in the order `lt`).
pub open spec fn sorted_under<T>(lt: spec_fn(T, T) -> bool, s: Seq<T>) -> bool {
    forall|i: int, j: int| 0 <= i <= j < s.len() ==> !(#[trigger] lt(s[j], s[i]))
}

/// The order tells any two distinct values apart: values that are not less
/// than each other in either direction are equal.
pub open spec fn distinguishes<T>(lt: spec_fn(T, T) -> bool) -> bool {
    forall|x: T, y: T| !(#[trigger] lt(x, y)) && !(#[trigger] lt(y, x)) ==> x == y
}

/// A sorted arrangement is unique under an order that tells distinct values
/// apart: two sorted sequences holding the same multiset of elements are
/// equal, element for element. In particular, sorting a sequence that is
/// already sorted leaves it unchanged, since every sort returns a sorted
/// sequence holding the input's elements.
pub proof fn lemma_sorted_arrangement_unique<T>(lt: spec_fn(T, T) -> bool, s1: Seq<T>, s2: Seq<T>)
    requires
        strict_order(lt),
        distinguishes(lt),
        sorted_under(lt, s1),
        sorted_under(lt, s2),
        s1.to_multiset() == s2.to_multiset(),
    ensures
        s1 == s2,
{
    let leq = |x: T, y: T| !lt(y, x);
    assert(vstd::relations::total_ordering(leq)) by {
        assert forall|x: T| #[trigger] leq(x, x) by {
            assert(!lt(x, x));
        }
        assert forall|x: T, y: T, z: T| #[trigger] leq(x, y) && #[trigger] leq(y, z) implies leq(
            x,
            z,
        ) by {
            assert(!lt(y, x) && !lt(z, y));
            assert(!lt(z, x));
        }
        assert forall|x: T, y: T| #[trigger] leq(x, y) && #[trigger] leq(y, x) implies x == y by {
            assert(!lt(y, x) && !lt(x, y));
        }
        assert forall|x: T, y: T| #[trigger] leq(x, y) || #[trigger] leq(y, x) by {
            if lt(y, x) {
                assert(!lt(x, y));
            }
        }
    }
    assert(vstd::relations::sorted_by(s1, leq));
    assert(vstd::relations::sorted_by(s2, leq));
    vstd::seq_lib::lemma_sorted_unique(s1, s2, leq);
    assert(s1 =~= s2);
}

} // verus!
