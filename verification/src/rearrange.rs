//! Sequences that hold the same items, each as often, in another order.

use vstd::prelude::*;

verus! {

/// `b` holds the items of `a`, each as often as `a` does.
pub open spec fn is_rearrangement<T>(a: Seq<T>, b: Seq<T>) -> bool {
    a.to_multiset() == b.to_multiset()
}

/// An item of `a` stands somewhere in every rearrangement of `a`.
pub proof fn lemma_item_in_rearrangement<T>(a: Seq<T>, b: Seq<T>, i: int) -> (p: int)
    requires
        is_rearrangement(a, b),
        0 <= i < a.len(),
    ensures
        0 <= p < b.len(),
        b[p] == a[i],
{
    broadcast use vstd::seq_lib::group_to_multiset_ensures;

    assert(a.contains(a[i]));
    assert(b.to_multiset().count(a[i]) > 0);
    assert(b.contains(a[i]));
    b.index_of(a[i])
}

/// Two positions of `a` have two different positions in every rearrangement
/// of `a` that hold the same items.
pub proof fn lemma_pair_in_rearrangement<T>(a: Seq<T>, b: Seq<T>, i: int, j: int) -> (p: (int, int))
    requires
        is_rearrangement(a, b),
        0 <= i < a.len(),
        0 <= j < a.len(),
        i != j,
    ensures
        0 <= p.0 < b.len(),
        0 <= p.1 < b.len(),
        p.0 != p.1,
        b[p.0] == a[i],
        b[p.1] == a[j],
{
    broadcast use vstd::seq_lib::group_to_multiset_ensures;

    let first = lemma_item_in_rearrangement(a, b, i);
    let a_rest = a.remove(i);
    let b_rest = b.remove(first);
    assert(is_rearrangement(a_rest, b_rest));
    let j_rest = if j < i { j } else { j - 1 };
    assert(a_rest[j_rest] == a[j]);
    let second_rest = lemma_item_in_rearrangement(a_rest, b_rest, j_rest);
    let second = if second_rest < first { second_rest } else { second_rest + 1 };
    assert(b[second] == b_rest[second_rest]);
    (first, second)
}

} // verus!
