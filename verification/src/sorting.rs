//! Sorting and searching sequences of machine integers.

use vstd::prelude::*;
use vstd::relations::{sorted_by, total_ordering};
use vstd::seq_lib::{lemma_sorted_unique, to_multiset_len};

verus! {

/// The values of a sequence of machine integers.
pub open spec fn values<T: Integer>(s: Seq<T>) -> Seq<int> {
    s.map_values(|x: T| x as int)
}

/// `s` is in ascending order.
pub open spec fn ascending(s: Seq<int>) -> bool {
    forall|i: int, j: int| 0 <= i < j < s.len() ==> s[i] <= s[j]
}

/// Sorts `v` in place with the standard library's `sort_unstable`: what is
/// left is in ascending order and holds each value as often as before.
#[verifier::external_body]
pub(crate) fn sort_in_place<T: Integer + Ord>(v: &mut Vec<T>)
    ensures
        ascending(values(final(v)@)),
        values(final(v)@).to_multiset() == values(old(v)@).to_multiset(),
{
    v.sort_unstable();
}

/// Looks `x` up in a sorted `v` with the standard library's `binary_search`,
/// and says whether it was found.
#[verifier::external_body]
pub(crate) fn found_in_sorted<T: Integer + Ord>(v: &[T], x: T) -> (found: bool)
    requires
        ascending(values(v@)),
    ensures
        found == values(v@).contains(x as int),
{
    v.binary_search(&x).is_ok()
}

/// Two sequences that hold each value equally often hold the same values
/// and are equally long.
pub proof fn lemma_same_members(a: Seq<int>, b: Seq<int>)
    requires
        a.to_multiset() == b.to_multiset(),
    ensures
        a.len() == b.len(),
        forall|x: int| a.contains(x) <==> b.contains(x),
{
    broadcast use vstd::seq_lib::to_multiset_contains;

    to_multiset_len(a);
    to_multiset_len(b);
    assert forall|x: int| a.contains(x) <==> b.contains(x) by {
        assert(a.contains(x) <==> a.to_multiset().count(x) > 0);
        assert(b.contains(x) <==> b.to_multiset().count(x) > 0);
    }
}

/// An ascending sequence that holds each value as often as `a` does is `a` sorted.
pub proof fn lemma_ascending_is_sorted(a: Seq<int>, b: Seq<int>)
    requires
        ascending(b),
        b.to_multiset() == a.to_multiset(),
    ensures
        b == a.sort(),
{
    let leq = |x: int, y: int| x <= y;
    a.lemma_sort_ensures();
    assert(total_ordering(leq));
    assert(sorted_by(b, leq));
    lemma_sorted_unique(b, a.sort(), leq);
}

} // verus!
