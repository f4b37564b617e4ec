//! Iterator adaptors of the `itertools` crate, each behind a function that
//! takes and returns vectors.

use crate::sorting::{ascending, values};
use itertools::Itertools;
use itertools::MinMaxResult;
use vstd::prelude::*;

verus! {

/// Every pair of two places of `s`, the earlier place first: the pairs that
/// start at the first place, in the order of their second place, then those
/// that start at the second place, and so on.
pub open spec fn all_pairs<T>(s: Seq<T>) -> Seq<(T, T)>
    decreases s.len(),
{
    if s.len() < 2 {
        Seq::empty()
    } else {
        s.drop_first().map_values(|y: T| (s[0], y)) + all_pairs(s.drop_first())
    }
}

/// The pairs that `Itertools::combinations(2)` yields for the items of `v`,
/// in the order in which it yields them: `all_pairs` of the items.
#[verifier::external_body]
pub(crate) fn pairs_in_order<T: Copy>(v: &[T]) -> (pairs: Vec<(T, T)>)
    ensures
        pairs@ == all_pairs(v@),
{
    v.iter().combinations(2).map(|pair| (*pair[0], *pair[1])).collect()
}


/// The items of `v` as `Itertools::sorted` yields them: in ascending order,
/// each value as often as `v` holds it.
#[verifier::external_body]
pub(crate) fn sorted_copy<T: Integer + Ord + Copy>(v: &[T]) -> (sorted: Vec<T>)
    ensures
        ascending(values(sorted@)),
        values(sorted@).to_multiset() == values(v@).to_multiset(),
{
    v.iter().copied().sorted().collect()
}

/// The pairs of neighbours that `Itertools::tuple_windows` yields for the
/// items of `v`: one for each place but the last, in order.
#[verifier::external_body]
pub(crate) fn pair_windows<T: Copy>(v: &[T]) -> (windows: Vec<(T, T)>)
    ensures
        windows.len() == if v.len() == 0 { 0 } else { v.len() - 1 },
        forall|i: int| 0 <= i < windows.len() ==> #[trigger] windows[i] == (v[i], v[i + 1]),
{
    v.iter().copied().tuple_windows().collect()
}

/// The least and the greatest of some numbers, as `Itertools::minmax` tells them.
#[derive(Debug, Clone, Copy, PartialEq, Eq, Structural)]
pub enum Extremes {
    /// There is no number.
    Nothing,
    /// There is one number.
    Single(i32),
    /// There are two numbers or more; the least comes first.
    Pair(i32, i32),
}

/// What `Itertools::minmax` finds in `v`: nothing in an empty vector, the
/// one item of a vector of one, else the least item and the greatest.
#[verifier::external_body]
pub(crate) fn extremes_of(v: &[i32]) -> (found: Extremes)
    ensures
        match found {
            Extremes::Nothing => v.len() == 0,
            Extremes::Single(x) => v.len() == 1 && x == v[0],
            Extremes::Pair(least, greatest) => v.len() >= 2 && v@.contains(least) && v@.contains(
                greatest,
            ) && forall|i: int| 0 <= i < v.len() ==> least <= #[trigger] v[i] <= greatest,
        },
{
    match v.iter().minmax() {
        MinMaxResult::NoElements => Extremes::Nothing,
        MinMaxResult::OneElement(x) => Extremes::Single(*x),
        MinMaxResult::MinMax(least, greatest) => Extremes::Pair(*least, *greatest),
    }
}

/// The names with the separator between each two of them.
pub open spec fn joined(names: Seq<Seq<char>>, sep: Seq<char>) -> Seq<char>
    decreases names.len(),
{
    if names.len() == 0 {
        Seq::empty()
    } else if names.len() == 1 {
        names[0]
    } else {
        joined(names.drop_last(), sep) + sep + names.last()
    }
}

/// The strings as `Itertools::join` puts them together: one after the
/// other, with the separator between each two.
#[verifier::external_body]
pub(crate) fn join_names(v: &[String], sep: &str) -> (text: String)
    ensures
        text@ == joined(v@.map_values(|s: String| s@), sep@),
{
    v.iter().join(sep)
}

/// A type whose values are equal just when their views are: characters and strings.
pub trait Plain: View {

}

impl Plain for char {

}

impl Plain for String {

}

/// The views of some items.
pub open spec fn views_of<T: View>(items: Seq<T>) -> Seq<T::V> {
    items.map_values(|item: T| item@)
}

/// How many items `Itertools::unique` lets through: the number of
/// different values among the items of `v`.
#[verifier::external_body]
pub(crate) fn count_unique<T: Plain + Eq + std::hash::Hash + Clone>(v: &[T]) -> (count: usize)
    ensures
        count == views_of(v@).to_set().len(),
{
    v.iter().unique().count()
}

} // verus!
