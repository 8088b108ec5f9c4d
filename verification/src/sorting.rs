//! Stable sorting of `(usize, i64)` pairs, done by `std` and `itertools`.

use itertools::Itertools;
use std::cmp::Ordering;
use vstd::prelude::*;

verus! {

/// `p` tells, for each place of `after`, the place of `before` whose item
/// stands there now; no place of `before` is used twice.
pub open spec fn arranges<T>(before: Seq<T>, after: Seq<T>, p: Seq<int>) -> bool {
    &&& p.len() == after.len()
    &&& p.len() == before.len()
    &&& forall|i: int|
        0 <= i < p.len() ==> 0 <= #[trigger] p[i] < p.len() && after[i] == before[p[i]]
    &&& forall|i: int, j: int| 0 <= i < j < p.len() ==> #[trigger] p[i] != #[trigger] p[j]
}

/// The keys of `after` never descend, and items of equal key stand in the
/// order of the places `p` they came from.
pub open spec fn ordered_stably<T>(after: Seq<T>, p: Seq<int>, key: spec_fn(T) -> int) -> bool {
    forall|i: int, j: int|
        0 <= i < j < after.len() ==> key(#[trigger] after[i]) <= key(#[trigger] after[j]) && (key(
            after[i],
        ) == key(after[j]) ==> p[i] < p[j])
}

/// `after` is `before` sorted by `key`, ascending, with items of equal key
/// left in their order.
pub open spec fn stable_sort_of<T>(before: Seq<T>, after: Seq<T>, key: spec_fn(T) -> int) -> bool {
    &&& after.to_multiset() == before.to_multiset()
    &&& exists|p: Seq<int>| #[trigger] arranges(before, after, p) && ordered_stably(after, p, key)
}

/// The first component of a pair, as a sort key.
pub open spec fn first_key(e: (usize, i64)) -> int {
    e.0 as int
}

/// The second component of a pair, as a sort key.
pub open spec fn second_key(e: (usize, i64)) -> int {
    e.1 as int
}

/// Sorts the pairs by their first component with `slice::sort_by_key`.
///
/// Not proved here: that the standard library's sort returns the same
/// items in ascending key order and keeps items of equal key in their order.
#[verifier::external_body]
pub(crate) fn sort_by_first(items: &mut Vec<(usize, i64)>)
    ensures
        stable_sort_of(old(items)@, final(items)@, |e: (usize, i64)| first_key(e)),
{
    items.sort_by_key(|e| e.0);
}

/// How two pairs compare by their second component.
pub(crate) fn order_by_second(x: &(usize, i64), y: &(usize, i64)) -> (o: Ordering)
    ensures
        o == Ordering::Less <==> x.1 < y.1,
        o == Ordering::Equal <==> x.1 == y.1,
        o == Ordering::Greater <==> x.1 > y.1,
{
    if x.1 < y.1 {
        Ordering::Less
    } else if x.1 == y.1 {
        Ordering::Equal
    } else {
        Ordering::Greater
    }
}

/// Sorts the pairs by their second component with `Itertools::sorted_by`.
///
/// Not proved here: that `sorted_by`, given `order_by_second`, returns the
/// same items in ascending order of the second component and keeps items
/// that compare equal in their order.
#[verifier::external_body]
pub(crate) fn sorted_by_second(items: Vec<(usize, i64)>) -> (sorted: Vec<(usize, i64)>)
    ensures
        stable_sort_of(items@, sorted@, |e: (usize, i64)| second_key(e)),
{
    items.into_iter().sorted_by(|x, y| order_by_second(x, y)).collect()
}

} // verus!
