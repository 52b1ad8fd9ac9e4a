use itertools::Itertools;
use std::cmp::Ordering;
use vstd::prelude::*;

verus! {

/// Orders two cells by their counts alone.
pub fn by_count(a: &(usize, (usize, usize)), b: &(usize, (usize, usize))) -> (r: Ordering)
    ensures
        (r matches Ordering::Less) == (a.0 < b.0),
        (r matches Ordering::Equal) == (a.0 == b.0),
        (r matches Ordering::Greater) == (a.0 > b.0),
{
    if a.0 < b.0 {
        Ordering::Less
    } else if a.0 == b.0 {
        Ordering::Equal
    } else {
        Ordering::Greater
    }
}

/// `from` says where in `cells` each entry of `sorted` stood: `sorted` holds
/// the entries of `cells` by ascending count, and entries of one count in
/// the order that they had in `cells`.
pub open spec fn stably_sorted(
    cells: Seq<(usize, (usize, usize))>,
    sorted: Seq<(usize, (usize, usize))>,
    from: Seq<int>,
) -> bool {
    &&& from.len() == cells.len()
    &&& sorted.len() == cells.len()
    &&& forall|i: int| 0 <= i < from.len() ==> 0 <= #[trigger] from[i] < cells.len()
    &&& forall|i: int, j: int|
        0 <= i < j < from.len() ==> #[trigger] from[i] != #[trigger] from[j]
    &&& forall|i: int| 0 <= i < from.len() ==> #[trigger] sorted[i] == cells[from[i]]
    &&& forall|i: int, j: int|
        0 <= i < j < from.len() ==> (#[trigger] sorted[i]).0 < (#[trigger] sorted[j]).0 || (
        sorted[i].0 == sorted[j].0 && from[i] < from[j])
}

/// Calls `Itertools::sorted_by` of itertools on the cells, with `by_count`
/// as the order. That function sorts stably: the result holds the same
/// entries by ascending count, and entries of one count keep the order in
/// which they came.
#[verifier::external_body]
pub(crate) fn sorted_by_count(cells: Vec<(usize, (usize, usize))>) -> (r: Vec<
    (usize, (usize, usize)),
>)
    ensures
        r@.to_multiset() == cells@.to_multiset(),
        exists|from: Seq<int>| stably_sorted(cells@, r@, from),
{
    cells.into_iter().sorted_by(|a, b| by_count(a, b)).collect()
}

} // verus!
