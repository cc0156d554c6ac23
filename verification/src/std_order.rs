use vstd::prelude::*;

verus! {

broadcast use vstd::array::group_array_axioms;

/// Calls `slice::select_nth_unstable_by_key` keyed on coordinate `axis`.
/// Claimed of it, as its documentation states: the points are reordered so that
/// the one at `k` has every point before it at most its `axis` coordinate and
/// every point after it at least that coordinate.
#[verifier::external_body]
pub(crate) fn select_nth_by_axis<const K: usize>(elems: &mut Vec<[i32; K]>, k: usize, axis: usize)
    requires
        k < old(elems)@.len(),
        axis < K,
    ensures
        final(elems)@.len() == old(elems)@.len(),
        final(elems)@.to_multiset() == old(elems)@.to_multiset(),
        forall|i: int| 0 <= i < k ==> final(elems)@[i][axis as int] <= final(elems)@[k as int][axis as int],
        forall|i: int|
            k < i < final(elems)@.len() ==> final(elems)@[i][axis as int] >= final(elems)@[k as int][axis as int],
{
    elems.select_nth_unstable_by_key(k, |p| p[axis]);
}

/// Calls `slice::sort_unstable_by_key` keyed on coordinate `axis`.
/// Claimed of it: the points are reordered so that their `axis` coordinates ascend.
#[verifier::external_body]
pub(crate) fn sort_by_axis<const K: usize>(elems: &mut Vec<[i32; K]>, axis: usize)
    requires
        axis < K,
    ensures
        final(elems)@.len() == old(elems)@.len(),
        final(elems)@.to_multiset() == old(elems)@.to_multiset(),
        forall|a: int, b: int|
            0 <= a <= b < final(elems)@.len() ==> final(elems)@[a][axis as int] <= final(elems)@[b][axis as int],
{
    elems.sort_unstable_by_key(|p| p[axis]);
}

} // verus!
