use vstd::prelude::*;
use rdst::RadixSort;

verus! {

/// Sorts the keys in ascending order with `rdst::RadixSort::radix_sort_unstable`.
/// Claimed of it: the result is sorted ascending and holds the same keys.
#[verifier::external_body]
pub(crate) fn radix_sort_keys(keys: &mut Vec<u128>)
    ensures
        final(keys)@.to_multiset() == old(keys)@.to_multiset(),
        final(keys)@.len() == old(keys)@.len(),
        forall|a: int, b: int|
            0 <= a <= b < final(keys)@.len() ==> final(keys)@[a] <= final(keys)@[b],
{
    keys.radix_sort_unstable();
}

} // verus!
