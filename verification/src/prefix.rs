use vstd::prelude::*;
use rayon::iter::{IntoParallelIterator, ParallelIterator};
use rayon_scan::ScanParallelIterator;

verus! {

/// Sum of the first `n` counts.
pub open spec fn seq_sum(s: Seq<usize>, n: int) -> int
    decreases n,
{
    if n <= 0 {
        0
    } else {
        seq_sum(s, n - 1) + s[n - 1]
    }
}

/// `a + b`, the combining step of a prefix sum.
pub fn add_counts(a: &usize, b: &usize) -> (s: usize)
    requires
        *a + *b <= usize::MAX,
    ensures
        s == *a + *b,
{
    *a + *b
}

/// Inclusive prefix sums of `counts`, computed in parallel by
/// `rayon_scan::ScanParallelIterator::scan` with `add_counts` and identity 0.
/// Claimed of it, as its documentation states: the `i`-th result is the sum of
/// the first `i + 1` counts.
#[verifier::external_body]
pub(crate) fn prefix_sums(counts: Vec<usize>) -> (sums: Vec<usize>)
    requires
        seq_sum(counts@, counts@.len() as int) <= usize::MAX,
    ensures
        sums@.len() == counts@.len(),
        forall|i: int| 0 <= i < counts@.len() ==> #[trigger] sums@[i] == seq_sum(counts@, i + 1),
{
    counts.into_par_iter().scan(|a: &usize, b: &usize| add_counts(a, b), 0).collect()
}

} // verus!
