use vstd::prelude::*;
use rayon::iter::{IntoParallelIterator, IntoParallelRefIterator, ParallelIterator};

verus! {

/// Runs both closures, potentially in parallel, with `rayon::join`.
/// Claimed of it, as its documentation states: it returns the pair of the
/// closures' results.
#[verifier::external_body]
pub(crate) fn join<A, B, RA, RB>(oper_a: A, oper_b: B) -> (r: (RA, RB)) where
    A: FnOnce() -> RA + Send,
    B: FnOnce() -> RB + Send,
    RA: Send,
    RB: Send,

    requires
        oper_a.requires(()),
        oper_b.requires(()),
    ensures
        oper_a.ensures((), r.0),
        oper_b.ensures((), r.1),
{
    rayon::join(oper_a, oper_b)
}

/// Maps `f` over `items`, potentially in parallel, with rayon's
/// `par_iter().map(f).collect()`. Claimed, as rayon's documentation states for
/// an indexed parallel iterator collected into a `Vec`: one result per item,
/// in the order of the items.
#[verifier::external_body]
pub(crate) fn par_map<T, R, F>(items: &[T], f: F) -> (r: Vec<R>) where
    T: Sync,
    R: Send,
    F: Fn(&T) -> R + Sync + Send,

    requires
        forall|i: int| 0 <= i < items@.len() ==> f.requires((&items@[i],)),
    ensures
        r@.len() == items@.len(),
        forall|i: int| 0 <= i < items@.len() ==> f.ensures((&items@[i],), #[trigger] r@[i]),
{
    items.par_iter().map(f).collect()
}

/// The results of `f` on `0..n`, computed potentially in parallel with
/// rayon's `(0..n).into_par_iter().map(f).collect()`. Claimed, as rayon's
/// documentation states for an indexed parallel iterator collected into a
/// `Vec`: one result per index, in index order.
#[verifier::external_body]
pub(crate) fn par_tabulate<R, F>(n: usize, f: F) -> (r: Vec<R>) where
    R: Send,
    F: Fn(usize) -> R + Sync + Send,

    requires
        forall|i: usize| i < n ==> f.requires((i,)),
    ensures
        r@.len() == n,
        forall|i: int| 0 <= i < n ==> f.ensures((i as usize,), #[trigger] r@[i]),
{
    (0..n).into_par_iter().map(f).collect()
}

} // verus!
