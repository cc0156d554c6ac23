use vstd::prelude::*;
use rand::RngExt;

verus! {

/// A position drawn at random from `0..len` with `rand::rng().random_range`.
/// Claimed of it: the position lies in `0..len`; nothing is said of which one.
#[verifier::external_body]
pub(crate) fn random_index(len: usize) -> (i: usize)
    requires
        len > 0,
    ensures
        i < len,
{
    rand::rng().random_range(0..len)
}

} // verus!
