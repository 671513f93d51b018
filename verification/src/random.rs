//! Randomness at the library's edge, drawn from the rand crate.

use vstd::prelude::*;
use rand::Rng;
use rand::seq::SliceRandom;

verus! {

/// Relies on rand::thread_rng and rand::Rng::gen_range over `0..n`: a draw
/// from a non-empty range lies below its upper bound (the range must not be
/// empty, as gen_range panics on one).
#[verifier::external_body]
pub(crate) fn random_below(n: usize) -> (r: usize)
    requires
        0 < n,
    ensures
        r < n,
{
    rand::thread_rng().gen_range(0..n)
}

/// Relies on rand::seq::SliceRandom::shuffle, a Fisher-Yates pass of swaps:
/// the slice is permuted in place, so its elements are kept as a multiset.
#[verifier::external_body]
pub(crate) fn shuffle_indices(v: &mut Vec<usize>)
    ensures
        final(v)@.to_multiset() == old(v)@.to_multiset(),
        final(v)@.len() == old(v)@.len(),
{
    v.shuffle(&mut rand::thread_rng())
}

} // verus!
