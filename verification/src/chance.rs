//! Random choices.
//!
//! They are made by the `rand` crate. Verus does not look inside it: the
//! functions below state what holds of every outcome, and those statements
//! are taken on trust.

use rand::seq::SliceRandom;
use rand::Rng;
use vstd::prelude::*;

verus! {

/// `Rng::gen_range` on `0..n`, with the thread's generator: some number
/// below `n`.
#[verifier::external_body]
pub(crate) fn random_below(n: usize) -> (r: usize)
    requires
        n > 0,
    ensures
        r < n,
{
    rand::thread_rng().gen_range(0..n)
}

/// `SliceRandom::shuffle`, with the thread's generator: the same items in
/// some order.
#[verifier::external_body]
pub(crate) fn shuffle(order: &mut Vec<usize>)
    ensures
        final(order)@.to_multiset() == old(order)@.to_multiset(),
{
    order.shuffle(&mut rand::thread_rng());
}

} // verus!
