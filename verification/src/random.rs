//! Trusted access to the process random number generator.
//!
//! Sampling and shuffling decide nothing about correctness: the contracts
//! state only what holds of every possible outcome — a drawn index is in
//! range, and a shuffle permutes its input.

use vstd::prelude::*;

use crate::puzzle::Puzzle;

verus! {

/// Relies on rand::random_range: returns a value drawn from the given range
/// by the thread-local generator. Nothing is assumed beyond the bound.
#[verifier::external_body]
pub(crate) fn rand_below(n: usize) -> (r: usize)
    requires
        n > 0,
    ensures
        r < n,
{
    rand::random_range(0..n)
}

/// Relies on rand::seq::SliceRandom::shuffle: permutes the slice in place,
/// so the multiset of elements is unchanged.
#[verifier::external_body]
pub(crate) fn shuffle_puzzles(v: &mut Vec<Puzzle>)
    ensures
        final(v)@.to_multiset() == old(v)@.to_multiset(),
{
    rand::seq::SliceRandom::shuffle(v.as_mut_slice(), &mut rand::rng())
}

} // verus!
