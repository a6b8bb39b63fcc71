//! Random choices, drawn from the `rand` crate's thread-local generator.

use rand::seq::SliceRandom;
use rand::Rng;
use vstd::prelude::*;

verus! {

/// Calls `rand::seq::SliceRandom::choose` on `items`. For a non-empty slice the crate
/// returns `Some` of one of the slice's elements; which one is left to chance.
#[verifier::external_body]
pub(crate) fn choose_one(items: &Vec<u16>) -> (r: u16)
    requires
        items.len() > 0,
    ensures
        items@.contains(r),
{
    *items.choose(&mut rand::thread_rng()).unwrap()
}

/// Calls `rand::seq::SliceRandom::shuffle` on `items`: the crate swaps elements in
/// place, so the result holds the same elements in an order left to chance.
#[verifier::external_body]
pub(crate) fn shuffle_in_place(items: &mut Vec<u16>)
    ensures
        final(items)@.to_multiset() == old(items)@.to_multiset(),
{
    items.shuffle(&mut rand::thread_rng());
}

/// Calls `rand::Rng::gen_range(0..bound)`: a value below `bound`, each of them
/// equally likely. The crate panics on an empty range, that is when `bound == 0`.
#[verifier::external_body]
pub(crate) fn draw_below(bound: u64) -> (r: u64)
    requires
        bound > 0,
    ensures
        r < bound,
{
    rand::thread_rng().gen_range(0..bound)
}

/// Calls `rand::random::<u32>()`: any `u32`, left to chance.
#[verifier::external_body]
pub(crate) fn random_u32() -> (r: u32) {
    rand::random::<u32>()
}

} // verus!
