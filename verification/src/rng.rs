//! The optimizer's randomness source.
//!
//! Two calls into the `rand` crate stand behind trusted wrappers; everything
//! built from them (unit-interval draws, probability checks) is verified.
//! Nothing is promised about which value a draw yields, only about its range,
//! so every caller is verified for every possible outcome.

use vstd::prelude::*;
use crate::fixed::SCALE;
use rand::Rng;
use rand::seq::SliceRandom;

verus! {

/// Relies on `rand::Rng::gen_range` over `0..n`: a draw from a non-empty
/// range lies in that range (`gen_range` panics on an empty one, which the
/// precondition rules out).
#[verifier::external_body]
pub(crate) fn rand_below(n: u64) -> (r: u64)
    requires
        n >= 1,
    ensures
        r < n,
{
    rand::thread_rng().gen_range(0..n)
}

/// Relies on `rand::seq::SliceRandom::shuffle`: a Fisher-Yates pass that
/// permutes the slice in place, so the result holds exactly the elements of
/// the input, in some order.
#[verifier::external_body]
pub fn copy_shuffle(vec: &Vec<usize>) -> (r: Vec<usize>)
    ensures
        r@.len() == vec@.len(),
        r@.to_multiset() == vec@.to_multiset(),
{
    let mut copy = vec.clone();
    copy.shuffle(&mut rand::thread_rng());
    copy
}

/// Draws a gene uniformly from the half-open unit interval `[-1, 1)`,
/// in fixed-point form.
pub fn rand_unit() -> (g: i64)
    ensures
        -SCALE <= g < SCALE,
{
    let u: u64 = rand_below(2_000_000);
    (u as i64) - SCALE
}

/// Decides a random event of the given fixed-point probability.
/// An impossible event never happens and a certain one always does.
pub fn chance_hit(chance: i64) -> (hit: bool)
    requires
        0 <= chance <= SCALE,
    ensures
        chance == 0 ==> !hit,
        chance == SCALE ==> hit,
{
    let v: u64 = rand_below(1_000_000);
    v < (chance as u64)
}

} // verus!
