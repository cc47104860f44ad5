//! The random number generator that the generators draw from, and the few
//! sampling operations they use.

use vstd::prelude::*;
use rand::rngs::StdRng;
use rand::seq::SliceRandom;
use rand::RngExt;
use rand::distr::Distribution;

verus! {

#[verifier::external_type_specification]
#[verifier::external_body]
pub struct ExStdRng(rand::rngs::StdRng);

/// `RngExt::random_range` on `low..=high` for `u32`: a value of the range, drawn
/// from `rng`; it panics on an empty range.
#[verifier::external_body]
pub(crate) fn random_u32_in(rng: &mut StdRng, low: u32, high: u32) -> (r: u32)
    requires
        low <= high,
    ensures
        low <= r <= high,
{
    rng.random_range(low..=high)
}

/// `RngExt::random_range` on `low..=high` for `usize`: a value of the range,
/// drawn from `rng`; it panics on an empty range.
#[verifier::external_body]
pub(crate) fn random_usize_in(rng: &mut StdRng, low: usize, high: usize) -> (r: usize)
    requires
        low <= high,
    ensures
        low <= r <= high,
{
    rng.random_range(low..=high)
}

/// `RngExt::random_range` on `low..=high` for `i32`: a value of the range,
/// drawn from `rng`; it panics on an empty range.
#[verifier::external_body]
pub(crate) fn random_i32_in(rng: &mut StdRng, low: i32, high: i32) -> (r: i32)
    requires
        low <= high,
    ensures
        low <= r <= high,
{
    rng.random_range(low..=high)
}

/// `RngExt::random_range` on `low..=high` for `i64`: a value of the range,
/// drawn from `rng`; it panics on an empty range.
#[verifier::external_body]
pub(crate) fn random_i64_in(rng: &mut StdRng, low: i64, high: i64) -> (r: i64)
    requires
        low <= high,
    ensures
        low <= r <= high,
{
    rng.random_range(low..=high)
}

/// `RngExt::random_range` on `low..high` for `usize`: a value of the range,
/// drawn from `rng`; it panics on an empty range.
#[verifier::external_body]
pub(crate) fn random_usize_below(rng: &mut StdRng, low: usize, high: usize) -> (r: usize)
    requires
        low < high,
    ensures
        low <= r < high,
{
    rng.random_range(low..high)
}

/// `Uniform::new_inclusive(low, high)` sampled once with `rng`: a value of
/// `low..=high`. The constructor fails on an empty range, which `requires`
/// leaves out.
#[verifier::external_body]
pub(crate) fn sample_uniform_i64(rng: &mut StdRng, low: i64, high: i64) -> (r: i64)
    requires
        low <= high,
    ensures
        low <= r <= high,
{
    rand::distr::Uniform::new_inclusive(low, high).unwrap().sample(rng)
}

/// `SliceRandom::shuffle`: reorders the elements in place (a Fisher–Yates pass
/// of swaps), so the result holds the same elements, each as often.
#[verifier::external_body]
pub(crate) fn shuffle<T>(v: &mut Vec<T>, rng: &mut StdRng)
    ensures
        final(v)@.to_multiset() == old(v)@.to_multiset(),
{
    v.as_mut_slice().shuffle(rng)
}

} // verus!
