//! Data generators: number theory, combinatorics, graphs and distributions.

pub mod arith;
pub mod combinatorics;
pub mod congruence;
pub mod counting;
pub mod derangement_count;
pub mod distribution;
pub mod euler;
pub mod graph;
pub mod graph_model;
pub mod numtheory;
pub mod pruefer;

use vstd::prelude::*;
use rand::rngs::StdRng;

verus! {

/// A data generator: each call produces one value, drawing randomness from `rng`.
pub trait Generator {
    type Output;

    fn generate(&mut self, rng: &mut StdRng) -> Self::Output;
}

} // verus!
