//! Distribution-based random value generators over integers.

use vstd::prelude::*;
use rand::rngs::StdRng;

use super::Generator;
use crate::rng::sample_uniform_i64;

verus! {

// ---------------------------------------------------------------------------
// UniformIntGen
// ---------------------------------------------------------------------------

/// Generates uniformly distributed `i64` values in the inclusive range `[min, max]`.
pub struct UniformIntGen {
    min: i64,
    max: i64,
}

impl UniformIntGen {
    /// The lower bound.
    pub closed spec fn lo(self) -> i64 {
        self.min
    }

    /// The upper bound.
    pub closed spec fn hi(self) -> i64 {
        self.max
    }

    #[verifier::type_invariant]
    closed spec fn bounds_ordered(self) -> bool {
        self.min <= self.max
    }

    /// Create a new uniform integer generator.
    ///
    /// The range must not be empty: `min <= max`.
    pub fn new(min: i64, max: i64) -> (g: Self)
        requires
            min <= max,
        ensures
            g.lo() == min,
            g.hi() == max,
    {
        Self { min, max }
    }
}

impl Generator for UniformIntGen {
    type Output = i64;

    fn generate(&mut self, rng: &mut StdRng) -> (v: i64)
        ensures
            old(self).lo() <= v <= old(self).hi(),
            *final(self) == *old(self),
    {
        proof {
            use_type_invariant(&*self);
        }
        sample_uniform_i64(rng, self.min, self.max)
    }
}

} // verus!
