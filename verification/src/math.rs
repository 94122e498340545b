//! The square root.

use crate::constants::SQRT_ITERATIONS;
use crate::model::{heron, lemma_raw_words, sqrt_value};
use crate::ArbitraryFixed;
use crate::SCALING_FACTOR;
use vstd::prelude::*;

verus! {

impl ArbitraryFixed {
    /// Square root by Heron's iteration, started from a power of two near
    /// the root. The root of zero is zero. The sign of the value is not
    /// looked at: a negative value is iterated on like any other, with a
    /// result that means nothing, and a step whose divisor is zero yields
    /// zero.
    pub fn sqrt(&self) -> (ret: ArbitraryFixed)
        ensures
            ret@ == sqrt_value(self@),
    {
        let msb = self.msb();
        proof {
            lemma_raw_words(*self);
        }
        if msb == -1 {
            return ArbitraryFixed::zero();
        }
        let guess: usize = if msb >= SCALING_FACTOR as isize {
            SCALING_FACTOR + (msb as usize - SCALING_FACTOR) / 2
        } else {
            SCALING_FACTOR - (SCALING_FACTOR - msb as usize) / 2
        };
        let mut ret = ArbitraryFixed::epsilon().lshift(guess);
        let mut i: usize = 0;
        while i < SQRT_ITERATIONS
            invariant
                i <= SQRT_ITERATIONS,
                heron(self@, ret@, (SQRT_ITERATIONS - i) as nat) == sqrt_value(self@),
            decreases SQRT_ITERATIONS - i,
        {
            let numerator = ret * ret + *self;
            let denominator = ret.lshift1();
            ret = match numerator / denominator {
                Ok(q) => q,
                Err(_) => ArbitraryFixed::zero(),
            };
            i += 1;
        }
        ret
    }
}

} // verus!
