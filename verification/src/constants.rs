//! The constants that the iterative algorithms are tuned with.

use crate::model::{lemma_raw_words, unit};
use crate::ArbitraryFixed;
use crate::SIZE;
use vstd::prelude::*;

verus! {

/// Rounds of Goldschmidt's iteration in a division. With the linear first
/// estimate, which is off by at most `1/17`, each round squares the
/// relative error.
pub const DIV_ITERATIONS: usize = 6;

/// Rounds of Newton's iteration in a reciprocal.
pub const INV_ITERATIONS: usize = 8;

/// Rounds of Heron's iteration in a square root.
pub const SQRT_ITERATIONS: usize = 8;

/// Words of `2.82352941176`, the intercept of the linear estimate of
/// `1 / d` for `d` in `[1/2, 1)`: close to `48/17`.
pub const DIV_SEED_INTERCEPT: [u32; SIZE] = [0x0000_0000, 0xcda6_4000, 0xd2d2_d2d2, 0x0000_0002];

/// Words of `1.88235294118`, the slope of that estimate: close to `32/17`.
pub const DIV_SEED_SLOPE: [u32; SIZE] = [0x0000_0000, 0xe5c3_5000, 0xe1e1_e1e1, 0x0000_0001];

/// The stored integer of the intercept.
pub open spec fn div_seed_intercept() -> int {
    0x0000_0002_d2d2_d2d2_cda6_4000_0000_0000
}

/// The stored integer of the slope.
pub open spec fn div_seed_slope() -> int {
    0x0000_0001_e1e1_e1e1_e5c3_5000_0000_0000
}

impl ArbitraryFixed {
    /// The intercept of the first estimate in a division.
    pub fn div_intercept() -> (r: ArbitraryFixed)
        ensures
            r@ == div_seed_intercept(),
    {
        let r = ArbitraryFixed { data: DIV_SEED_INTERCEPT };
        proof {
            lemma_raw_words(r);
        }
        r
    }

    /// The slope of the first estimate in a division.
    pub fn div_slope() -> (r: ArbitraryFixed)
        ensures
            r@ == div_seed_slope(),
    {
        let r = ArbitraryFixed { data: DIV_SEED_SLOPE };
        proof {
            lemma_raw_words(r);
        }
        r
    }

    /// The number two.
    pub fn two() -> (r: ArbitraryFixed)
        ensures
            r@ == 2 * unit(),
    {
        let mut r = ArbitraryFixed { data: [0u32; SIZE] };
        r.data[SIZE - 1] = 2;
        proof {
            lemma_raw_words(r);
        }
        r
    }

    /// The smallest positive value: the stored integer one.
    pub fn epsilon() -> (r: ArbitraryFixed)
        ensures
            r@ == 1,
    {
        let mut r = ArbitraryFixed { data: [0u32; SIZE] };
        r.data[0] = 1;
        proof {
            lemma_raw_words(r);
        }
        r
    }
}

} // verus!
