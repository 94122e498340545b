//! Queries on the bit pattern of a value, and the constants zero and one.

use crate::model::{
    lemma_msb_unique, lemma_radix_pow_is_pow2, lemma_raw_words, lemma_words_value_bound,
    lemma_words_value_top_zero, msb_of, radix_pow, unit, unsigned, words_value,
};
use crate::ArbitraryFixed;
use crate::SCALING_FACTOR;
use crate::SIZE;
use vstd::arithmetic::power2::{
    lemma2_to64, lemma_pow2_adds, lemma_pow2_pos, lemma_pow2_unfold, pow2,
};
use vstd::prelude::*;

verus! {

/// Index of the highest set bit of a word that is not zero.
fn word_msb(w: u32) -> (b: u32)
    requires
        w > 0,
    ensures
        b < 32,
        pow2(b as nat) <= w < pow2((b + 1) as nat),
{
    let mut t = w;
    let mut b: u32 = 0;
    proof {
        lemma2_to64();
    }
    while t > 1
        invariant
            t >= 1,
            b < 32,
            t * pow2(b as nat) <= w < (t + 1) * pow2(b as nat),
        decreases t,
    {
        proof {
            let p = pow2(b as nat) as int;
            let half = (t / 2) as int;
            lemma2_to64();
            lemma_pow2_pos(b as nat);
            lemma_pow2_unfold((b + 1) as nat);
            assert(half * (2 * p) <= t * p && (t + 1) * p <= (half + 1) * (2 * p))
                by (nonlinear_arith)
                requires
                    2 * half <= t <= 2 * half + 1,
                    p > 0,
            ;
            assert(b < 31) by {
                if b >= 31 {
                    assert(t * p >= 2 * p) by (nonlinear_arith)
                        requires
                            t >= 2,
                            p > 0,
                    ;
                }
            }
        }
        t = t / 2;
        b = b + 1;
    }
    proof {
        lemma_pow2_unfold((b + 1) as nat);
    }
    b
}

impl Default for ArbitraryFixed {
    /// The number zero.
    fn default() -> (r: ArbitraryFixed)
        ensures
            r@ == 0,
    {
        ArbitraryFixed::zero()
    }
}

impl ArbitraryFixed {
    /// Index of the highest set bit of the bit pattern, counted from zero
    /// at the lowest bit of the lowest word; `-1` when the value is zero.
    pub fn msb(&self) -> (r: isize)
        ensures
            r == msb_of(unsigned(self@)),
            r == msb_of(self.raw()),
            -1 <= r < 32 * SIZE,
            (r == -1) == (self@ == 0),
    {
        proof {
            lemma_raw_words(*self);
        }
        let mut i: usize = SIZE;
        while i > 0
            invariant
                i <= SIZE,
                unsigned(self@) == self.raw(),
                forall|k: int| i <= k < SIZE ==> self.data[k] == 0,
            decreases i,
        {
            i -= 1;
            let w = self.data[i];
            if w != 0 {
                let b = word_msb(w);
                proof {
                    let low = words_value(self.data@, i as int);
                    let p = radix_pow(i as int);
                    let pb = pow2(b as nat) as int;
                    lemma_raw_words(*self);
                    lemma_words_value_bound(self.data@, i as int);
                    lemma_radix_pow_is_pow2(i as nat);
                    lemma_pow2_adds(b as nat, 32 * (i as nat));
                    lemma_pow2_adds((b + 1) as nat, 32 * (i as nat));
                    lemma_words_value_top_zero(self.data@, i + 1, SIZE as int);
                    assert(self.raw() == low + w * p);
                    assert(pb * p <= w * p && w * p + p <= pow2((b + 1) as nat) * p)
                        by (nonlinear_arith)
                        requires
                            pb <= w,
                            w + 1 <= pow2((b + 1) as nat),
                            p > 0,
                    ;
                    assert(((b + 1) as nat) + 32 * (i as nat) == (b + 32 * i) as nat + 1);
                    lemma_msb_unique(self.raw(), (b + 32 * i) as nat);
                }
                return (b as usize + 32 * i) as isize;
            }
        }
        proof {
            lemma_raw_words(*self);
        }
        -1
    }

    /// Whether the sign bit, the top bit of the top word, is set.
    pub fn is_negative(&self) -> (r: bool)
        ensures
            r == (self@ < 0),
    {
        let top = self.data[SIZE - 1];
        proof {
            lemma_raw_words(*self);
            assert((top & 0x8000_0000 > 0) == (top >= 0x8000_0000)) by (bit_vector);
        }
        (top & 0x8000_0000) > 0
    }

    /// The number zero: every word is zero.
    pub fn zero() -> (r: ArbitraryFixed)
        ensures
            r@ == 0,
    {
        let r = ArbitraryFixed { data: [0u32; SIZE] };
        proof {
            lemma_raw_words(r);
        }
        r
    }

    /// Whether every word is zero.
    pub fn is_zero(&self) -> (r: bool)
        ensures
            r == (self@ == 0),
    {
        proof {
            lemma_raw_words(*self);
        }
        let mut i: usize = 0;
        while i < SIZE
            invariant
                i <= SIZE,
                forall|k: int| 0 <= k < i ==> self.data[k] == 0,
            decreases SIZE - i,
        {
            if self.data[i] != 0 {
                proof {
                    lemma_raw_words(*self);
                }
                return false;
            }
            i += 1;
        }
        proof {
            lemma_raw_words(*self);
        }
        true
    }

    /// The number one: the stored integer `2^96`.
    pub fn one() -> (r: ArbitraryFixed)
        ensures
            r@ == unit(),
    {
        let mut r = ArbitraryFixed { data: [0u32; SIZE] };
        r.data[SCALING_FACTOR / 32] = 1;
        proof {
            lemma_raw_words(r);
        }
        r
    }

    /// Whether the value is the number one.
    pub fn is_one(&self) -> (r: bool)
        ensures
            r == (self@ == unit()),
    {
        let one = Self::one();
        *self == one
    }
}

} // verus!
