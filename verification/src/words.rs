//! Arithmetic on single words, from which the loops over a value are built.

use crate::model::word_radix;
use vstd::arithmetic::power2::{lemma2_to64, lemma_pow2_pos, lemma_pow2_strictly_increases, pow2};
use vstd::bits::lemma_u32_shl_is_mul;
use vstd::prelude::*;

verus! {

/// One step of long multiplication: a word times a word, plus the word
/// already in place, plus the carry, split into the word that stays and the
/// carry that moves on.
pub(crate) fn mul_step(a: u32, b: u32, acc: u32, carry: u32) -> (r: (u32, u32))
    ensures
        r.0 + r.1 * word_radix() == a * b + acc + carry,
{
    assert(a * b <= 0xffff_ffff * 0xffff_ffff) by (nonlinear_arith)
        requires
            0 <= a <= 0xffff_ffff,
            0 <= b <= 0xffff_ffff,
    ;
    let product: u64 = (a as u64) * (b as u64) + (acc as u64) + (carry as u64);
    let low = #[verifier::truncate]
    (product as u32);
    let high = (product >> 32) as u32;
    assert(low == product % 0x1_0000_0000 && (product >> 32) == product / 0x1_0000_0000) by (bit_vector)
        requires
            low == product as u32,
    ;
    (low, high)
}

/// The word `2^bits`.
pub(crate) fn pow2_word(bits: u32) -> (f: u32)
    requires
        bits < 32,
    ensures
        f == pow2(bits as nat),
        1 <= f <= 0x8000_0000,
{
    proof {
        lemma2_to64();
        lemma_pow2_pos(bits as nat);
        if bits < 31 {
            lemma_pow2_strictly_increases(bits as nat, 31);
        }
        lemma_u32_shl_is_mul(1, bits);
    }
    1u32 << bits
}

} // verus!
