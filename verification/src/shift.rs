//! Shifts of the whole bit pattern, across word boundaries.

use crate::model::{
    lemma_floor_div_twice, lemma_radix_pow_is_pow2, lemma_radix_pow_step, lemma_radix_pow_values,
    lemma_raw_words, lemma_words_value_agree, lemma_wrap_mul_congruent, lemma_wrap_multiple,
    lemma_wrap_residue, modulus, radix_pow, shl_value, shr_value, sign_threshold, word_radix,
    words_value, wrap,
};
use crate::words::{mul_step, pow2_word};
use crate::ArbitraryFixed;
use crate::SIZE;
use vstd::arithmetic::div_mod::{lemma_fundamental_div_mod, lemma_fundamental_div_mod_converse};
use vstd::arithmetic::power2::{lemma_pow2_adds, lemma_pow2_pos, pow2};
use vstd::prelude::*;

verus! {

/// The integer that the words of `s` from `i` up to `n` spell, word `i`
/// taken as the lowest.
pub open spec fn tail_value(s: Seq<u32>, i: int, n: int) -> int
    decreases n - i,
{
    if i >= n {
        0
    } else {
        s[i] + word_radix() * tail_value(s, i + 1, n)
    }
}

/// Words below `i` do not matter to what the words from `i` on spell.
proof fn lemma_tail_value_agree(s: Seq<u32>, t: Seq<u32>, i: int, n: int)
    requires
        0 <= i,
        n <= s.len(),
        n <= t.len(),
        forall|k: int| i <= k < n ==> s[k] == t[k],
    ensures
        tail_value(s, i, n) == tail_value(t, i, n),
    decreases n - i,
{
    if i < n {
        lemma_tail_value_agree(s, t, i + 1, n);
    }
}

/// All the words of a value, taken from the lowest on, spell its bit
/// pattern.
proof fn lemma_tail_is_raw(a: ArbitraryFixed)
    ensures
        tail_value(a.data@, 0, SIZE as int) == a.raw(),
{
    reveal_with_fuel(tail_value, 5);
    lemma_raw_words(a);
}

/// The bit pattern times `2^bits`, cut to `128` bits.
fn shl_bits(a: &ArbitraryFixed, bits: u32) -> (ret: ArbitraryFixed)
    requires
        bits < 32,
    ensures
        ret.raw() == (a.raw() * pow2(bits as nat)) % modulus(),
{
    let f = pow2_word(bits);
    let mut ret = ArbitraryFixed { data: [0u32; SIZE] };
    let mut carry: u32 = 0;
    let mut i: usize = 0;
    while i < SIZE
        invariant
            i <= SIZE,
            words_value(ret.data@, i as int) + carry * radix_pow(i as int) == words_value(
                a.data@,
                i as int,
            ) * f,
        decreases SIZE - i,
    {
        let ghost before = ret.data@;
        let x = a.data[i];
        let (low, high) = mul_step(x, f, 0, carry);
        ret.data[i] = low;
        proof {
            let p = radix_pow(i as int);
            let wa = words_value(a.data@, i as int);
            lemma_words_value_agree(before, ret.data@, i as int);
            lemma_radix_pow_step(i as int);
            assert(low * p + high * (word_radix() * p) == (x * f) * p + carry * p)
                by (nonlinear_arith)
                requires
                    low + high * word_radix() == x * f + 0 + carry,
            ;
            assert((wa + x * p) * f == wa * f + (x * f) * p) by (nonlinear_arith);
        }
        carry = high;
        i += 1;
    }
    proof {
        lemma_raw_words(ret);
        lemma_raw_words(*a);
        lemma_radix_pow_values();
        lemma_fundamental_div_mod_converse(a.raw() * f, modulus(), carry as int, ret.raw());
    }
    ret
}

/// The bit pattern moved up by whole words, cut to `128` bits.
fn shl_words(a: &ArbitraryFixed, words: usize) -> (ret: ArbitraryFixed)
    requires
        words < SIZE,
    ensures
        ret.raw() == (a.raw() * radix_pow(words as int)) % modulus(),
{
    let mut ret = ArbitraryFixed { data: [0u32; SIZE] };
    let mut i: usize = words;
    while i < SIZE
        invariant
            words <= i <= SIZE,
            forall|k: int| 0 <= k < words ==> ret.data[k] == 0,
            forall|k: int| words <= k < i ==> ret.data[k] == a.data[k - words],
        decreases SIZE - i,
    {
        ret.data[i] = a.data[i - words];
        i += 1;
    }
    proof {
        let d0 = a.data[0] as int;
        let d1 = a.data[1] as int;
        let d2 = a.data[2] as int;
        let d3 = a.data[3] as int;
        lemma_raw_words(ret);
        lemma_raw_words(*a);
        lemma_radix_pow_values();
        let lost = if words == 0 {
            0
        } else if words == 1 {
            d3
        } else if words == 2 {
            d2 + d3 * 0x1_0000_0000
        } else {
            d1 + d2 * 0x1_0000_0000 + d3 * 0x1_0000_0000_0000_0000
        };
        if words == 1 {
            assert(ret.data[1] == a.data[0] && ret.data[2] == a.data[1] && ret.data[3]
                == a.data[2]);
        } else if words == 2 {
            assert(ret.data[2] == a.data[0] && ret.data[3] == a.data[1]);
        } else if words == 3 {
            assert(ret.data[3] == a.data[0]);
        } else {
            assert(ret.data[0] == a.data[0] && ret.data[1] == a.data[1] && ret.data[2]
                == a.data[2] && ret.data[3] == a.data[3]);
        }
        assert(a.raw() * radix_pow(words as int) == lost * modulus() + ret.raw());
        lemma_fundamental_div_mod_converse(
            a.raw() * radix_pow(words as int),
            modulus(),
            lost,
            ret.raw(),
        );
    }
    ret
}

/// The stored integer divided by `2^bits`, rounded down.
fn shr_bits(a: &ArbitraryFixed, bits: u32) -> (ret: ArbitraryFixed)
    requires
        bits < 32,
    ensures
        ret@ == a@ / (pow2(bits as nat) as int),
{
    let f = pow2_word(bits) as u64;
    let negative = a.is_negative();
    let mut rem: u64 = if negative {
        f - 1
    } else {
        0
    };
    let ghost sign_bits = rem as int;
    let mut ret = ArbitraryFixed { data: [0u32; SIZE] };
    let mut i: usize = SIZE;
    while i > 0
        invariant
            i <= SIZE,
            1 <= f <= 0x8000_0000,
            rem < f,
            sign_bits * radix_pow(SIZE - i) + tail_value(a.data@, i as int, SIZE as int)
                == tail_value(ret.data@, i as int, SIZE as int) * f + rem,
        decreases i,
    {
        let ghost before = ret.data@;
        let ghost rem_before = rem as int;
        i -= 1;
        let x = a.data[i];
        let cur: u64 = rem * 0x1_0000_0000 + x as u64;
        let q = cur / f;
        proof {
            lemma_fundamental_div_mod(cur as int, f as int);
        }
        assert(q < 0x1_0000_0000) by (nonlinear_arith)
            requires
                cur == f * q + cur % f,
                cur % f >= 0,
                cur < f * 0x1_0000_0000,
                f > 0,
        ;
        rem = cur % f;
        ret.data[i] = q as u32;
        proof {
            let p = radix_pow(SIZE - i - 1);
            let ta = tail_value(a.data@, i + 1, SIZE as int);
            let tr = tail_value(before, i + 1, SIZE as int);
            lemma_tail_value_agree(before, ret.data@, i + 1, SIZE as int);
            lemma_radix_pow_step(SIZE - i - 1);
            assert(sign_bits * (word_radix() * p) + (x + word_radix() * ta) == (q + word_radix()
                * tr) * f + rem) by (nonlinear_arith)
                requires
                    sign_bits * p + ta == tr * f + rem_before,
                    rem_before * word_radix() + x == f * q + rem,
            ;
        }
    }
    proof {
        lemma_tail_is_raw(*a);
        lemma_tail_is_raw(ret);
        lemma_radix_pow_values();
        lemma_raw_words(*a);
        lemma_raw_words(ret);
        lemma_shr_signed(a.raw(), f as int, ret.raw(), rem as int);
    }
    ret
}

/// What long division by `f` from the top word down leaves, when the
/// words above the top are taken to repeat the sign bit.
proof fn lemma_shr_signed(raw: int, f: int, out: int, rem: int)
    requires
        0 <= raw < modulus(),
        0 <= out < modulus(),
        0 <= rem < f,
        (if raw >= sign_threshold() {
            f - 1
        } else {
            0
        }) * modulus() + raw == out * f + rem,
    ensures
        wrap(out) == wrap(raw) / f,
{
    let m = modulus();
    if raw >= sign_threshold() {
        let v = raw - m;
        assert(v == (out - m) * f + rem) by (nonlinear_arith)
            requires
                (f - 1) * m + raw == out * f + rem,
                v == raw - m,
        ;
        lemma_fundamental_div_mod_converse(v, f, out - m, rem);
        assert(out - m >= -sign_threshold()) by (nonlinear_arith)
            requires
                v == (out - m) * f + rem,
                v >= -sign_threshold(),
                0 <= rem < f,
                sign_threshold() > 0,
        ;
        assert(out - m < 0) by (nonlinear_arith)
            requires
                v == (out - m) * f + rem,
                v < 0,
                0 <= rem < f,
        ;
    } else {
        lemma_fundamental_div_mod_converse(raw, f, out, rem);
        assert(out <= raw) by (nonlinear_arith)
            requires
                raw == out * f + rem,
                out >= 0,
                0 <= rem < f,
        ;
    }
}

/// The stored integer divided by `2^(32 words)`, rounded down.
fn shr_words(a: &ArbitraryFixed, words: usize) -> (ret: ArbitraryFixed)
    requires
        words < SIZE,
    ensures
        ret@ == a@ / radix_pow(words as int),
{
    let fill: u32 = if a.is_negative() {
        0xffff_ffff
    } else {
        0
    };
    let mut ret = ArbitraryFixed { data: [fill; SIZE] };
    let mut i: usize = 0;
    while i + words < SIZE
        invariant
            words < SIZE,
            i + words <= SIZE,
            forall|k: int| 0 <= k < i ==> ret.data[k] == a.data[k + words],
            forall|k: int| i <= k < SIZE ==> ret.data[k] == fill,
        decreases SIZE - i,
    {
        ret.data[i] = a.data[i + words];
        i += 1;
    }
    proof {
        let d0 = a.data[0] as int;
        let d1 = a.data[1] as int;
        let d2 = a.data[2] as int;
        lemma_raw_words(ret);
        lemma_raw_words(*a);
        lemma_radix_pow_values();
        let lost = if words == 0 {
            0
        } else if words == 1 {
            d0
        } else if words == 2 {
            d0 + d1 * 0x1_0000_0000
        } else {
            d0 + d1 * 0x1_0000_0000 + d2 * 0x1_0000_0000_0000_0000
        };
        if words == 1 {
            assert(ret.data[0] == a.data[1] && ret.data[1] == a.data[2] && ret.data[2]
                == a.data[3]);
        } else if words == 2 {
            assert(ret.data[0] == a.data[2] && ret.data[1] == a.data[3]);
        } else if words == 3 {
            assert(ret.data[0] == a.data[3]);
        } else {
            assert(ret.data[0] == a.data[0] && ret.data[1] == a.data[1] && ret.data[2]
                == a.data[2] && ret.data[3] == a.data[3]);
        }
        assert(a@ == ret@ * radix_pow(words as int) + lost);
        lemma_fundamental_div_mod_converse(a@, radix_pow(words as int), ret@, lost);
    }
    ret
}

impl ArbitraryFixed {
    /// Shift left by `n` bits. Bits that pass the top are lost; a shift by
    /// `128` bits or more leaves zero.
    pub fn lshift(&self, n: usize) -> (ret: ArbitraryFixed)
        ensures
            ret@ == shl_value(self@, n as nat),
    {
        if n >= 32 * SIZE {
            proof {
                lemma_raw_words(*self);
                lemma_radix_pow_values();
                lemma_radix_pow_is_pow2(4);
                lemma_pow2_adds(128, (n - 128) as nat);
                let k = pow2((n - 128) as nat) as int;
                assert(self@ * pow2(n as nat) == (self@ * k) * modulus()) by (nonlinear_arith)
                    requires
                        pow2(n as nat) == modulus() * k,
                ;
                lemma_wrap_multiple(0, self@ * k);
            }
            return ArbitraryFixed::zero();
        }
        let bits = (n % 32) as u32;
        let words = n / 32;
        let moved = shl_bits(self, bits);
        let ret = shl_words(&moved, words);
        proof {
            let m = modulus();
            let f = pow2(bits as nat) as int;
            let p = radix_pow(words as int);
            let t = self.raw() * f;
            lemma_raw_words(*self);
            lemma_raw_words(ret);
            lemma_radix_pow_is_pow2(words as nat);
            lemma_pow2_adds(bits as nat, 32 * (words as nat));
            assert(pow2(n as nat) == f * p);
            // the bit pattern of `moved` differs from `t` by a multiple of `2^128`
            lemma_fundamental_div_mod(t, m);
            assert(m * (t / m) == (t / m) * m) by (nonlinear_arith);
            lemma_wrap_mul_congruent(t, moved.raw(), t / m, p);
            lemma_wrap_residue(moved.raw() * p);
            assert(ret@ == wrap(t * p));
            assert(t * p == self.raw() * (f * p)) by (nonlinear_arith)
                requires
                    t == self.raw() * f,
            ;
            // and so does the stored integer from the bit pattern
            let k: int = if self.raw() >= sign_threshold() {
                1
            } else {
                0
            };
            lemma_wrap_mul_congruent(self.raw(), self@, k, f * p);
        }
        ret
    }

    /// Shift left by one bit, in one pass over the words.
    pub fn lshift1(&self) -> (ret: ArbitraryFixed)
        ensures
            ret@ == shl_value(self@, 1),
    {
        let ret = shl_bits(self, 1);
        proof {
            let k: int = if self.raw() >= sign_threshold() {
                1
            } else {
                0
            };
            lemma_raw_words(*self);
            lemma_wrap_residue(self.raw() * pow2(1));
            lemma_wrap_mul_congruent(self.raw(), self@, k, pow2(1) as int);
        }
        ret
    }

    /// Shift right by `n` bits, keeping the sign: the bits that come in at
    /// the top repeat the sign bit. A shift by `128` bits or more leaves
    /// zero, or minus one stored unit for a negative value.
    pub fn rshift(&self, n: usize) -> (ret: ArbitraryFixed)
        ensures
            ret@ == shr_value(self@, n as nat),
    {
        if n >= 32 * SIZE {
            let fill: u32 = if self.is_negative() {
                0xffff_ffff
            } else {
                0
            };
            let ret = ArbitraryFixed { data: [fill; SIZE] };
            proof {
                lemma_raw_words(*self);
                lemma_raw_words(ret);
                lemma_radix_pow_values();
                lemma_radix_pow_is_pow2(4);
                lemma_pow2_adds(128, (n - 128) as nat);
                lemma_pow2_pos((n - 128) as nat);
                let k = pow2((n - 128) as nat) as int;
                let d = pow2(n as nat) as int;
                assert(d >= modulus()) by (nonlinear_arith)
                    requires
                        d == modulus() * k,
                        k >= 1,
                ;
                if self@ < 0 {
                    lemma_fundamental_div_mod_converse(self@, d, -1, self@ + d);
                } else {
                    lemma_fundamental_div_mod_converse(self@, d, 0, self@);
                }
            }
            return ret;
        }
        let bits = (n % 32) as u32;
        let words = n / 32;
        let moved = shr_bits(self, bits);
        let ret = shr_words(&moved, words);
        proof {
            lemma_radix_pow_is_pow2(words as nat);
            lemma_radix_pow_step(words as int);
            lemma_pow2_adds(bits as nat, 32 * (words as nat));
            lemma_pow2_pos(bits as nat);
            lemma_floor_div_twice(self@, pow2(bits as nat) as int, radix_pow(words as int));
        }
        ret
    }

    /// Shift right by one bit, keeping the sign, in one pass over the
    /// words.
    pub fn rshift1(&self) -> (ret: ArbitraryFixed)
        ensures
            ret@ == shr_value(self@, 1),
    {
        shr_bits(self, 1)
    }
}

} // verus!
