//! The mathematical model: what a word array means as an integer, and the
//! integer functions that the contracts of the arithmetic are stated with.

use crate::constants::{
    div_seed_intercept, div_seed_slope, DIV_ITERATIONS, INV_ITERATIONS, SQRT_ITERATIONS,
};
use crate::ArbitraryFixed;
use crate::SCALING_FACTOR;
use crate::SIZE;
use vstd::arithmetic::div_mod::lemma_fundamental_div_mod_converse;
use vstd::arithmetic::power2::{lemma2_to64, lemma_pow2_adds, lemma_pow2_pos, lemma_pow2_unfold, pow2};
use vstd::prelude::*;

verus! {

/// `2^32`: the weight of one word.
pub open spec fn word_radix() -> int {
    0x1_0000_0000
}

/// `2^128`: the number of bit patterns of a value.
pub open spec fn modulus() -> int {
    0x1_0000_0000_0000_0000_0000_0000_0000_0000int
}

/// `2^127`: the first bit pattern that is read as negative.
pub open spec fn sign_threshold() -> int {
    0x8000_0000_0000_0000_0000_0000_0000_0000
}

/// `2^96`: the stored integer of the number one.
pub open spec fn unit() -> int {
    0x1_0000_0000_0000_0000_0000_0000
}

/// `2^(32 k)`: the weight of word `k`.
pub open spec fn radix_pow(k: int) -> int
    decreases k,
{
    if k <= 0 {
        1
    } else {
        word_radix() * radix_pow(k - 1)
    }
}

/// The integer that the first `n` words of `s` spell, least significant
/// word first.
pub open spec fn words_value(s: Seq<u32>, n: int) -> int
    decreases n,
{
    if n <= 0 {
        0
    } else {
        words_value(s, n - 1) + s[n - 1] * radix_pow(n - 1)
    }
}

/// Whether `x` is a stored integer: `-2^127 <= x < 2^127`.
pub open spec fn in_range(x: int) -> bool {
    -sign_threshold() <= x < sign_threshold()
}

/// The stored integer congruent to `x` modulo `2^128`: two's-complement
/// wraparound.
pub open spec fn wrap(x: int) -> int {
    (x + sign_threshold()) % modulus() - sign_threshold()
}

/// The bit pattern of a stored integer, as a number below `2^128`.
pub open spec fn unsigned(x: int) -> int {
    x % modulus()
}

/// The absolute value of an integer.
pub open spec fn magnitude(x: int) -> int {
    if x < 0 {
        -x
    } else {
        x
    }
}

/// The stored integer of a product: the exact product of the two numbers,
/// rounded toward zero to a multiple of `2^-96`, then wrapped.
pub open spec fn mul_value(a: int, b: int) -> int {
    let p = magnitude(a) * magnitude(b) / unit();
    wrap(
        if (a < 0) != (b < 0) {
            -p
        } else {
            p
        },
    )
}

/// Index of the highest set bit of `n`, counted from zero; `-1` for zero.
pub open spec fn msb_of(n: int) -> int
    decreases n,
{
    if n <= 0 {
        -1
    } else {
        1 + msb_of(n / 2)
    }
}

/// The stored integer of a value shifted left by `n` bits: bits that leave
/// at the top are lost.
pub open spec fn shl_value(a: int, n: nat) -> int {
    wrap(a * pow2(n))
}

/// The stored integer of a value shifted right by `n` bits with its sign
/// kept: the quotient by `2^n`, rounded toward negative infinity.
pub open spec fn shr_value(a: int, n: nat) -> int {
    a / (pow2(n) as int)
}

/// The stored integer of the magnitude of a value, as negation computes
/// it: the most negative value is its own magnitude.
pub open spec fn abs_value(a: int) -> int {
    if a < 0 {
        wrap(-a)
    } else {
        a
    }
}

/// The stored integer of `x` scaled by `2^-offset`, as division scales
/// its operands: right for a positive offset, left otherwise.
pub open spec fn normalize(x: int, offset: int) -> int {
    if offset > 0 {
        shr_value(x, offset as nat)
    } else {
        shl_value(x, (-offset) as nat)
    }
}

/// The numerator after `steps` rounds of Goldschmidt's iteration, in which
/// numerator and denominator are both multiplied by the factor `f` and the
/// next factor is two minus the new denominator.
pub open spec fn goldschmidt(n: int, d: int, f: int, steps: nat) -> int
    decreases steps,
{
    if steps == 0 {
        n
    } else {
        let d_next = mul_value(f, d);
        goldschmidt(mul_value(f, n), d_next, wrap(2 * unit() - d_next), (steps - 1) as nat)
    }
}

/// The stored integer of the quotient of `a` by a `b` that is not zero.
///
/// Both magnitudes are scaled by one power of two that brings the
/// denominator into `[1/2, 1)`; the first factor is the linear estimate
/// `intercept - slope * d` of `1 / d` on that interval; the iteration runs
/// `DIV_ITERATIONS` rounds, and the sign is put back.
pub open spec fn div_value(a: int, b: int) -> int {
    let offset = msb_of(unsigned(abs_value(b))) + 1 - SCALING_FACTOR;
    let n = normalize(abs_value(a), offset);
    let d = normalize(abs_value(b), offset);
    let f = wrap(div_seed_intercept() - mul_value(div_seed_slope(), d));
    let q = goldschmidt(n, d, f, DIV_ITERATIONS as nat);
    if (a < 0) != (b < 0) {
        wrap(-q)
    } else {
        q
    }
}

/// One round of Newton's iteration for the reciprocal of `a`: the estimate
/// `x` becomes `x * (2 - a * x)`.
pub open spec fn newton_step(a: int, x: int) -> int {
    mul_value(x, wrap(2 * unit() - mul_value(a, x)))
}

/// The estimate after `steps` rounds of Newton's iteration for the
/// reciprocal of `a`.
pub open spec fn newton_reciprocal(a: int, x: int, steps: nat) -> int
    decreases steps,
{
    if steps == 0 {
        x
    } else {
        newton_reciprocal(a, newton_step(a, x), (steps - 1) as nat)
    }
}

/// The stored integer of the reciprocal of `a`; zero for zero.
///
/// The iteration starts from the power of two whose bit index is
/// `2 * 96 - (msb + 1)`, where `msb` is the highest set bit of the
/// magnitude; a bit index of `128` or more is past the top and starts the
/// iteration from zero. It runs `INV_ITERATIONS` rounds on the magnitude,
/// and the sign is put back.
pub open spec fn inv_value(a: int) -> int {
    let m = abs_value(a);
    if m == 0 {
        0
    } else {
        let guess = 2 * SCALING_FACTOR - (msb_of(unsigned(m)) + 1);
        let r = newton_reciprocal(m, shl_value(1, guess as nat), INV_ITERATIONS as nat);
        if a < 0 {
            wrap(-r)
        } else {
            r
        }
    }
}

/// The quotient that a step of the square root uses: zero where the
/// divisor is zero.
pub open spec fn quotient_or_zero(a: int, b: int) -> int {
    if b == 0 {
        0
    } else {
        div_value(a, b)
    }
}

/// One round of Heron's iteration for the square root of `a`: the estimate
/// `x` becomes `(x * x + a) / (2 * x)`.
pub open spec fn heron_step(a: int, x: int) -> int {
    quotient_or_zero(wrap(mul_value(x, x) + a), shl_value(x, 1))
}

/// The estimate after `steps` rounds of Heron's iteration for the square
/// root of `a`.
pub open spec fn heron(a: int, x: int, steps: nat) -> int
    decreases steps,
{
    if steps == 0 {
        x
    } else {
        heron(a, heron_step(a, x), (steps - 1) as nat)
    }
}

/// Bit index of the power of two from which the square root starts, for a
/// bit pattern whose highest set bit is `msb`: half the distance of `msb`
/// from bit `96`, rounded toward zero, away from bit `96`.
pub open spec fn sqrt_seed_bit(msb: int) -> int {
    if msb >= SCALING_FACTOR {
        SCALING_FACTOR + (msb - SCALING_FACTOR) / 2
    } else {
        SCALING_FACTOR - (SCALING_FACTOR - msb) / 2
    }
}

/// The stored integer of the square root of `a`; zero for zero.
///
/// The highest set bit is that of the bit pattern, so the sign bit for a
/// negative `a`: the iteration runs on such an `a` as on any other, and
/// what comes out is no square root.
pub open spec fn sqrt_value(a: int) -> int {
    if a == 0 {
        0
    } else {
        heron(
            a,
            shl_value(1, sqrt_seed_bit(msb_of(unsigned(a))) as nat),
            SQRT_ITERATIONS as nat,
        )
    }
}

/// The stored integer with its fractional bits cleared: the number rounded
/// toward negative infinity to a whole number.
pub open spec fn floor_value(a: int) -> int {
    (a / unit()) * unit()
}

/// The stored integer of the remainder of `a` by a `b` that is not zero:
/// `a` less the whole part of the quotient times `b`.
pub open spec fn rem_value(a: int, b: int) -> int {
    wrap(a - mul_value(floor_value(div_value(a, b)), b))
}

impl ArbitraryFixed {
    /// The bit pattern as a number below `2^128`.
    pub open spec fn raw(self) -> int {
        words_value(self.data@, SIZE as int)
    }

    /// The value whose stored integer is `wrap(v)`: its words are the
    /// digits of the bit pattern in base `2^32`.
    pub closed spec fn of_value(v: int) -> ArbitraryFixed {
        let q0 = unsigned(v);
        let q1 = q0 / word_radix();
        let q2 = q1 / word_radix();
        let q3 = q2 / word_radix();
        ArbitraryFixed {
            data: [
                (q0 % word_radix()) as u32,
                (q1 % word_radix()) as u32,
                (q2 % word_radix()) as u32,
                (q3 % word_radix()) as u32,
            ],
        }
    }
}

impl View for ArbitraryFixed {
    type V = int;

    /// The stored two's-complement integer; the number stood for is this
    /// integer divided by `2^96`.
    open spec fn view(&self) -> int {
        wrap(self.raw())
    }
}

/// The weights of the first five words, written out.
pub proof fn lemma_radix_pow_values()
    ensures
        radix_pow(0) == 1,
        radix_pow(1) == 0x1_0000_0000,
        radix_pow(2) == 0x1_0000_0000_0000_0000,
        radix_pow(3) == 0x1_0000_0000_0000_0000_0000_0000,
        radix_pow(4) == 0x1_0000_0000_0000_0000_0000_0000_0000_0000int,
{
    reveal_with_fuel(radix_pow, 5);
}

/// The eight words of a full product, written out with the low three
/// words, which a product drops, apart from the rest.
pub proof fn lemma_wide_words(s: Seq<u32>)
    requires
        s.len() == 8,
    ensures
        words_value(s, 8) == (s[0] + s[1] * 0x1_0000_0000 + s[2] * 0x1_0000_0000_0000_0000)
            + unit() * ((s[3] + s[4] * 0x1_0000_0000 + s[5] * 0x1_0000_0000_0000_0000 + s[6]
            * 0x1_0000_0000_0000_0000_0000_0000) + modulus() * s[7]),
{
    lemma_radix_pow_values();
    assert(words_value(s, 4) == s[0] + s[1] * 0x1_0000_0000 + s[2] * 0x1_0000_0000_0000_0000
        + s[3] * 0x1_0000_0000_0000_0000_0000_0000) by {
        reveal_with_fuel(words_value, 5);
    }
    lemma_radix_pow_adds(4, 1);
    lemma_radix_pow_adds(4, 2);
    lemma_radix_pow_adds(4, 3);
    let m = radix_pow(4);
    assert(words_value(s, 8) == words_value(s, 4) + s[4] * m + s[5] * (m * 0x1_0000_0000) + s[6]
        * (m * 0x1_0000_0000_0000_0000) + s[7] * (m * 0x1_0000_0000_0000_0000_0000_0000)) by {
        reveal_with_fuel(words_value, 5);
    }
}

/// The weight of a word is `2^32` times the weight of the word below it,
/// and positive.
pub proof fn lemma_radix_pow_step(k: int)
    requires
        k >= 0,
    ensures
        radix_pow(k + 1) == word_radix() * radix_pow(k),
        radix_pow(k) > 0,
    decreases k,
{
    if k > 0 {
        lemma_radix_pow_step(k - 1);
    }
    assert(word_radix() * radix_pow(k) > 0) by (nonlinear_arith)
        requires
            radix_pow(k) > 0,
            word_radix() > 0,
    ;
}

/// The weight of word `i + j` is the product of the weights of words `i`
/// and `j`.
pub proof fn lemma_radix_pow_adds(i: int, j: int)
    requires
        i >= 0,
        j >= 0,
    ensures
        radix_pow(i + j) == radix_pow(i) * radix_pow(j),
    decreases j,
{
    if j > 0 {
        lemma_radix_pow_adds(i, j - 1);
        lemma_radix_pow_step(i + j - 1);
        lemma_radix_pow_step(j - 1);
        let a = radix_pow(i);
        let b = radix_pow(j - 1);
        assert(word_radix() * (a * b) == a * (word_radix() * b)) by (nonlinear_arith);
    } else {
        assert(radix_pow(i) * 1 == radix_pow(i));
    }
}

/// The first `n` words spell a number below `2^(32 n)`.
pub proof fn lemma_words_value_bound(s: Seq<u32>, n: int)
    requires
        0 <= n <= s.len(),
    ensures
        0 <= words_value(s, n) < radix_pow(n),
    decreases n,
{
    if n > 0 {
        lemma_words_value_bound(s, n - 1);
        lemma_radix_pow_step(n - 1);
        let p = radix_pow(n - 1);
        let w = s[n - 1] as int;
        assert(w * p + p <= word_radix() * p) by (nonlinear_arith)
            requires
                0 <= w < word_radix(),
                p > 0,
        ;
        assert(w * p >= 0) by (nonlinear_arith)
            requires
                0 <= w,
                p > 0,
        ;
    }
}

/// Words past the first `n` do not matter to what the first `n` spell.
pub proof fn lemma_words_value_agree(s: Seq<u32>, t: Seq<u32>, n: int)
    requires
        0 <= n <= s.len(),
        n <= t.len(),
        forall|k: int| 0 <= k < n ==> s[k] == t[k],
    ensures
        words_value(s, n) == words_value(t, n),
    decreases n,
{
    if n > 0 {
        lemma_words_value_agree(s, t, n - 1);
    }
}

/// Zero words at the top add nothing.
pub proof fn lemma_words_value_top_zero(s: Seq<u32>, i: int, n: int)
    requires
        0 <= i <= n <= s.len(),
        forall|k: int| i <= k < n ==> s[k] == 0,
    ensures
        words_value(s, n) == words_value(s, i),
    decreases n - i,
{
    if i < n {
        lemma_words_value_top_zero(s, i, n - 1);
    }
}

/// The four words of a value, written out.
pub proof fn lemma_raw_words(a: ArbitraryFixed)
    ensures
        a.raw() == a.data[0] + a.data[1] * 0x1_0000_0000 + a.data[2] * 0x1_0000_0000_0000_0000
            + a.data[3] * 0x1_0000_0000_0000_0000_0000_0000,
        0 <= a.raw() < modulus(),
        in_range(a@),
        a@ == if a.data[3] >= 0x8000_0000 {
            a.raw() - modulus()
        } else {
            a.raw()
        },
        unsigned(a@) == a.raw(),
{
    reveal_with_fuel(words_value, 5);
    lemma_radix_pow_values();
}

/// A number between `2^k` and `2^(k+1)` has its highest set bit at `k`.
pub proof fn lemma_msb_unique(n: int, k: nat)
    requires
        pow2(k) <= n < pow2(k + 1),
    ensures
        msb_of(n) == k,
    decreases k,
{
    if k == 0 {
        lemma2_to64();
        assert(n == 1);
        assert(msb_of(1) == 1 + msb_of(0));
    } else {
        lemma_pow2_unfold(k);
        lemma_pow2_unfold(k + 1);
        lemma_pow2_pos((k - 1) as nat);
        lemma_msb_unique(n / 2, (k - 1) as nat);
    }
}

/// A positive number lies between two to its highest set bit and twice that.
pub proof fn lemma_msb_bounds(n: int)
    requires
        n > 0,
    ensures
        msb_of(n) >= 0,
        pow2(msb_of(n) as nat) <= n < pow2((msb_of(n) + 1) as nat),
    decreases n,
{
    if n == 1 {
        lemma2_to64();
        assert(msb_of(1) == 1 + msb_of(0));
    } else {
        lemma_msb_bounds(n / 2);
        lemma_pow2_unfold((msb_of(n / 2) + 1) as nat);
        lemma_pow2_unfold((msb_of(n / 2) + 2) as nat);
    }
}

/// The weight of word `k` is `2^(32 k)`.
pub proof fn lemma_radix_pow_is_pow2(k: nat)
    ensures
        radix_pow(k as int) == pow2(32 * k),
    decreases k,
{
    lemma2_to64();
    if k > 0 {
        lemma_radix_pow_is_pow2((k - 1) as nat);
        lemma_pow2_adds(32, 32 * ((k - 1) as nat));
        assert(32 + 32 * ((k - 1) as nat) == 32 * k);
    }
}

/// The powers of two that the model names.
pub proof fn lemma_pow2_landmarks()
    ensures
        pow2(96) == unit(),
        pow2(127) == sign_threshold(),
        pow2(128) == modulus(),
{
    lemma_radix_pow_values();
    lemma_radix_pow_is_pow2(3);
    lemma_radix_pow_is_pow2(4);
    lemma_pow2_unfold(128);
}

/// Wrapping forgets multiples of `2^128`.
pub proof fn lemma_wrap_multiple(x: int, k: int)
    ensures
        wrap(x + k * modulus()) == wrap(x),
        in_range(wrap(x)),
{
    vstd::arithmetic::div_mod::lemma_mod_multiples_vanish(k, x + sign_threshold(), modulus());
    assert(k * modulus() + (x + sign_threshold()) == x + k * modulus() + sign_threshold());
}

/// Wrapping sees only the residue modulo `2^128`, and the negation of a
/// wrapped integer wraps to what the negation of the integer wraps to.
pub proof fn lemma_wrap_residue(x: int)
    ensures
        wrap(x % modulus()) == wrap(x),
        wrap(-wrap(x)) == wrap(-x),
        wrap(wrap(x)) == wrap(x),
{
    let m = modulus();
    vstd::arithmetic::div_mod::lemma_fundamental_div_mod(x, m);
    let q = x / m;
    assert(m * q == q * m) by (nonlinear_arith);
    lemma_wrap_multiple(x, -q);
    assert(x + (-q) * m == x % m) by (nonlinear_arith)
        requires
            x == m * q + x % m,
    ;
    let h = sign_threshold();
    vstd::arithmetic::div_mod::lemma_fundamental_div_mod(x + h, m);
    let k = (x + h) / m;
    assert(m * k == k * m) by (nonlinear_arith);
    assert(wrap(x) == x - k * m);
    lemma_wrap_multiple(-x, k);
    assert(-x + k * m == -wrap(x));
    lemma_wrap_multiple(x, -k);
    assert(x + (-k) * m == wrap(x)) by (nonlinear_arith)
        requires
            wrap(x) == x - k * m,
    ;
}

/// Wrapping a sum does not depend on whether a term of it was wrapped
/// before.
pub proof fn lemma_wrap_inner(x: int, y: int)
    ensures
        wrap(wrap(x) + y) == wrap(x + y),
{
    let m = modulus();
    let k = (x + sign_threshold()) / m;
    vstd::arithmetic::div_mod::lemma_fundamental_div_mod(x + sign_threshold(), m);
    assert(m * k == k * m) by (nonlinear_arith);
    lemma_wrap_multiple(x + y, -k);
    assert(x + y + (-k) * m == wrap(x) + y) by (nonlinear_arith)
        requires
            wrap(x) == x - k * m,
    ;
}

/// Two integers that differ by a multiple of `2^128` still do so after
/// both are multiplied by `c`, so their products wrap to the same.
pub proof fn lemma_wrap_mul_congruent(x: int, y: int, k: int, c: int)
    requires
        x == y + k * modulus(),
    ensures
        wrap(x * c) == wrap(y * c),
{
    let m = modulus();
    assert(x * c == y * c + (k * c) * m) by (nonlinear_arith)
        requires
            x == y + k * m,
    ;
    lemma_wrap_multiple(y * c, k * c);
}

/// Dividing by `c` and then by `d`, each time rounding down, is dividing
/// by `c * d` and rounding down, whatever the sign of `x`.
pub proof fn lemma_floor_div_twice(x: int, c: int, d: int)
    requires
        c > 0,
        d > 0,
    ensures
        c * d > 0,
        (x / c) / d == x / (c * d),
{
    let q1 = x / c;
    let r1 = x % c;
    let q2 = q1 / d;
    let r2 = q1 % d;
    vstd::arithmetic::div_mod::lemma_fundamental_div_mod(x, c);
    vstd::arithmetic::div_mod::lemma_fundamental_div_mod(q1, d);
    assert(c * d > 0) by (nonlinear_arith)
        requires
            c > 0,
            d > 0,
    ;
    assert(x == q2 * (c * d) + (c * r2 + r1)) by (nonlinear_arith)
        requires
            x == c * q1 + r1,
            q1 == d * q2 + r2,
    ;
    assert(0 <= c * r2 + r1 < c * d) by (nonlinear_arith)
        requires
            0 <= r1 < c,
            0 <= r2 < d,
    ;
    lemma_fundamental_div_mod_converse(x, c * d, q2, c * r2 + r1);
}

/// A number is split into its lowest word and the rest in one way only.
pub proof fn lemma_split_unique(lo: int, hi: int, lo2: int, hi2: int)
    requires
        0 <= lo < word_radix(),
        0 <= lo2 < word_radix(),
        lo + word_radix() * hi == lo2 + word_radix() * hi2,
    ensures
        lo == lo2,
        hi == hi2,
{
}

/// The value made of an integer stores that integer, wrapped.
pub proof fn lemma_of_value(v: int)
    ensures
        ArbitraryFixed::of_value(v)@ == wrap(v),
{
    let r = word_radix();
    let q0 = unsigned(v);
    let q1 = q0 / r;
    let q2 = q1 / r;
    let q3 = q2 / r;
    let a = ArbitraryFixed::of_value(v);
    assert(q0 == r * q1 + q0 % r && q1 == r * q2 + q1 % r && q2 == r * q3 + q2 % r);
    assert(0 <= q3 < r);
    assert(a.data[0] == q0 % r);
    assert(a.data[1] == q1 % r);
    assert(a.data[2] == q2 % r);
    assert(a.data[3] == q3);
    lemma_raw_words(a);
    assert(a.raw() == q0);
    lemma_wrap_residue(v);
}

/// Two values with the same stored integer are the same value.
pub proof fn lemma_view_injective(a: ArbitraryFixed, b: ArbitraryFixed)
    requires
        a@ == b@,
    ensures
        a == b,
{
    lemma_raw_words(a);
    lemma_raw_words(b);
    assert(a.raw() == b.raw());
    let ha = a.data[1] + a.data[2] * 0x1_0000_0000 + a.data[3] * 0x1_0000_0000_0000_0000;
    let hb = b.data[1] + b.data[2] * 0x1_0000_0000 + b.data[3] * 0x1_0000_0000_0000_0000;
    lemma_split_unique(a.data[0] as int, ha, b.data[0] as int, hb);
    let ga = a.data[2] + a.data[3] * 0x1_0000_0000;
    let gb = b.data[2] + b.data[3] * 0x1_0000_0000;
    lemma_split_unique(a.data[1] as int, ga, b.data[1] as int, gb);
    lemma_split_unique(a.data[2] as int, a.data[3] as int, b.data[2] as int, b.data[3] as int);
    assert(a.data@ =~= b.data@);
    assert(a.data =~= b.data);
}

} // verus!
