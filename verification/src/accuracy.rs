//! How close the reciprocal and the quotient come to the true ones.

use crate::constants::{DIV_ITERATIONS, INV_ITERATIONS, div_seed_intercept, div_seed_slope};
use crate::model::{
    abs_value, div_value, goldschmidt, in_range, inv_value, lemma_msb_bounds, lemma_pow2_landmarks,
    lemma_raw_words, lemma_wrap_inner, lemma_wrap_multiple, magnitude, msb_of, mul_value,
    newton_reciprocal, newton_step, normalize, shl_value, sign_threshold, unit, unsigned, wrap,
};
use crate::ArbitraryFixed;
use crate::SCALING_FACTOR;
use vstd::arithmetic::div_mod::lemma_fundamental_div_mod;
use vstd::arithmetic::power2::{
    lemma2_to64, lemma2_to64_rest, lemma_pow2_adds, lemma_pow2_pos, lemma_pow2_unfold, pow2,
};
use vstd::prelude::*;

verus! {

/// `2^192`: the product of the stored integers of a number and of its
/// exact reciprocal.
pub open spec fn unit_squared() -> int {
    0x1_0000_0000_0000_0000_0000_0000_0000_0000_0000_0000_0000_0000int
}

/// `2^66`: the least magnitude whose reciprocal, and every estimate of it
/// on the way, has room in a value.
pub open spec fn least_invertible() -> int {
    0x4_0000_0000_0000_0000int
}

/// The product of two stored integers that are not negative, where it
/// has room.
pub proof fn lemma_mul_positive(a: int, b: int)
    requires
        a >= 0,
        b >= 0,
        a * b / unit() < sign_threshold(),
    ensures
        mul_value(a, b) == a * b / unit(),
        a * b == unit() * mul_value(a, b) + (a * b) % unit(),
        0 <= (a * b) % unit() < unit(),
        mul_value(a, b) >= 0,
{
    assert(a * b >= 0) by (nonlinear_arith)
        requires
            a >= 0,
            b >= 0,
    ;
    lemma_fundamental_div_mod(a * b, unit());
    lemma_wrap_multiple(a * b / unit(), 0);
}

/// What one round of the iteration does to the error `2^192 - a * x`, as an
/// identity: it is squared and divided by `2^192`, up to what the two
/// roundings of the round leave over.
proof fn lemma_newton_identity(a: int, x: int, y: int, r1: int, x2: int, r2: int)
    requires
        a * x == unit() * y + r1,
        x * (2 * unit() - y) == unit() * x2 + r2,
    ensures
        unit_squared() * (unit_squared() - a * x2) == (unit_squared() - a * x) * (unit_squared() - a
            * x) - (a * x) * r1 + unit() * (a * r2),
{
    let s = unit();
    let t = unit_squared();
    let u = a * x;
    let g = 2 * s - y;
    assert(t == s * s);
    assert(a * (x * g) == u * g) by (nonlinear_arith)
        requires
            u == a * x,
    ;
    assert(a * (x * g) == s * (a * x2) + a * r2) by (nonlinear_arith)
        requires
            x * g == s * x2 + r2,
    ;
    assert(u * g == 2 * s * u - u * y) by (nonlinear_arith)
        requires
            g == 2 * s - y,
    ;
    assert(s * (u * y) == u * u - u * r1) by (nonlinear_arith)
        requires
            u == s * y + r1,
    ;
    let ax2 = a * x2;
    let ar2 = a * r2;
    let uy = u * y;
    let uu = u * u;
    let ur1 = u * r1;
    assert(s * ax2 + ar2 == 2 * s * u - uy);
    assert(s * (s * ax2) == 2 * (s * s) * u - s * uy - s * ar2) by (nonlinear_arith)
        requires
            s * ax2 + ar2 == 2 * s * u - uy,
    ;
    assert(s * (s * ax2) == (s * s) * ax2) by (nonlinear_arith);
    assert(t * ax2 == 2 * t * u - (uu - ur1) - s * ar2);
    assert((t - u) * (t - u) == t * t - 2 * t * u + uu) by (nonlinear_arith)
        requires
            uu == u * u,
    ;
    assert(t * (t - ax2) == t * t - t * ax2) by (nonlinear_arith);
}

/// The last, linear part of a round: from the identity and the bounds on
/// each product in it to the bounds on the next error.
proof fn lemma_newton_close(
    a: int,
    e2: int,
    ee: int,
    ur1: int,
    ar2: int,
    pp: int,
    ap: int,
    aa: int,
    cross: int,
    p_next: int,
    u: int,
)
    requires
        0x1_0000_0000_0000_0000_0000_0000_0000_0000_0000_0000_0000_0000int * e2 == ee - ur1 + 0x1_0000_0000_0000_0000_0000_0000int * ar2,
        0 <= ur1 <= u * 0xffff_ffff_ffff_ffff_ffff_ffffint,
        0 <= u <= 0x1_0000_0000_0000_0000_0000_0001_0000_0000_0000_0000_0000_0001int,
        0 <= ar2 <= a * 0xffff_ffff_ffff_ffff_ffff_ffffint,
        0 <= ee <= pp + cross + 0x1_0000_0000_0000_0000_0000_0002_0000_0000_0000_0000_0000_0001int,
        cross == 0 || (cross == 8 * ap + 16 * aa && 3 * ap <= a * 0x1_0000_0000_0000_0000_0000_0000_0000_0000_0000_0000_0000_0000int && aa <= a
            * 0x8000_0000_0000_0000_0000_0000_0000_0000int),
        0 <= a,
        pp + 3 * 0x1_0000_0000_0000_0000_0000_0000_0000_0000_0000_0000_0000_0000int <= p_next * 0x1_0000_0000_0000_0000_0000_0000_0000_0000_0000_0000_0000_0000int,
    ensures
        -0x1_0000_0000_0000_0000_0000_0001int <= e2 <= p_next + 4 * a,
{
    let bound = p_next + 4 * a;
    assert(0x1_0000_0000_0000_0000_0000_0000_0000_0000_0000_0000_0000_0000int * e2 < 0x1_0000_0000_0000_0000_0000_0000_0000_0000_0000_0000_0000_0000int * (bound + 1));
    assert(0x1_0000_0000_0000_0000_0000_0000_0000_0000_0000_0000_0000_0000int * e2 > 0x1_0000_0000_0000_0000_0000_0000_0000_0000_0000_0000_0000_0000int * (-0x1_0000_0000_0000_0000_0000_0002int));
}

/// One round of the iteration, on an estimate `x` whose error
/// `2^192 - a * x` is at most `p + c`: the error of the next estimate is at
/// most `p_next + 4 a`, where `p_next` is `p * p / 2^192` and a little. An
/// estimate is never above the reciprocal by more than what makes the
/// error `-(2^96 + 1)`.
proof fn lemma_newton_step(a: int, x: int, p: int, c: int, p_next: int)
    requires
        least_invertible() <= a < sign_threshold(),
        x > 0,
        -(unit() + 1) <= unit_squared() - a * x <= p + c,
        p >= 0,
        (c == 0 && 2 * p <= unit_squared()) || (c == 4 * a && 3 * p <= unit_squared()),
        p * p + 3 * unit_squared() <= p_next * unit_squared(),
        2 * p_next <= unit_squared(),
    ensures
        newton_step(a, x) > 0,
        -(unit() + 1) <= unit_squared() - a * newton_step(a, x) <= p_next + 4 * a,
{
    let s = unit();
    let t = unit_squared();
    let u = a * x;
    let e = t - u;
    assert(x * 0x4_0000_0000_0000_0000int <= u) by (nonlinear_arith)
        requires
            0x4_0000_0000_0000_0000int <= a,
            x > 0,
            u == a * x,
    ;
    assert(x <= 0x4000_0000_0000_0000_0000_0000_4000_0000int);
    // the product a * x, rounded
    let y = u / s;
    let r1 = u % s;
    lemma_fundamental_div_mod(u, s);
    lemma_mul_positive(a, x);
    assert(mul_value(a, x) == y);
    let g = 2 * s - y;
    lemma_wrap_multiple(g, 0);
    assert(wrap(g) == g);
    // the product x * (2 - a * x), rounded
    let w = x * g;
    assert(4 * y >= s - 4);
    assert(0 <= 4 * w <= x * 0x7_0000_0000_0000_0000_0000_0004int) by (nonlinear_arith)
        requires
            w == x * g,
            0 <= 4 * g <= 0x7_0000_0000_0000_0000_0000_0004int,
            x > 0,
    ;
    lemma_fundamental_div_mod(w, s);
    let x2 = w / s;
    let r2 = w % s;
    assert(x2 < sign_threshold());
    lemma_mul_positive(x, g);
    assert(newton_step(a, x) == x2);
    lemma_newton_identity(a, x, y, r1, x2, r2);
    let e2 = t - a * x2;
    let ur1 = u * r1;
    let ar2 = a * r2;
    assert(t * e2 == e * e - ur1 + s * ar2);
    assert(0 <= ur1 <= u * (s - 1)) by (nonlinear_arith)
        requires
            ur1 == u * r1,
            0 <= r1 <= s - 1,
            u >= 0,
    ;
    assert(0 <= ar2 <= a * (s - 1)) by (nonlinear_arith)
        requires
            ar2 == a * r2,
            0 <= r2 <= s - 1,
            a >= 0,
    ;
    // the square of the error is at most that of either of its bounds
    let ee = e * e;
    assert(0 <= ee <= (p + c) * (p + c) + 0x1_0000_0000_0000_0000_0000_0002_0000_0000_0000_0000_0000_0001int) by (nonlinear_arith)
        requires
            ee == e * e,
            -0x1_0000_0000_0000_0000_0000_0001int <= e <= p + c,
            p + c >= 0,
    ;
    let pp = p * p;
    let ap = a * p;
    let aa = a * a;
    let cross = if c == 0 {
        0
    } else {
        8 * ap + 16 * aa
    };
    assert((p + c) * (p + c) == pp + cross) by (nonlinear_arith)
        requires
            pp == p * p,
            ap == a * p,
            aa == a * a,
            c == 0 || c == 4 * a,
            cross == if c == 0 {
                0
            } else {
                8 * ap + 16 * aa
            },
    ;
    if c != 0 {
        assert(3 * ap <= a * 0x1_0000_0000_0000_0000_0000_0000_0000_0000_0000_0000_0000_0000int && aa <= a * 0x8000_0000_0000_0000_0000_0000_0000_0000int) by (nonlinear_arith)
            requires
                ap == a * p,
                aa == a * a,
                3 * p <= 0x1_0000_0000_0000_0000_0000_0000_0000_0000_0000_0000_0000_0000int,
                0 <= a <= 0x8000_0000_0000_0000_0000_0000_0000_0000int,
        ;
    }
    let bound = p_next + 4 * a;
    lemma_newton_close(a, e2, ee, ur1, ar2, pp, ap, aa, cross, p_next, u);
    assert(x2 > 0) by (nonlinear_arith)
        requires
            0x1_0000_0000_0000_0000_0000_0000_0000_0000_0000_0000_0000_0000int - a * x2 <= bound,
            bound < 0x1_0000_0000_0000_0000_0000_0000_0000_0000_0000_0000_0000_0000int,
            a > 0,
    ;
}

/// The reciprocal of a positive value of at least `2^-30`, times the value,
/// is one to within a few of the stored units that the value counts:
/// at most one above, and at most `4 a / 2^96 + 2` below.
pub proof fn lemma_reciprocal_of_positive(a: int)
    requires
        least_invertible() <= a < sign_threshold(),
    ensures
        0 < inv_value(a) < sign_threshold(),
        unit_squared() - 4 * a - 4 <= a * inv_value(a) <= unit_squared() + unit() + 1,
        unit() - (4 * a + 4) / unit() - 1 <= mul_value(inv_value(a), a) <= unit() + 1,
{
    let s = unit();
    let t = unit_squared();
    let k = msb_of(a);
    lemma_msb_bounds(a);
    lemma_pow2_landmarks();
    lemma2_to64();
    lemma2_to64_rest();
    lemma_pow2_adds(64, 2);
    assert(unsigned(a) == a);
    assert(abs_value(a) == a);
    // the highest set bit is between 66 and 126
    assert(66 <= k <= 126) by {
        if k + 1 < 66 {
            vstd::arithmetic::power2::lemma_pow2_strictly_increases((k + 1) as nat, 66);
        }
        if k > 127 {
            vstd::arithmetic::power2::lemma_pow2_strictly_increases(127, k as nat);
        }
    }
    let guess = 2 * SCALING_FACTOR - (k + 1);
    let x0 = pow2(guess as nat) as int;
    lemma_pow2_adds(k as nat, guess as nat);
    lemma_pow2_adds((k + 1) as nat, guess as nat);
    lemma_pow2_adds(96, 96);
    lemma_pow2_adds(191, 1);
    lemma_pow2_pos(guess as nat);
    assert(pow2(192) == t);
    if guess < 127 {
        vstd::arithmetic::power2::lemma_pow2_strictly_increases(guess as nat, 127);
    }
    lemma_wrap_multiple(x0, 0);
    assert(shl_value(1, guess as nat) == x0);
    assert(pow2(191) <= a * x0 < t) by (nonlinear_arith)
        requires
            pow2(k as nat) <= a < pow2((k + 1) as nat),
            pow2(k as nat) * x0 == pow2(191),
            pow2((k + 1) as nat) * x0 == t,
            x0 > 0,
    ;
    lemma_newton_step(a, x0, 0x8000_0000_0000_0000_0000_0000_0000_0000_0000_0000_0000_0000int, 0, 0x4000_0000_0000_0000_0000_0000_0000_0000_0000_0000_0000_0003int);
    let x1 = newton_step(a, x0);
    lemma_newton_step(a, x1, 0x4000_0000_0000_0000_0000_0000_0000_0000_0000_0000_0000_0003int, 4 * a, 0x1000_0000_0000_0000_0000_0000_0000_0000_0000_0000_0000_0005int);
    let x2 = newton_step(a, x1);
    lemma_newton_step(a, x2, 0x1000_0000_0000_0000_0000_0000_0000_0000_0000_0000_0000_0005int, 4 * a, 0x100_0000_0000_0000_0000_0000_0000_0000_0000_0000_0000_0004int);
    let x3 = newton_step(a, x2);
    lemma_newton_step(a, x3, 0x100_0000_0000_0000_0000_0000_0000_0000_0000_0000_0000_0004int, 4 * a, 0x1_0000_0000_0000_0000_0000_0000_0000_0000_0000_0000_0004int);
    let x4 = newton_step(a, x3);
    lemma_newton_step(a, x4, 0x1_0000_0000_0000_0000_0000_0000_0000_0000_0000_0000_0004int, 4 * a, 0x1_0000_0000_0000_0000_0000_0000_0000_0000_0000_0004int);
    let x5 = newton_step(a, x4);
    lemma_newton_step(a, x5, 0x1_0000_0000_0000_0000_0000_0000_0000_0000_0000_0004int, 4 * a, 0x1_0000_0000_0000_0000_0000_0000_0000_0004int);
    let x6 = newton_step(a, x5);
    lemma_newton_step(a, x6, 0x1_0000_0000_0000_0000_0000_0000_0000_0004int, 4 * a, 0x1_0000_0000_0000_0004int);
    let x7 = newton_step(a, x6);
    lemma_newton_step(a, x7, 0x1_0000_0000_0000_0004int, 4 * a, 0x4int);
    let x8 = newton_step(a, x7);
    assert(newton_reciprocal(a, x0, INV_ITERATIONS as nat) == x8) by {
        reveal_with_fuel(newton_reciprocal, 9);
    }
    assert(inv_value(a) == x8);
    // the product with the value, rounded
    let u = a * x8;
    assert(x8 * 0x4_0000_0000_0000_0000int <= u) by (nonlinear_arith)
        requires
            0x4_0000_0000_0000_0000int <= a,
            x8 > 0,
            u == a * x8,
    ;
    assert(x8 * a == u) by (nonlinear_arith)
        requires
            u == a * x8,
    ;
    lemma_fundamental_div_mod(u, s);
    lemma_mul_positive(x8, a);
    lemma_fundamental_div_mod(4 * a + 4, s);
}

/// The reciprocal of a value times the value is close to one: for every
/// value of magnitude at least `2^-30`, but for the most negative one, the
/// product is at most one stored unit above one and at most
/// `4 |a| / 2^96 + 2` stored units below it. For a value of magnitude at
/// most one that is six units; for the largest values it is `2^33`.
pub proof fn lemma_reciprocal_is_close(a: ArbitraryFixed)
    requires
        least_invertible() <= magnitude(a@) < sign_threshold(),
    ensures
        unit() - (4 * magnitude(a@) + 4) / unit() - 1 <= mul_value(inv_value(a@), a@) <= unit() + 1,
{
    let m = magnitude(a@);
    lemma_raw_words(a);
    lemma_reciprocal_of_positive(m);
    if a@ < 0 {
        let r = inv_value(m);
        lemma_wrap_multiple(m, 0);
        lemma_wrap_multiple(-r, 0);
        assert(abs_value(a@) == m);
        assert(unsigned(abs_value(a@)) == unsigned(abs_value(m)));
        assert(inv_value(a@) == -r);
        assert(magnitude(-r) == r);
        assert(mul_value(-r, a@) == mul_value(r, m));
    }
}

/// `2^125`: the largest scaled numerator for which no product of the
/// iteration passes the top of a value.
pub open spec fn numerator_room() -> int {
    0x2000_0000_0000_0000_0000_0000_0000_0000int
}

/// The first factor of a division whose scaled denominator is `d`.
pub open spec fn first_factor(d: int) -> int {
    wrap(div_seed_intercept() - mul_value(div_seed_slope(), d))
}

/// The first round of a division, on a denominator scaled into
/// `[1/2, 1)`: the linear estimate brings the denominator to within a
/// sixteenth of one, and the numerator keeps its ratio to the denominator
/// up to the two roundings.
proof fn lemma_goldschmidt_first(n0: int, d0: int)
    requires
        0x8000_0000_0000_0000_0000_0000int <= d0 < 0x1_0000_0000_0000_0000_0000_0000int,
        0 <= n0 <= 0x2000_0000_0000_0000_0000_0000_0000_0000int,
    ensures
        ({
            let f0 = first_factor(d0);
            let n1 = mul_value(f0, n0);
            let d1 = mul_value(f0, d0);
            &&& n1 >= 0
            &&& -0x1000_0000_0000_0000_0000_0000int <= 0x1_0000_0000_0000_0000_0000_0000int - d1 <= 0x1000_0000_0000_0000_0000_0000int
            &&& -(n0 + d0) <= n1 * d0 - n0 * d1 <= n0 + d0
        }),
{
    let s = 0x1_0000_0000_0000_0000_0000_0000int;
    let c1 = 0x2_d2d2_d2d2_cda6_4000_0000_0000int;
    let c2 = 0x1_e1e1_e1e1_e5c3_5000_0000_0000int;
    assert(unit() == s && div_seed_intercept() == c1 && div_seed_slope() == c2);
    // the slope times the denominator, rounded
    let cd = c2 * d0;
    lemma_fundamental_div_mod(cd, s);
    lemma_mul_positive(c2, d0);
    let m = cd / s;
    let rm = cd % s;
    let f0 = c1 - m;
    lemma_wrap_multiple(f0, 0);
    assert(first_factor(d0) == f0);
    assert(0 < f0 < 2 * s);
    // the two products of the round
    let pn = f0 * n0;
    assert(0 <= pn <= (2 * s) * 0x2000_0000_0000_0000_0000_0000_0000_0000int) by (nonlinear_arith)
        requires
            pn == f0 * n0,
            0 <= f0 <= 2 * s,
            0 <= n0 <= 0x2000_0000_0000_0000_0000_0000_0000_0000int,
    ;
    lemma_fundamental_div_mod(pn, s);
    lemma_mul_positive(f0, n0);
    let n1 = pn / s;
    let rn = pn % s;
    let pd = f0 * d0;
    assert(0 <= pd <= (2 * s) * s) by (nonlinear_arith)
        requires
            pd == f0 * d0,
            0 <= f0 <= 2 * s,
            0 <= d0 <= s,
    ;
    lemma_fundamental_div_mod(pd, s);
    lemma_mul_positive(f0, d0);
    let d1 = pd / s;
    let rd = pd % s;
    // the product with the denominator as a quadratic in the denominator
    let dd = d0 * d0;
    let md = m * d0;
    let rmd = rm * d0;
    assert(pd == c1 * d0 - md) by (nonlinear_arith)
        requires
            pd == f0 * d0,
            f0 == c1 - m,
            md == m * d0,
    ;
    assert(s * md == c2 * dd - rmd) by (nonlinear_arith)
        requires
            c2 * d0 == s * m + rm,
            md == m * d0,
            dd == d0 * d0,
            rmd == rm * d0,
    ;
    assert(0 <= rmd <= s * d0) by (nonlinear_arith)
        requires
            rmd == rm * d0,
            0 <= rm <= s,
            d0 >= 0,
    ;
    assert(4 * (c2 * c2) * dd - 4 * (c1 * c2 * s) * d0 + (c1 * s) * (c1 * s) >= 0)
        by (nonlinear_arith)
        requires
            dd == d0 * d0,
    ;
    assert(3 * s * d0 - 2 * dd - s * s >= 0) by (nonlinear_arith)
        requires
            dd == d0 * d0,
            s <= 2 * d0,
            d0 <= s,
    ;
    lemma_goldschmidt_first_close(d0, dd, rmd, pd, d1, rd);
    // the numerator keeps its ratio
    let n1d0 = n1 * d0;
    let n0d1 = n0 * d1;
    let rnd0 = rn * d0;
    let n0rd = n0 * rd;
    assert(pn * d0 == s * n1d0 + rnd0) by (nonlinear_arith)
        requires
            pn == s * n1 + rn,
            n1d0 == n1 * d0,
            rnd0 == rn * d0,
    ;
    assert(pd * n0 == s * n0d1 + n0rd) by (nonlinear_arith)
        requires
            pd == s * d1 + rd,
            n0d1 == n0 * d1,
            n0rd == n0 * rd,
    ;
    assert(pn * d0 == pd * n0) by (nonlinear_arith)
        requires
            pn == f0 * n0,
            pd == f0 * d0,
    ;
    assert(s * n1d0 - s * n0d1 == n0rd - rnd0);
    assert(0 <= rnd0 <= s * d0 && 0 <= n0rd <= n0 * s) by (nonlinear_arith)
        requires
            rnd0 == rn * d0,
            n0rd == n0 * rd,
            0 <= rn <= s,
            0 <= rd <= s,
            d0 >= 0,
            n0 >= 0,
    ;
}

/// The linear part of the first round: from the quadratic and the two
/// squares to the bounds on the new denominator.
proof fn lemma_goldschmidt_first_close(d0: int, dd: int, rmd: int, pd: int, d1: int, rd: int)
    requires
        0x8000_0000_0000_0000_0000_0000int <= d0 < 0x1_0000_0000_0000_0000_0000_0000int,
        0x1_0000_0000_0000_0000_0000_0000int * pd == 0x2_d2d2_d2d2_cda6_4000_0000_0000_0000_0000_0000_0000_0000_0000int * d0 - 0x1_e1e1_e1e1_e5c3_5000_0000_0000int * dd + rmd,
        0 <= rmd <= 0x1_0000_0000_0000_0000_0000_0000int * d0,
        0xe_2c4a_6886_df32_c4a6_88a6_888b_e400_0000_0000_0000_0000_0000int * dd - 0x15_426f_9cc9_fc02_f9cc_9f21_f49a_d000_0000_0000_0000_0000_0000_0000_0000_0000_0000_0000_0000int * d0 + 0x7_f8e9_dacb_9f75_acbb_caf4_ae77_1000_0000_0000_0000_0000_0000_0000_0000_0000_0000_0000_0000_0000_0000_0000_0000_0000_0000int >= 0,
        0x3_0000_0000_0000_0000_0000_0000int * d0 - 2 * dd - 0x1_0000_0000_0000_0000_0000_0000_0000_0000_0000_0000_0000_0000int >= 0,
        pd == 0x1_0000_0000_0000_0000_0000_0000int * d1 + rd,
        0 <= rd < 0x1_0000_0000_0000_0000_0000_0000int,
    ensures
        -0x1000_0000_0000_0000_0000_0000int <= 0x1_0000_0000_0000_0000_0000_0000int - d1 <= 0x1000_0000_0000_0000_0000_0000int,
{
}

/// A later round of a division: the distance of the denominator from one
/// is squared, and the numerator keeps its ratio to the denominator up to
/// the two roundings, which add to what the rounds before have left.
proof fn lemma_goldschmidt_round(
    n0: int,
    d0: int,
    n: int,
    d: int,
    b: int,
    b_next: int,
    kb: int,
    kb_next: int,
)
    requires
        0x8000_0000_0000_0000_0000_0000int <= d0 < 0x1_0000_0000_0000_0000_0000_0000int,
        0 <= n0 <= 0x2000_0000_0000_0000_0000_0000_0000_0000int,
        n >= 0,
        -b <= 0x1_0000_0000_0000_0000_0000_0000int - d <= b,
        0 <= b <= 0x1000_0000_0000_0000_0000_0000int,
        b * b <= b_next * 0x1_0000_0000_0000_0000_0000_0000int,
        -kb <= n * d0 - n0 * d <= kb,
        0 <= kb <= 12 * (n0 + d0),
        9 * kb + 8 * (n0 + d0) <= 8 * kb_next,
    ensures
        ({
            let f = wrap(2 * unit() - d);
            let n2 = mul_value(f, n);
            let d2 = mul_value(f, d);
            &&& n2 >= 0
            &&& 0 <= 0x1_0000_0000_0000_0000_0000_0000int - d2 <= b_next
            &&& -kb_next <= n2 * d0 - n0 * d2 <= kb_next
        }),
{
    let s = 0x1_0000_0000_0000_0000_0000_0000int;
    assert(unit() == s);
    let f = 2 * s - d;
    lemma_wrap_multiple(f, 0);
    assert(wrap(2 * unit() - d) == f);
    let eps = s - d;
    // the numerator is about twice the first one at most
    let nd0 = n * d0;
    let n0d = n0 * d;
    assert(n * 0x8000_0000_0000_0000_0000_0000int <= nd0) by (nonlinear_arith)
        requires
            nd0 == n * d0,
            n >= 0,
            d0 >= 0x8000_0000_0000_0000_0000_0000int,
    ;
    assert(n0d <= n0 * 0x1_1000_0000_0000_0000_0000_0000int) by (nonlinear_arith)
        requires
            n0d == n0 * d,
            n0 >= 0,
            d <= 0x1_1000_0000_0000_0000_0000_0000int,
    ;
    assert(n <= 0x6000_0000_0000_0000_0000_0000_0000_0000int);
    let pn = f * n;
    assert(0 <= pn <= 0x1_1000_0000_0000_0000_0000_0000int * n) by (nonlinear_arith)
        requires
            pn == f * n,
            0 <= f <= 0x1_1000_0000_0000_0000_0000_0000int,
            n >= 0,
    ;
    lemma_fundamental_div_mod(pn, s);
    lemma_mul_positive(f, n);
    let n2 = pn / s;
    let rn = pn % s;
    // the denominator: (1 + eps)(1 - eps) = 1 - eps^2
    let pd = f * d;
    let ee = eps * eps;
    assert(pd == s * s - ee) by (nonlinear_arith)
        requires
            pd == f * d,
            f == s + eps,
            d == s - eps,
            ee == eps * eps,
    ;
    assert(0 <= ee <= b * b) by (nonlinear_arith)
        requires
            ee == eps * eps,
            -b <= eps <= b,
    ;
    lemma_fundamental_div_mod(pd, s);
    lemma_mul_positive(f, d);
    let d2 = pd / s;
    let rd = pd % s;
    assert(0 <= s - d2 <= b_next);
    // the numerator keeps its ratio
    let e = nd0 - n0d;
    let fe = f * e;
    let n2d0 = n2 * d0;
    let n0d2 = n0 * d2;
    let rnd0 = rn * d0;
    let n0rd = n0 * rd;
    assert(pn * d0 == s * n2d0 + rnd0) by (nonlinear_arith)
        requires
            pn == s * n2 + rn,
            n2d0 == n2 * d0,
            rnd0 == rn * d0,
    ;
    assert(pd * n0 == s * n0d2 + n0rd) by (nonlinear_arith)
        requires
            pd == s * d2 + rd,
            n0d2 == n0 * d2,
            n0rd == n0 * rd,
    ;
    assert(pn * d0 == f * nd0) by (nonlinear_arith)
        requires
            pn == f * n,
            nd0 == n * d0,
    ;
    assert(pd * n0 == f * n0d) by (nonlinear_arith)
        requires
            pd == f * d,
            n0d == n0 * d,
    ;
    assert(f * nd0 - f * n0d == fe) by (nonlinear_arith)
        requires
            fe == f * e,
            e == nd0 - n0d,
    ;
    assert(s * n2d0 - s * n0d2 == fe + n0rd - rnd0);
    assert(0 <= rnd0 <= s * d0 && 0 <= n0rd <= n0 * s) by (nonlinear_arith)
        requires
            rnd0 == rn * d0,
            n0rd == n0 * rd,
            0 <= rn <= s,
            0 <= rd <= s,
            d0 >= 0,
            n0 >= 0,
    ;
    assert(-(0x9_0000_0000_0000_0000_0000_0000int * kb) <= 8 * fe <= 0x9_0000_0000_0000_0000_0000_0000int * kb) by (nonlinear_arith)
        requires
            fe == f * e,
            0 <= 8 * f <= 0x9_0000_0000_0000_0000_0000_0000int,
            -kb <= e <= kb,
    ;
}

/// A division on scaled operands: with the denominator in `[1/2, 1)` and
/// the numerator at most `2^125`, the quotient `q` that the rounds leave
/// has `q * d - n * 2^96` within `13 n + 12 d`.
pub proof fn lemma_goldschmidt_converges(n0: int, d0: int)
    requires
        0x8000_0000_0000_0000_0000_0000int <= d0 < 0x1_0000_0000_0000_0000_0000_0000int,
        0 <= n0 <= numerator_room(),
    ensures
        ({
            let q = goldschmidt(n0, d0, first_factor(d0), DIV_ITERATIONS as nat);
            &&& 0 <= q
            &&& -(13 * n0 + 12 * d0) <= q * d0 - n0 * unit() <= 13 * n0 + 12 * d0
        }),
{
    let f0 = first_factor(d0);
    lemma_goldschmidt_first(n0, d0);
    let n1 = mul_value(f0, n0);
    let d1 = mul_value(f0, d0);
    lemma_goldschmidt_round(n0, d0, n1, d1, 0x1000_0000_0000_0000_0000_0000int, 0x100_0000_0000_0000_0000_0000int, 1 * (n0 + d0), 3 * (n0 + d0));
    let f1 = wrap(2 * unit() - d1);
    let n2 = mul_value(f1, n1);
    let d2 = mul_value(f1, d1);
    lemma_goldschmidt_round(n0, d0, n2, d2, 0x100_0000_0000_0000_0000_0000int, 0x1_0000_0000_0000_0000_0000int, 3 * (n0 + d0), 5 * (n0 + d0));
    let f2 = wrap(2 * unit() - d2);
    let n3 = mul_value(f2, n2);
    let d3 = mul_value(f2, d2);
    lemma_goldschmidt_round(n0, d0, n3, d3, 0x1_0000_0000_0000_0000_0000int, 0x1_0000_0000_0000_0000int, 5 * (n0 + d0), 7 * (n0 + d0));
    let f3 = wrap(2 * unit() - d3);
    let n4 = mul_value(f3, n3);
    let d4 = mul_value(f3, d3);
    lemma_goldschmidt_round(n0, d0, n4, d4, 0x1_0000_0000_0000_0000int, 0x1_0000_0000int, 7 * (n0 + d0), 9 * (n0 + d0));
    let f4 = wrap(2 * unit() - d4);
    let n5 = mul_value(f4, n4);
    let d5 = mul_value(f4, d4);
    lemma_goldschmidt_round(n0, d0, n5, d5, 0x1_0000_0000int, 0x1int, 9 * (n0 + d0), 12 * (n0 + d0));
    let f5 = wrap(2 * unit() - d5);
    let n6 = mul_value(f5, n5);
    let d6 = mul_value(f5, d5);
    assert(goldschmidt(n0, d0, f0, DIV_ITERATIONS as nat) == n6) by {
        reveal_with_fuel(goldschmidt, 7);
    }
    let eps = unit() - d6;
    let n0e = n0 * eps;
    assert(n0 * d6 == n0 * 0x1_0000_0000_0000_0000_0000_0000int - n0e) by (nonlinear_arith)
        requires
            d6 == 0x1_0000_0000_0000_0000_0000_0000int - eps,
            n0e == n0 * eps,
    ;
    assert(0 <= n0e <= n0) by (nonlinear_arith)
        requires
            n0e == n0 * eps,
            0 <= eps <= 1,
            n0 >= 0,
    ;
}

/// `2^29`: the largest ratio of dividend to divisor for which the closeness
/// of a quotient is shown here.
pub open spec fn largest_ratio() -> int {
    0x2000_0000int
}

/// The quotient of a dividend that is not negative by a positive divisor,
/// where the dividend is at most `2^29` times the divisor: the quotient
/// `q` has `q * d - n * 2^96` within `16 (n + d)`.
pub proof fn lemma_division_of_positive(n: int, d: int)
    requires
        0 <= n < sign_threshold(),
        0 < d < sign_threshold(),
        n <= largest_ratio() * d,
    ensures
        0 <= div_value(n, d) < sign_threshold(),
        -(16 * (n + d)) <= div_value(n, d) * d - n * unit() <= 16 * (n + d),
{
    let s = 0x1_0000_0000_0000_0000_0000_0000int;
    let half = 0x8000_0000_0000_0000_0000_0000int;
    assert(unit() == s);
    let k = msb_of(d);
    lemma_msb_bounds(d);
    lemma_pow2_landmarks();
    lemma_pow2_unfold(96);
    lemma_pow2_unfold((k + 1) as nat);
    assert(pow2(95) == half);
    assert(k <= 126) by {
        if k > 127 {
            vstd::arithmetic::power2::lemma_pow2_strictly_increases(127, k as nat);
        }
    }
    let pk = pow2(k as nat) as int;
    assert(abs_value(n) == n && abs_value(d) == d && unsigned(d) == d);
    let offset = k + 1 - SCALING_FACTOR;
    let n0 = normalize(n, offset);
    let d0 = normalize(d, offset);
    if offset > 0 {
        let j = offset as nat;
        let pj = pow2(j) as int;
        lemma_pow2_pos(j);
        lemma_pow2_adds(j, 95);
        assert(pk == pj * half);
        lemma_fundamental_div_mod(d, pj);
        lemma_fundamental_div_mod(n, pj);
        let rd = d % pj;
        let rn = n % pj;
        assert(d0 == d / pj && n0 == n / pj);
        assert(half <= d0 < s && 0 <= n0 <= 0x2000_0000_0000_0000_0000_0000_0000_0000int) by (nonlinear_arith)
            requires
                pj * half <= d < pj * s,
                0 <= n <= 0x2000_0000_0000_0000_0000_0000_0000_0000int * pj,
                d == pj * d0 + rd,
                n == pj * n0 + rn,
                0 <= rd < pj,
                0 <= rn < pj,
        ;
        lemma_goldschmidt_converges(n0, d0);
        let q = goldschmidt(n0, d0, first_factor(d0), DIV_ITERATIONS as nat);
        assert(div_value(n, d) == q);
        let dist = q * d0 - n0 * s;
        let qd = q * d;
        let qrd = q * rd;
        let qpj = q * pj;
        let pdist = pj * dist;
        assert(qd - n * s == pdist + qrd - rn * s) by (nonlinear_arith)
            requires
                qd == q * d,
                d == pj * d0 + rd,
                n == pj * n0 + rn,
                dist == q * d0 - n0 * s,
                pdist == pj * dist,
                qrd == q * rd,
        ;
        assert(-(13 * n + 12 * d) <= pdist <= 13 * n + 12 * d) by (nonlinear_arith)
            requires
                pdist == pj * dist,
                -(13 * n0 + 12 * d0) <= dist <= 13 * n0 + 12 * d0,
                pj > 0,
                n == pj * n0 + rn,
                d == pj * d0 + rd,
                rn >= 0,
                rd >= 0,
        ;
        assert(0 <= qrd <= qpj) by (nonlinear_arith)
            requires
                qrd == q * rd,
                qpj == q * pj,
                0 <= rd < pj,
                q >= 0,
        ;
        let qd0 = q * d0;
        let top = n0 * (s + 13) + 12 * d0;
        let pn0 = pj * n0;
        let pd0 = pj * d0;
        assert(qd0 <= top);
        assert(qpj * d0 == pj * qd0) by (nonlinear_arith)
            requires
                qpj == q * pj,
                qd0 == q * d0,
        ;
        assert(pj * qd0 <= pj * top) by (nonlinear_arith)
            requires
                qd0 <= top,
                pj > 0,
        ;
        assert(pj * top == pn0 * (s + 13) + 12 * pd0) by (nonlinear_arith)
            requires
                top == n0 * (s + 13) + 12 * d0,
                pn0 == pj * n0,
                pd0 == pj * d0,
        ;
        assert(qpj * half <= qpj * d0) by (nonlinear_arith)
            requires
                qpj >= 0,
                half <= d0,
        ;
        assert(qpj * half <= n * (s + 13) + 12 * d);
        assert(pj * s <= 2 * d);
    } else {
        let j = (-offset) as nat;
        let pj = pow2(j) as int;
        lemma_pow2_pos(j);
        lemma_pow2_adds(k as nat, j);
        assert(pk * pj == half);
        let dp = d * pj;
        let np = n * pj;
        let top = 0x4000_0000int * pk;
        assert(pk * pj <= dp && dp < (2 * pk) * pj && 0 <= np && np <= top * pj)
            by (nonlinear_arith)
            requires
                dp == d * pj,
                np == n * pj,
                pk <= d < 2 * pk,
                0 <= n <= top,
                pj > 0,
        ;
        assert((2 * pk) * pj == 2 * (pk * pj) && top * pj == 0x4000_0000int * (pk * pj))
            by (nonlinear_arith)
            requires
                top == 0x4000_0000int * pk,
        ;
        lemma_wrap_multiple(dp, 0);
        lemma_wrap_multiple(np, 0);
        assert(d0 == dp && n0 == np);
        lemma_goldschmidt_converges(n0, d0);
        let q = goldschmidt(n0, d0, first_factor(d0), DIV_ITERATIONS as nat);
        assert(div_value(n, d) == q);
        let dist = q * d - n * s;
        assert(q * d0 - n0 * s == pj * dist) by (nonlinear_arith)
            requires
                d0 == d * pj,
                n0 == n * pj,
                dist == q * d - n * s,
        ;
        assert(-(13 * n + 12 * d) <= dist <= 13 * n + 12 * d) by (nonlinear_arith)
            requires
                -(13 * n0 + 12 * d0) <= pj * dist <= 13 * n0 + 12 * d0,
                d0 == d * pj,
                n0 == n * pj,
                pj > 0,
        ;
    }
    assert(in_range(div_value(n, d))) by {
        let q = div_value(n, d);
        let f5 = first_factor(d0);
        reveal_with_fuel(goldschmidt, 7);
        lemma_goldschmidt_in_range(n0, d0, f5, DIV_ITERATIONS as nat);
    }
}

/// What the rounds of a division leave is a stored integer, if the
/// numerator they start from is one.
proof fn lemma_goldschmidt_in_range(n: int, d: int, f: int, steps: nat)
    requires
        in_range(n),
    ensures
        in_range(goldschmidt(n, d, f, steps)),
    decreases steps,
{
    if steps > 0 {
        let d_next = mul_value(f, d);
        lemma_mul_in_range(f, n);
        lemma_goldschmidt_in_range(
            mul_value(f, n),
            d_next,
            wrap(2 * unit() - d_next),
            (steps - 1) as nat,
        );
    }
}

/// A product is a stored integer.
proof fn lemma_mul_in_range(a: int, b: int)
    ensures
        in_range(mul_value(a, b)),
{
    let p = magnitude(a) * magnitude(b) / unit();
    lemma_wrap_multiple(p, 0);
    lemma_wrap_multiple(-p, 0);
}

/// The quotient of two values from the quotient of their magnitudes.
proof fn lemma_signed_quotient(a: int, b: int)
    requires
        b != 0,
        in_range(a),
        in_range(b),
        magnitude(a) < sign_threshold(),
        magnitude(b) < sign_threshold(),
        magnitude(a) <= largest_ratio() * magnitude(b),
    ensures
        div_value(a, b) == if (a < 0) != (b < 0) {
            -div_value(magnitude(a), magnitude(b))
        } else {
            div_value(magnitude(a), magnitude(b))
        },
{
    let n = magnitude(a);
    let d = magnitude(b);
    lemma_division_of_positive(n, d);
    lemma_wrap_multiple(n, 0);
    lemma_wrap_multiple(d, 0);
    lemma_wrap_multiple(-div_value(n, d), 0);
    assert(abs_value(a) == n && abs_value(b) == d);
    assert(abs_value(n) == n && abs_value(d) == d);
}

/// The product of two magnitudes, rounded, from their exact product.
proof fn lemma_rounded_product(q: int, d: int, n: int, bound: int)
    requires
        q >= 0,
        d >= 0,
        bound >= 0,
        -bound <= q * d - n * unit() <= bound,
    ensures
        -(bound / unit() + 1) <= q * d / unit() - n <= bound / unit() + 1,
        q == 0 ==> q * d / unit() == 0,
{
    let s = 0x1_0000_0000_0000_0000_0000_0000int;
    assert(unit() == s);
    let qd = q * d;
    assert(qd >= 0 && (q == 0 ==> qd == 0)) by (nonlinear_arith)
        requires
            qd == q * d,
            q >= 0,
            d >= 0,
    ;
    lemma_fundamental_div_mod(qd, s);
    lemma_fundamental_div_mod(bound, s);
}

/// From the quotient of the magnitudes to the exact product of the signed
/// quotient with the signed divisor.
proof fn lemma_signed_product(a: int, b: int, q0: int, q: int)
    requires
        q == if (a < 0) != (b < 0) {
            -q0
        } else {
            q0
        },
    ensures
        q * b - a * unit() == if a < 0 {
            -(q0 * magnitude(b) - magnitude(a) * unit())
        } else {
            q0 * magnitude(b) - magnitude(a) * unit()
        },
{
    let d = magnitude(b);
    let q0d = q0 * d;
    let qb = q * b;
    assert(qb == if a < 0 {
        -q0d
    } else {
        q0d
    }) by (nonlinear_arith)
        requires
            qb == q * b,
            q0d == q0 * d,
            q == if (a < 0) != (b < 0) {
                -q0
            } else {
                q0
            },
            d == if b < 0 {
                -b
            } else {
                b
            },
    ;
}

/// From the rounded product of the magnitudes to the rounded product of
/// the signed quotient with the signed divisor, less the dividend.
proof fn lemma_signed_rounded(a: int, b: int, q0: int, q: int, p: int, slack: int)
    requires
        in_range(a),
        magnitude(a) < sign_threshold(),
        q0 >= 0,
        q == if (a < 0) != (b < 0) {
            -q0
        } else {
            q0
        },
        p == q0 * magnitude(b) / unit(),
        q0 == 0 ==> p == 0,
        0 <= slack < sign_threshold(),
        -slack <= p - magnitude(a) <= slack,
    ensures
        magnitude(wrap(mul_value(q, b) - a)) <= slack,
{
    let n = magnitude(a);
    assert(magnitude(q) == q0);
    let signed = if (q < 0) != (b < 0) {
        -p
    } else {
        p
    };
    assert(mul_value(q, b) == wrap(signed));
    lemma_wrap_inner(signed, -a);
    let diff = if a < 0 {
        -(p - n)
    } else {
        p - n
    };
    if q0 == 0 {
        assert(signed - a == diff);
    } else if a < 0 {
        assert(signed == -p);
        assert(signed - a == diff);
    } else {
        assert(signed == p);
        assert(signed - a == diff);
    }
    lemma_wrap_multiple(diff, 0);
}

/// A quotient times the divisor is close to the dividend: for a divisor
/// that is not zero and a dividend of at most `2^29` times its magnitude,
/// neither of them the most negative value, the exact product of the
/// stored integers of quotient and divisor is within `16 (|a| + |b|)` of
/// `a * 2^96`, and the product as the library rounds it differs from the
/// dividend by at most `16 (|a| + |b|) / 2^96 + 1` stored units. For
/// operands of magnitude at most one that is 33 units.
pub proof fn lemma_division_is_close(a: ArbitraryFixed, b: ArbitraryFixed)
    requires
        b@ != 0,
        magnitude(a@) < sign_threshold(),
        magnitude(b@) < sign_threshold(),
        magnitude(a@) <= largest_ratio() * magnitude(b@),
    ensures
        ({
            let q = div_value(a@, b@);
            let bound = 16 * (magnitude(a@) + magnitude(b@));
            &&& -bound <= q * b@ - a@ * unit() <= bound
            &&& magnitude(wrap(mul_value(q, b@) - a@)) <= bound / unit() + 1
        }),
{
    lemma_raw_words(a);
    lemma_raw_words(b);
    lemma_division_of_positive(magnitude(a@), magnitude(b@));
    lemma_signed_quotient(a@, b@);
    let n = magnitude(a@);
    let d = magnitude(b@);
    let q0 = div_value(n, d);
    let q = div_value(a@, b@);
    let bound = 16 * (n + d);
    lemma_signed_product(a@, b@, q0, q);
    lemma_rounded_product(q0, d, n, bound);
    lemma_fundamental_div_mod(bound, unit());
    lemma_signed_rounded(a@, b@, q0, q, q0 * d / unit(), bound / unit() + 1);
}

} // verus!
