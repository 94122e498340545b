//! How close the square root comes to the true one.

use crate::accuracy::{lemma_division_of_positive, lemma_mul_positive};
use crate::constants::SQRT_ITERATIONS;
use crate::model::{
    div_value, heron, heron_step, lemma_msb_bounds, lemma_pow2_landmarks, lemma_raw_words,
    lemma_wrap_multiple, msb_of, mul_value, quotient_or_zero, shl_value, sign_threshold,
    sqrt_seed_bit, sqrt_value, unit, unsigned, wrap,
};
use crate::ArbitraryFixed;
use vstd::arithmetic::div_mod::lemma_fundamental_div_mod;
use vstd::arithmetic::power2::{
    lemma2_to64, lemma2_to64_rest, lemma_pow2_adds, lemma_pow2_pos, lemma_pow2_strictly_increases,
    lemma_pow2_unfold, pow2,
};
use vstd::prelude::*;

verus! {

/// `2^12`: the least value whose square root is shown to be close here.
pub open spec fn least_rooted() -> int {
    0x1000int
}

/// `2^124`: the values below it have square roots that are shown to be
/// close here.
pub open spec fn rooted_below() -> int {
    0x1000_0000_0000_0000_0000_0000_0000_0000int
}

/// What the roundings of one round can add to, or take from, twice the
/// product of the old and the new estimate, with `seed` the power of two
/// that the iteration started from.
pub open spec fn round_slack(a: int, seed: int) -> int {
    unit() + 64 * a + 128 * seed
}

/// Whether `seed` is a power of two fit to start from: its square is within
/// a factor of four of `a * 2^96`, from half of it to twice it.
pub open spec fn seed_fits(a: int, seed: int) -> bool {
    &&& seed >= 0x40_0000_0000_0000int
    &&& seed * seed <= 2 * (a * unit())
    &&& a * unit() <= 4 * (seed * seed)
}

/// One round, as far as the roundings go: twice the product of the old and
/// the new estimate is `x * x + a * 2^96` up to the slack of the division
/// and of the square.
proof fn lemma_heron_eta(a: int, x: int)
    requires
        least_rooted() <= a < rooted_below(),
        x > 0,
        4 * (x * x) >= a * unit(),
        x * x <= 3 * (a * unit()),
    ensures
        ({
            let x2 = heron_step(a, x);
            let e = unit() + 16 * (4 * a + 2 * x);
            &&& 0 <= x2 < sign_threshold()
            &&& -e <= 2 * (x * x2) - (x * x + a * unit()) <= e
        }),
{
    let s = 0x1_0000_0000_0000_0000_0000_0000int;
    assert(unit() == s);
    let xx = x * x;
    assert(x < 0x8000_0000_0000_0000_0000_0000_0000int) by (nonlinear_arith)
        requires
            xx == x * x,
            xx < 0x4000_0000_0000_0000_0000_0000_0000_0000_0000_0000_0000_0000_0000_0000int,
            x > 0,
    ;
    assert(xx <= 0x8000_0000_0000_0000_0000_0000_0000int * x) by (nonlinear_arith)
        requires
            xx == x * x,
            0 < x < 0x8000_0000_0000_0000_0000_0000_0000int,
    ;
    assert(4 * a <= 0x4000_0000int * x);
    // the square, rounded, and the sum
    lemma_fundamental_div_mod(xx, s);
    lemma_mul_positive(x, x);
    let m = xx / s;
    let rho = xx % s;
    assert(mul_value(x, x) == m);
    lemma_wrap_multiple(m + a, 0);
    let n = m + a;
    assert(wrap(mul_value(x, x) + a) == n);
    // twice the estimate
    lemma2_to64();
    lemma_wrap_multiple(2 * x, 0);
    let d = 2 * x;
    assert(shl_value(x, 1) == d);
    lemma_division_of_positive(n, d);
    let x2 = div_value(n, d);
    assert(heron_step(a, x) == x2);
    let x2d = x2 * d;
    let xx2 = x * x2;
    assert(x2d == 2 * xx2) by (nonlinear_arith)
        requires
            x2d == x2 * d,
            d == 2 * x,
            xx2 == x * x2,
    ;
    assert(n * s == xx - rho + a * s);
}

/// What one round does to the error `x * x - a * 2^96`, as an identity.
proof fn lemma_heron_identity(x: int, x2: int, big: int, eta: int)
    requires
        2 * (x * x2) == x * x + big + eta,
    ensures
        4 * ((x * x) * (x2 * x2 - big)) == (x * x - big) * (x * x - big) + 2 * (eta * (x * x
            + big)) + eta * eta,
{
    let xx = x * x;
    let yy = x2 * x2;
    let t = x * x2;
    let u = xx + big;
    assert(t * t == xx * yy) by (nonlinear_arith)
        requires
            t == x * x2,
            xx == x * x,
            yy == x2 * x2,
    ;
    assert((2 * t) * (2 * t) == 4 * (t * t)) by (nonlinear_arith);
    assert((u + eta) * (u + eta) == u * u + 2 * (eta * u) + eta * eta) by (nonlinear_arith);
    assert(u * u == (xx - big) * (xx - big) + 4 * (xx * big)) by (nonlinear_arith)
        requires
            u == xx + big,
    ;
    assert(xx * (yy - big) == xx * yy - xx * big) by (nonlinear_arith);
}

/// The products that the bounds of a round are stated with.
proof fn lemma_round_products(big: int, e: int, xx: int, eta: int, low: int)
    requires
        big >= 0,
        e >= 0,
        1024 * e <= big,
        xx >= low,
        low >= 0,
        -e <= eta <= e,
    ensures
        xx * e >= low * e,
        1024 * (e * e) <= big * e,
        0 <= eta * eta <= e * e,
        -(xx * e + big * e) <= eta * (xx + big) <= xx * e + big * e,
{
    assert(xx * e >= low * e) by (nonlinear_arith)
        requires
            xx >= low,
            e >= 0,
    ;
    assert(1024 * (e * e) <= big * e) by (nonlinear_arith)
        requires
            1024 * e <= big,
            e >= 0,
    ;
    assert(0 <= eta * eta <= e * e) by (nonlinear_arith)
        requires
            -e <= eta <= e,
    ;
    let w = xx + big;
    assert(-(w * e) <= eta * w <= w * e) by (nonlinear_arith)
        requires
            -e <= eta <= e,
            w >= 0,
    ;
    assert(w * e == xx * e + big * e) by (nonlinear_arith)
        requires
            w == xx + big,
    ;
}

/// From a bound on four times the square of the estimate times the new
/// error to a bound on the new error.
proof fn lemma_cancel_square(xx: int, w: int, lower: int, upper: int)
    requires
        xx > 0,
        4 * (xx * lower) <= 4 * (xx * w) <= 4 * (xx * upper),
    ensures
        lower <= w <= upper,
{
    assert(lower <= w) by (nonlinear_arith)
        requires
            xx > 0,
            xx * lower <= xx * w,
    ;
    assert(w <= upper) by (nonlinear_arith)
        requires
            xx > 0,
            xx * w <= xx * upper,
    ;
}

/// The first round, from the power of two `seed`: the square of the next
/// estimate is `a * 2^96` to within `a * 2^96` above and three times the
/// slack either way.
proof fn lemma_heron_first(a: int, seed: int)
    requires
        least_rooted() <= a < rooted_below(),
        seed_fits(a, seed),
    ensures
        ({
            let x1 = heron_step(a, seed);
            let e = round_slack(a, seed);
            &&& 0 < x1 < sign_threshold()
            &&& -(3 * e) <= x1 * x1 - a * unit() <= a * unit() + 3 * e
            &&& 1024 * e <= a * unit()
        }),
{
    let s = 0x1_0000_0000_0000_0000_0000_0000int;
    assert(unit() == s);
    let big = a * s;
    let e = round_slack(a, seed);
    let xx = seed * seed;
    assert(seed * 0x40_0000_0000_0000int <= xx) by (nonlinear_arith)
        requires
            xx == seed * seed,
            seed >= 0x40_0000_0000_0000int,
    ;
    assert(1024 * e <= big);
    lemma_heron_eta(a, seed);
    let x1 = heron_step(a, seed);
    let eta = 2 * (seed * x1) - (xx + big);
    lemma_heron_identity(seed, x1, big, eta);
    let w = x1 * x1 - big;
    let v = xx - big;
    let vv = v * v;
    let xa = xx * big;
    assert(4 * vv <= 9 * xa) by (nonlinear_arith)
        requires
            vv == (xx - big) * (xx - big),
            xa == xx * big,
            xx <= 2 * big,
            big <= 4 * xx,
            xx >= 0,
    ;
    assert(vv >= 0) by (nonlinear_arith)
        requires
            vv == v * v,
    ;
    lemma_round_products(big, e, xx, eta, xx);
    let xe = xx * e;
    let be = big * e;
    let ee = e * e;
    assert(be <= 4 * xe) by (nonlinear_arith)
        requires
            be == big * e,
            xe == xx * e,
            big <= 4 * xx,
            e >= 0,
    ;
    let xw = xx * w;
    assert(xx * (big + 3 * e) == xa + 3 * xe && xx * (-(3 * e)) == -(3 * xe))
        by (nonlinear_arith)
        requires
            xa == xx * big,
            xe == xx * e,
    ;
    lemma_cancel_square(xx, w, -(3 * e), big + 3 * e);
    assert(x1 > 0) by (nonlinear_arith)
        requires
            x1 * x1 - big >= -(3 * e),
            1024 * e <= big,
            big > 0,
            x1 >= 0,
    ;
}

/// A later round: the part of the error that is at most `p` becomes at
/// most `p_next`, where `p * p` is at most `4 * a * 2^96 * p_next`, and the
/// rest stays within three times the slack.
proof fn lemma_heron_round(a: int, seed: int, x: int, p: int, p_next: int)
    requires
        least_rooted() <= a < rooted_below(),
        seed_fits(a, seed),
        x > 0,
        -(3 * round_slack(a, seed)) <= x * x - a * unit() <= p + 3 * round_slack(a, seed),
        0 <= p <= a * unit(),
        0 <= p_next,
        p * p <= 4 * ((a * unit()) * p_next),
    ensures
        ({
            let x2 = heron_step(a, x);
            let e = round_slack(a, seed);
            &&& 0 < x2 < sign_threshold()
            &&& -(3 * e) <= x2 * x2 - a * unit() <= p_next + 3 * e
        }),
{
    let s = 0x1_0000_0000_0000_0000_0000_0000int;
    assert(unit() == s);
    let big = a * s;
    let e = round_slack(a, seed);
    let ss = seed * seed;
    assert(seed * 0x40_0000_0000_0000int <= ss) by (nonlinear_arith)
        requires
            ss == seed * seed,
            seed >= 0x40_0000_0000_0000int,
    ;
    assert(1024 * e <= big);
    let xx = x * x;
    let v = xx - big;
    // the estimate is at most four times the seed
    assert(x <= 4 * seed) by (nonlinear_arith)
        requires
            xx == x * x,
            ss == seed * seed,
            xx < 16 * ss,
            x > 0,
            seed > 0,
    ;
    lemma_heron_eta(a, x);
    let x2 = heron_step(a, x);
    let eta = 2 * (x * x2) - (xx + big);
    assert(-e <= eta <= e);
    lemma_heron_identity(x, x2, big, eta);
    let w = x2 * x2 - big;
    let vv = v * v;
    let pp = p * p;
    let pe = p * e;
    let ee = e * e;
    let xe = xx * e;
    let be = big * e;
    let xpn = xx * p_next;
    let bpn = big * p_next;
    let low = if v >= 0 {
        big
    } else {
        big - 3 * e
    };
    lemma_round_products(big, e, xx, eta, low);
    assert(low * e == if v >= 0 {
        be
    } else {
        be - 3 * ee
    }) by (nonlinear_arith)
        requires
            be == big * e,
            ee == e * e,
            low == if v >= 0 {
                big
            } else {
                big - 3 * e
            },
    ;
    assert(0 <= vv && (v >= 0 ==> vv <= pp + 6 * pe + 9 * ee) && (v < 0 ==> vv <= 9 * ee))
        by (nonlinear_arith)
        requires
            vv == v * v,
            pp == p * p,
            pe == p * e,
            ee == e * e,
            -(3 * e) <= v <= p + 3 * e,
            p >= 0,
            e >= 0,
    ;
    assert(pe <= be && xpn >= 0 && (v >= 0 ==> xpn >= bpn)) by (nonlinear_arith)
        requires
            pe == p * e,
            be == big * e,
            xpn == xx * p_next,
            bpn == big * p_next,
            0 <= p <= big,
            e >= 0,
            p_next >= 0,
            xx >= 0,
            v == xx - big,
    ;
    assert(xx * (p_next + 3 * e) == xpn + 3 * xe && xx * (-(3 * e)) == -(3 * xe))
        by (nonlinear_arith)
        requires
            xpn == xx * p_next,
            xe == xx * e,
    ;
    lemma_cancel_square(xx, w, -(3 * e), p_next + 3 * e);
    assert(x2 > 0) by (nonlinear_arith)
        requires
            x2 * x2 - big >= -(3 * e),
            1024 * e <= big,
            big > 0,
            x2 >= 0,
    ;
}

/// The bounds on the part of the error that the rounds square: each is a
/// literal multiple of `a`, and fits the next.
proof fn lemma_quadratic_part(a: int, c: int, c_next: int)
    requires
        a >= 0,
        0 <= c <= unit(),
        0 <= c_next,
        c * c <= 4 * unit() * c_next,
    ensures
        0 <= a * c <= a * unit(),
        0 <= a * c_next,
        (a * c) * (a * c) <= 4 * ((a * unit()) * (a * c_next)),
{
    let s = unit();
    let aa = a * a;
    assert(0 <= a * c <= a * s && 0 <= a * c_next) by (nonlinear_arith)
        requires
            a >= 0,
            0 <= c <= s,
            0 <= c_next,
    ;
    assert((a * c) * (a * c) == aa * (c * c)) by (nonlinear_arith)
        requires
            aa == a * a,
    ;
    assert((a * s) * (a * c_next) == aa * (s * c_next)) by (nonlinear_arith)
        requires
            aa == a * a,
    ;
    assert(aa * (c * c) <= aa * (4 * s * c_next)) by (nonlinear_arith)
        requires
            aa >= 0,
            c * c <= 4 * s * c_next,
    ;
    assert(aa >= 0) by (nonlinear_arith)
        requires
            aa == a * a,
    ;
    assert(aa * (4 * s * c_next) == 4 * (aa * (s * c_next))) by (nonlinear_arith);
}

/// The power of two that the square root of `a` starts from fits `a`.
proof fn lemma_seed_fits(a: int)
    requires
        least_rooted() <= a < rooted_below(),
    ensures
        shl_value(1, sqrt_seed_bit(msb_of(unsigned(a))) as nat) == pow2(
            sqrt_seed_bit(msb_of(a)) as nat,
        ),
        seed_fits(a, pow2(sqrt_seed_bit(msb_of(a)) as nat) as int),
        54 <= sqrt_seed_bit(msb_of(a)) <= 110,
{
    let s = 0x1_0000_0000_0000_0000_0000_0000int;
    assert(unit() == s);
    let k = msb_of(a);
    lemma_msb_bounds(a);
    lemma_pow2_landmarks();
    lemma2_to64();
    lemma2_to64_rest();
    assert(unsigned(a) == a);
    assert(12 <= k <= 123) by {
        if k + 1 < 12 {
            lemma_pow2_strictly_increases((k + 1) as nat, 12);
        }
        if k > 124 {
            lemma_pow2_strictly_increases(124, k as nat);
        }
        lemma_pow2_adds(64, 60);
    }
    let g = sqrt_seed_bit(k);
    let seed = pow2(g as nat) as int;
    assert(54 <= g <= 110);
    lemma_pow2_pos(g as nat);
    lemma_pow2_adds(g as nat, g as nat);
    lemma_pow2_adds(k as nat, 96);
    lemma_pow2_unfold((k + 1) as nat);
    let z = pow2((k + 96) as nat) as int;
    let big = a * s;
    let pk = pow2(k as nat) as int;
    assert(z == pk * s);
    assert(z <= big < 2 * z);
    let ss = seed * seed;
    assert(ss == pow2((2 * g) as nat));
    // twice the seed bit is the bit of `a * 2^96`, or one off it
    if 2 * g == k + 96 {
    } else if 2 * g == k + 95 {
        lemma_pow2_unfold((k + 96) as nat);
    } else {
        assert(2 * g == k + 97);
        lemma_pow2_unfold((k + 97) as nat);
    }
    assert(2 * ss >= z && ss <= 2 * z);
    if g > 54 {
        lemma_pow2_strictly_increases(54, g as nat);
    }
    if g < 127 {
        lemma_pow2_strictly_increases(g as nat, 127);
    }
    lemma_wrap_multiple(seed, 0);
}

/// The square of the square root of a positive value from `2^-84` to
/// below `2^28`: with `r` the root as stored, `r * r` is `a * 2^96` to
/// within `3 * 2^96 + 193 a + 768 r`.
pub proof fn lemma_root_of_positive(a: int)
    requires
        least_rooted() <= a < rooted_below(),
    ensures
        0 < sqrt_value(a) < sign_threshold(),
        -(3 * unit() + 193 * a + 768 * sqrt_value(a)) <= sqrt_value(a) * sqrt_value(a) - a
            * unit() <= 3 * unit() + 193 * a + 768 * sqrt_value(a),
{
    let s = 0x1_0000_0000_0000_0000_0000_0000int;
    assert(unit() == s);
    let g = sqrt_seed_bit(msb_of(a));
    let seed = pow2(g as nat) as int;
    lemma_seed_fits(a);
    lemma_heron_first(a, seed);
    let x1 = heron_step(a, seed);
    lemma_quadratic_part(a, 0x1_0000_0000_0000_0000_0000_0000int, 0x4000_0000_0000_0000_0000_0000int);
    lemma_heron_round(a, seed, x1, a * 0x1_0000_0000_0000_0000_0000_0000int, a * 0x4000_0000_0000_0000_0000_0000int);
    let x2 = heron_step(a, x1);
    lemma_quadratic_part(a, 0x4000_0000_0000_0000_0000_0000int, 0x400_0000_0000_0000_0000_0000int);
    lemma_heron_round(a, seed, x2, a * 0x4000_0000_0000_0000_0000_0000int, a * 0x400_0000_0000_0000_0000_0000int);
    let x3 = heron_step(a, x2);
    lemma_quadratic_part(a, 0x400_0000_0000_0000_0000_0000int, 0x4_0000_0000_0000_0000_0000int);
    lemma_heron_round(a, seed, x3, a * 0x400_0000_0000_0000_0000_0000int, a * 0x4_0000_0000_0000_0000_0000int);
    let x4 = heron_step(a, x3);
    lemma_quadratic_part(a, 0x4_0000_0000_0000_0000_0000int, 0x4_0000_0000_0000_0000int);
    lemma_heron_round(a, seed, x4, a * 0x4_0000_0000_0000_0000_0000int, a * 0x4_0000_0000_0000_0000int);
    let x5 = heron_step(a, x4);
    lemma_quadratic_part(a, 0x4_0000_0000_0000_0000int, 0x4_0000_0000int);
    lemma_heron_round(a, seed, x5, a * 0x4_0000_0000_0000_0000int, a * 0x4_0000_0000int);
    let x6 = heron_step(a, x5);
    lemma_quadratic_part(a, 0x4_0000_0000int, 0x1int);
    lemma_heron_round(a, seed, x6, a * 0x4_0000_0000int, a * 0x1int);
    let x7 = heron_step(a, x6);
    lemma_quadratic_part(a, 0x1int, 0x1int);
    lemma_heron_round(a, seed, x7, a * 0x1int, a * 0x1int);
    let x8 = heron_step(a, x7);
    assert(heron(a, seed, SQRT_ITERATIONS as nat) == x8) by {
        reveal_with_fuel(heron, 9);
    }
    assert(sqrt_value(a) == x8);
    // the seed is at most twice the root
    let e = round_slack(a, seed);
    let rr = x8 * x8;
    let ss = seed * seed;
    assert(seed <= 2 * x8) by (nonlinear_arith)
        requires
            rr == x8 * x8,
            ss == seed * seed,
            4 * rr >= ss,
            x8 > 0,
            seed > 0,
    ;
}

/// The square of the square root is close to the value: for every value
/// from `2^-84` to below `2^28`, the product of the root with itself, as
/// the library rounds it, differs from the value by at most
/// `(193 a + 768 r) / 2^96 + 4` stored units, where `r` is the stored
/// integer of the root.
pub proof fn lemma_root_is_close(a: ArbitraryFixed)
    requires
        least_rooted() <= a@ < rooted_below(),
    ensures
        ({
            let r = sqrt_value(a@);
            let slack = (193 * a@ + 768 * r) / unit() + 4;
            -slack <= mul_value(r, r) - a@ <= slack
        }),
{
    let s = 0x1_0000_0000_0000_0000_0000_0000int;
    assert(unit() == s);
    lemma_root_of_positive(a@);
    let r = sqrt_value(a@);
    let rr = r * r;
    let bound = 3 * s + 193 * a@ + 768 * r;
    assert(rr >= 0) by (nonlinear_arith)
        requires
            rr == r * r,
    ;
    lemma_fundamental_div_mod(rr, s);
    lemma_fundamental_div_mod(193 * a@ + 768 * r, s);
    lemma_mul_positive(r, r);
}

} // verus!
