//! Identities of the arithmetic, proved for every pair of values from the
//! integer model that the contracts of the operations are stated with.

use crate::model::{
    div_value, floor_value, in_range, inv_value, lemma_raw_words, lemma_wrap_residue, magnitude,
    mul_value, rem_value, sqrt_value, unit, wrap,
};
use crate::ArbitraryFixed;
use vstd::prelude::*;

verus! {

/// Adding `b` and then subtracting it gives `a` back, also where the sum
/// wrapped around.
pub proof fn lemma_add_then_sub(a: ArbitraryFixed, b: ArbitraryFixed)
    ensures
        wrap(wrap(a@ + b@) - b@) == a@,
{
    lemma_raw_words(a);
    lemma_raw_words(b);
}

/// Subtracting `b` and then adding it gives `a` back.
pub proof fn lemma_sub_then_add(a: ArbitraryFixed, b: ArbitraryFixed)
    ensures
        wrap(wrap(a@ - b@) + b@) == a@,
{
    lemma_raw_words(a);
    lemma_raw_words(b);
}

/// Negating twice gives the value back; this holds of the most negative
/// value too, which is its own negation.
pub proof fn lemma_neg_neg(a: ArbitraryFixed)
    ensures
        wrap(-wrap(-a@)) == a@,
{
    lemma_raw_words(a);
}

/// Zero is neutral for addition.
pub proof fn lemma_add_zero(a: ArbitraryFixed)
    ensures
        wrap(a@ + 0) == a@,
        wrap(0 + a@) == a@,
{
    lemma_raw_words(a);
}

/// One is neutral for multiplication.
pub proof fn lemma_mul_one(a: ArbitraryFixed)
    ensures
        mul_value(a@, unit()) == a@,
        mul_value(unit(), a@) == a@,
{
    lemma_raw_words(a);
    let m = magnitude(a@);
    assert(m * unit() / unit() == m);
    assert(unit() * m / unit() == m);
}

/// Addition does not depend on the order of its operands.
pub proof fn lemma_add_commutes(a: ArbitraryFixed, b: ArbitraryFixed)
    ensures
        wrap(a@ + b@) == wrap(b@ + a@),
{
}

/// Multiplication does not depend on the order of its operands.
pub proof fn lemma_mul_commutes(a: ArbitraryFixed, b: ArbitraryFixed)
    ensures
        mul_value(a@, b@) == mul_value(b@, a@),
{
    assert(magnitude(a@) * magnitude(b@) == magnitude(b@) * magnitude(a@)) by (nonlinear_arith);
}

/// The whole part of the quotient times the divisor, plus the remainder,
/// is the dividend, exactly.
pub proof fn lemma_remainder(a: ArbitraryFixed, b: ArbitraryFixed)
    requires
        b@ != 0,
    ensures
        wrap(mul_value(floor_value(div_value(a@, b@)), b@) + rem_value(a@, b@)) == a@,
{
    lemma_raw_words(a);
    let whole = mul_value(floor_value(div_value(a@, b@)), b@);
    lemma_wrap_residue(a@ - whole);
    assert(in_range(whole)) by {
        let p = magnitude(floor_value(div_value(a@, b@))) * magnitude(b@) / unit();
        lemma_wrap_residue(p);
        lemma_wrap_residue(-p);
        crate::model::lemma_wrap_multiple(p, 0);
        crate::model::lemma_wrap_multiple(-p, 0);
    }
}

/// The product of two whole numbers is the whole number that is their
/// product, wrapped: nothing is rounded.
pub proof fn lemma_mul_whole(m: int, n: int)
    requires
        in_range(m * unit()),
        in_range(n * unit()),
    ensures
        mul_value(m * unit(), n * unit()) == wrap(m * n * unit()),
{
    let s = unit();
    let am = magnitude(m);
    let an = magnitude(n);
    assert(magnitude(m * s) == am * s && magnitude(n * s) == an * s);
    let p = am * an;
    assert((am * s) * (an * s) == (p * s) * s) by (nonlinear_arith)
        requires
            p == am * an,
    ;
    assert((p * s) * s / s == p * s) by {
        vstd::arithmetic::div_mod::lemma_div_multiples_vanish(p * s, s);
    }
    assert(m * n == if (m < 0) != (n < 0) {
        -p
    } else {
        p
    }) by (nonlinear_arith)
        requires
            p == am * an,
            am == if m < 0 {
                -m
            } else {
                m
            },
            an == if n < 0 {
                -n
            } else {
                n
            },
    ;
    if m == 0 || n == 0 {
        assert(p == 0) by (nonlinear_arith)
            requires
                p == am * an,
                am == 0 || an == 0,
        ;
    }
}

/// The square root of zero and the reciprocal of zero are zero.
pub proof fn lemma_zero_is_fixed()
    ensures
        sqrt_value(0) == 0,
        inv_value(0) == 0,
{
}

} // verus!
