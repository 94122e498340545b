//! Addition, negation, subtraction, multiplication, division, reciprocal
//! and remainder.

use crate::model::{
    abs_value, div_value, floor_value, goldschmidt, inv_value, lemma_of_value,
    lemma_radix_pow_adds, lemma_radix_pow_step, lemma_radix_pow_values, lemma_raw_words,
    lemma_view_injective, lemma_wide_words, lemma_words_value_agree, lemma_wrap_residue, magnitude,
    modulus, mul_value, newton_reciprocal, radix_pow, rem_value, unit, word_radix, words_value,
    wrap,
};
use crate::constants::{DIV_ITERATIONS, INV_ITERATIONS};
use crate::words::mul_step;
use std::ops::Neg;
use crate::ArithmeticError;
use crate::ArbitraryFixed;
use crate::DOUBLE_SIZE;
use crate::SCALING_FACTOR;
use crate::SIZE;
use vstd::prelude::*;

verus! {

/// The full product of two bit patterns, twice as many words long.
#[verifier::loop_isolation(false)]
fn wide_product(a: &[u32; SIZE], b: &[u32; SIZE]) -> (res: [u32; DOUBLE_SIZE])
    ensures
        words_value(res@, DOUBLE_SIZE as int) == words_value(a@, SIZE as int) * words_value(
            b@,
            SIZE as int,
        ),
{
    let mut res = [0u32; DOUBLE_SIZE];
    let ghost full = words_value(b@, SIZE as int);
    let mut i: usize = 0;
    proof {
        lemma_words_value_zero(res@, SIZE as int);
    }
    while i < SIZE
        invariant
            i <= SIZE,
            full == words_value(b@, SIZE as int),
            words_value(res@, i + SIZE) == words_value(a@, i as int) * full,
            forall|k: int| i + SIZE <= k < DOUBLE_SIZE ==> res@[k] == 0,
        decreases SIZE - i,
    {
        let ghost start = res@;
        let x = a[i];
        let mut carry: u32 = 0;
        let mut j: usize = 0;
        while j < SIZE
            invariant
                i < SIZE,
                j <= SIZE,
                x == a[i as int],
                forall|k: int| i + j <= k < DOUBLE_SIZE ==> res@[k] == start[k],
                words_value(res@, i + j) + carry * radix_pow(i + j) == words_value(start, i + j)
                    + x * radix_pow(i as int) * words_value(b@, j as int),
            decreases SIZE - j,
        {
            let ghost before = res@;
            let (low, high) = mul_step(x, b[j], res[i + j], carry);
            res[i + j] = low;
            proof {
                let pi = radix_pow(i as int);
                let pj = radix_pow(j as int);
                let pij = radix_pow(i + j);
                let y = b[j as int] as int;
                let old_word = start[i + j] as int;
                let bj = words_value(b@, j as int);
                lemma_words_value_agree(before, res@, i + j);
                lemma_radix_pow_step(i + j);
                lemma_radix_pow_adds(i as int, j as int);
                let total = x * y + old_word + carry;
                assert(low * pij + high * (word_radix() * pij) == total * pij)
                    by (nonlinear_arith)
                    requires
                        low + high * word_radix() == total,
                ;
                assert(total * pij == (x * y) * pij + old_word * pij + carry * pij)
                    by (nonlinear_arith)
                    requires
                        total == x * y + old_word + carry,
                ;
                assert((x * y) * pij == x * pi * (y * pj)) by (nonlinear_arith)
                    requires
                        pij == pi * pj,
                ;
                assert(x * pi * (bj + y * pj) == x * pi * bj + x * pi * (y * pj))
                    by (nonlinear_arith);
            }
            carry = high;
            j += 1;
        }
        let ghost before = res@;
        res[i + SIZE] = carry;
        proof {
            let xi = x as int;
            let pi = radix_pow(i as int);
            let ai = words_value(a@, i as int);
            lemma_words_value_agree(before, res@, i + SIZE);
            assert((ai + xi * pi) * full == ai * full + xi * pi * full) by (nonlinear_arith);
            assert forall|k: int| i + 1 + SIZE <= k < DOUBLE_SIZE implies res@[k] == 0 by {
                assert(before[k] == start[k]);
            }
        }
        i += 1;
    }
    res
}

/// The product of two bit patterns without its low `96` bits, cut to the
/// `128` bits that a value holds.
fn scaled_product(a: &ArbitraryFixed, b: &ArbitraryFixed) -> (ret: ArbitraryFixed)
    ensures
        ret.raw() == (a.raw() * b.raw() / unit()) % modulus(),
{
    let res = wide_product(&a.data, &b.data);
    let mut ret = ArbitraryFixed { data: [0u32; SIZE] };
    let mut idx: usize = 0;
    while idx < SIZE
        invariant
            idx <= SIZE,
            forall|k: int| 0 <= k < idx ==> ret.data[k] == res[k + SCALING_FACTOR / 32],
        decreases SIZE - idx,
    {
        ret.data[idx] = res[idx + SCALING_FACTOR / 32];
        idx += 1;
    }
    proof {
        let full = words_value(res@, DOUBLE_SIZE as int);
        let low = res[0] + res[1] * 0x1_0000_0000 + res[2] * 0x1_0000_0000_0000_0000;
        lemma_wide_words(res@);
        lemma_raw_words(ret);
        assert(SCALING_FACTOR / 32 == 3);
        assert(ret.data[0] == res[3]);
        assert(ret.data[1] == res[4]);
        assert(ret.data[2] == res[5]);
        assert(ret.data[3] == res[6]);
        assert(full == low + unit() * (ret.raw() + modulus() * res[7]));
        assert(full / unit() == ret.raw() + modulus() * res[7]);
        assert((full / unit()) % modulus() == ret.raw());
    }
    ret
}

/// A run of zero words spells zero.
proof fn lemma_words_value_zero(s: Seq<u32>, n: int)
    requires
        0 <= n <= s.len(),
        forall|k: int| 0 <= k < n ==> s[k] == 0,
    ensures
        words_value(s, n) == 0,
    decreases n,
{
    if n > 0 {
        lemma_words_value_zero(s, n - 1);
    }
}

/// What `+` means in contracts: the value of the wrapped sum.
impl vstd::std_specs::ops::AddSpecImpl for ArbitraryFixed {
    open spec fn obeys_add_spec() -> bool {
        true
    }

    open spec fn add_req(self, other: ArbitraryFixed) -> bool {
        true
    }

    open spec fn add_spec(self, other: ArbitraryFixed) -> ArbitraryFixed {
        ArbitraryFixed::of_value(self@ + other@)
    }
}

impl std::ops::Add for ArbitraryFixed {
    type Output = ArbitraryFixed;

    /// Sum of two values, wrapping modulo `2^128`.
    fn add(self, other: ArbitraryFixed) -> (ret: ArbitraryFixed)
        ensures
            ret@ == wrap(self@ + other@),
    {
        let mut ret = ArbitraryFixed { data: [0u32; SIZE] };
        let mut carry_prev = false;
        let mut i: usize = 0;
        while i < SIZE
            invariant
                i <= SIZE,
                words_value(ret.data@, i as int) + (if carry_prev {
                    1int
                } else {
                    0int
                }) * radix_pow(i as int) == words_value(self.data@, i as int) + words_value(
                    other.data@,
                    i as int,
                ),
            decreases SIZE - i,
        {
            let ghost before = ret.data@;
            let a = self.data[i];
            let b = other.data[i];
            let sum = a.wrapping_add(b);
            let carry = sum < a;
            let cin: u32 = if carry_prev {
                1
            } else {
                0
            };
            let r = cin.wrapping_add(sum);
            let carry_next = carry || (carry_prev && r == 0);
            ret.data[i] = r;
            proof {
                let p = radix_pow(i as int);
                let cout: int = if carry_next {
                    1
                } else {
                    0
                };
                lemma_words_value_agree(before, ret.data@, i as int);
                lemma_radix_pow_step(i as int);
                assert(r + cout * word_radix() == a + b + cin);
                assert(r * p + cout * (word_radix() * p) == a * p + b * p + cin * p)
                    by (nonlinear_arith)
                    requires
                        r + cout * word_radix() == a + b + cin,
                ;
            }
            carry_prev = carry_next;
            i += 1;
        }
        proof {
            lemma_raw_words(ret);
            lemma_raw_words(self);
            lemma_raw_words(other);
            lemma_radix_pow_values();
            lemma_of_value(self@ + other@);
            lemma_view_injective(ret, ArbitraryFixed::of_value(self@ + other@));
        }
        ret
    }
}

/// What negation means in contracts: the value of the wrapped negative.
impl vstd::std_specs::ops::NegSpecImpl for ArbitraryFixed {
    open spec fn obeys_neg_spec() -> bool {
        true
    }

    open spec fn neg_req(self) -> bool {
        true
    }

    open spec fn neg_spec(self) -> ArbitraryFixed {
        ArbitraryFixed::of_value(-self@)
    }
}

impl std::ops::Neg for ArbitraryFixed {
    type Output = ArbitraryFixed;

    /// Two's-complement negation, wrapping modulo `2^128`: the most
    /// negative value is its own negation.
    fn neg(self) -> (ret: ArbitraryFixed)
        ensures
            ret@ == wrap(-self@),
    {
        let mut ret = ArbitraryFixed { data: [0u32; SIZE] };
        let mut carry_prev = true;
        let mut i: usize = 0;
        while i < SIZE
            invariant
                i <= SIZE,
                words_value(ret.data@, i as int) + (if carry_prev {
                    1int
                } else {
                    0int
                }) * radix_pow(i as int) + words_value(self.data@, i as int) == radix_pow(
                    i as int,
                ),
            decreases SIZE - i,
        {
            let ghost before = ret.data@;
            let a = self.data[i];
            let flipped = !a;
            let cin: u32 = if carry_prev {
                1
            } else {
                0
            };
            let r = cin.wrapping_add(flipped);
            let carry_next = carry_prev && r == 0;
            ret.data[i] = r;
            proof {
                let p = radix_pow(i as int);
                let cout: int = if carry_next {
                    1
                } else {
                    0
                };
                assert(flipped == 0xffff_ffff - a) by (bit_vector)
                    requires
                        flipped == !a,
                ;
                lemma_words_value_agree(before, ret.data@, i as int);
                lemma_radix_pow_step(i as int);
                assert(r + a + cout * word_radix() == word_radix() - 1 + cin);
                assert(r * p + a * p + cout * (word_radix() * p) == word_radix() * p - p + cin
                    * p) by (nonlinear_arith)
                    requires
                        r + a + cout * word_radix() == word_radix() - 1 + cin,
                ;
            }
            carry_prev = carry_next;
            i += 1;
        }
        proof {
            lemma_raw_words(ret);
            lemma_raw_words(self);
            lemma_radix_pow_values();
            lemma_of_value(-self@);
            lemma_view_injective(ret, ArbitraryFixed::of_value(-self@));
        }
        ret
    }
}

/// What `-` means in contracts: the value of the wrapped difference.
impl vstd::std_specs::ops::SubSpecImpl for ArbitraryFixed {
    open spec fn obeys_sub_spec() -> bool {
        true
    }

    open spec fn sub_req(self, other: ArbitraryFixed) -> bool {
        true
    }

    open spec fn sub_spec(self, other: ArbitraryFixed) -> ArbitraryFixed {
        ArbitraryFixed::of_value(self@ - other@)
    }
}

impl std::ops::Sub for ArbitraryFixed {
    type Output = ArbitraryFixed;

    /// Difference of two values, wrapping modulo `2^128`.
    fn sub(self, other: ArbitraryFixed) -> (ret: ArbitraryFixed)
        ensures
            ret@ == wrap(self@ - other@),
    {
        let ret = self + other.neg();
        proof {
            lemma_raw_words(other);
            lemma_raw_words(self);
            lemma_of_value(self@ - other@);
            lemma_view_injective(ret, ArbitraryFixed::of_value(self@ - other@));
        }
        ret
    }
}

/// What `*` means in contracts: the value of the rounded, wrapped product.
impl vstd::std_specs::ops::MulSpecImpl for ArbitraryFixed {
    open spec fn obeys_mul_spec() -> bool {
        true
    }

    open spec fn mul_req(self, other: ArbitraryFixed) -> bool {
        true
    }

    open spec fn mul_spec(self, other: ArbitraryFixed) -> ArbitraryFixed {
        ArbitraryFixed::of_value(mul_value(self@, other@))
    }
}

impl std::ops::Mul for ArbitraryFixed {
    type Output = ArbitraryFixed;

    /// Product of two values: the magnitudes are multiplied in full, the
    /// low `96` bits of the product are dropped, and the sign is put back.
    fn mul(self, other: ArbitraryFixed) -> (ret: ArbitraryFixed)
        ensures
            ret@ == mul_value(self@, other@),
    {
        let a_negative = self.is_negative();
        let b_negative = other.is_negative();
        let fix_a = if a_negative {
            self.neg()
        } else {
            self
        };
        let fix_b = if b_negative {
            other.neg()
        } else {
            other
        };
        proof {
            lemma_raw_words(self);
            lemma_raw_words(other);
            lemma_raw_words(fix_a);
            lemma_raw_words(fix_b);
            assert(fix_a.raw() == magnitude(self@));
            assert(fix_b.raw() == magnitude(other@));
        }
        let ret = scaled_product(&fix_a, &fix_b);
        proof {
            lemma_wrap_residue(magnitude(self@) * magnitude(other@) / unit());
        }
        let signed = if a_negative != b_negative {
            ret.neg()
        } else {
            ret
        };
        proof {
            lemma_of_value(mul_value(self@, other@));
            lemma_view_injective(signed, ArbitraryFixed::of_value(mul_value(self@, other@)));
        }
        signed
    }
}

/// What `/` means in contracts: the value of the quotient, or the refusal
/// of a zero divisor.
impl vstd::std_specs::ops::DivSpecImpl for ArbitraryFixed {
    open spec fn obeys_div_spec() -> bool {
        true
    }

    open spec fn div_req(self, other: ArbitraryFixed) -> bool {
        true
    }

    open spec fn div_spec(self, other: ArbitraryFixed) -> Result<ArbitraryFixed, ArithmeticError> {
        if other@ == 0 {
            Err(ArithmeticError::DivisionByZero)
        } else {
            Ok(ArbitraryFixed::of_value(div_value(self@, other@)))
        }
    }
}

impl std::ops::Div for ArbitraryFixed {
    type Output = Result<ArbitraryFixed, ArithmeticError>;

    /// Quotient of two values by Goldschmidt's iteration. A divisor that is
    /// exactly zero is refused, and nothing else is.
    fn div(self, other: ArbitraryFixed) -> (ret: Result<ArbitraryFixed, ArithmeticError>)
        ensures
            match ret {
                Ok(q) => other@ != 0 && q@ == div_value(self@, other@),
                Err(e) => other@ == 0 && e == ArithmeticError::DivisionByZero,
            },
    {
        let d_negative = other.is_negative();
        let n_negative = self.is_negative();
        let mut n = self.abs();
        let mut d = other.abs();
        let msb = d.msb();
        proof {
            lemma_raw_words(other);
            lemma_raw_words(d);
        }
        if msb == -1 {
            return Err(ArithmeticError::DivisionByZero);
        }
        let offset = msb + 1 - SCALING_FACTOR as isize;
        if offset > 0 {
            n = n.rshift(offset as usize);
            d = d.rshift(offset as usize);
        } else {
            n = n.lshift((-offset) as usize);
            d = d.lshift((-offset) as usize);
        }
        let mut f = ArbitraryFixed::div_intercept() - ArbitraryFixed::div_slope() * d;
        let two = ArbitraryFixed::two();
        let ghost q = goldschmidt(n@, d@, f@, DIV_ITERATIONS as nat);
        let mut i: usize = 0;
        while i < DIV_ITERATIONS
            invariant
                i <= DIV_ITERATIONS,
                two@ == 2 * unit(),
                goldschmidt(n@, d@, f@, (DIV_ITERATIONS - i) as nat) == q,
            decreases DIV_ITERATIONS - i,
        {
            n = f * n;
            d = f * d;
            f = two - d;
            i += 1;
        }
        let signed = if d_negative != n_negative {
            n.neg()
        } else {
            n
        };
        proof {
            lemma_of_value(div_value(self@, other@));
            lemma_view_injective(signed, ArbitraryFixed::of_value(div_value(self@, other@)));
        }
        Ok(signed)
    }
}

/// What `%` means in contracts: the value of the remainder, or the
/// refusal of a zero divisor.
impl vstd::std_specs::ops::RemSpecImpl for ArbitraryFixed {
    open spec fn obeys_rem_spec() -> bool {
        true
    }

    open spec fn rem_req(self, other: ArbitraryFixed) -> bool {
        true
    }

    open spec fn rem_spec(self, other: ArbitraryFixed) -> Result<ArbitraryFixed, ArithmeticError> {
        if other@ == 0 {
            Err(ArithmeticError::DivisionByZero)
        } else {
            Ok(ArbitraryFixed::of_value(rem_value(self@, other@)))
        }
    }
}

impl std::ops::Rem for ArbitraryFixed {
    type Output = Result<ArbitraryFixed, ArithmeticError>;

    /// Remainder of a division: the dividend less the whole part of the
    /// quotient times the divisor. The whole part is the quotient rounded
    /// toward negative infinity. A divisor that is exactly zero is refused.
    fn rem(self, other: ArbitraryFixed) -> (ret: Result<ArbitraryFixed, ArithmeticError>)
        ensures
            match ret {
                Ok(r) => other@ != 0 && r@ == rem_value(self@, other@),
                Err(e) => other@ == 0 && e == ArithmeticError::DivisionByZero,
            },
    {
        match self / other {
            Ok(q) => {
                let r = self - q.truncate_to_integer() * other;
                proof {
                    lemma_of_value(rem_value(self@, other@));
                    lemma_view_injective(r, ArbitraryFixed::of_value(rem_value(self@, other@)));
                }
                Ok(r)
            },
            Err(e) => Err(e),
        }
    }
}

impl ArbitraryFixed {
    /// The magnitude: the negation of a negative value, any other value
    /// as it is. The most negative value is its own magnitude.
    pub fn abs(self) -> (ret: ArbitraryFixed)
        ensures
            ret@ == abs_value(self@),
    {
        if self.is_negative() {
            self.neg()
        } else {
            self
        }
    }

    /// Reciprocal by Newton's iteration. The reciprocal of zero is zero.
    /// A value so small that its reciprocal has no room comes out as zero
    /// too.
    pub fn inv(self) -> (ret: ArbitraryFixed)
        ensures
            ret@ == inv_value(self@),
    {
        let a_negative = self.is_negative();
        let fix_a = self.abs();
        let msb = fix_a.msb();
        proof {
            lemma_raw_words(fix_a);
        }
        if msb == -1 {
            return ArbitraryFixed::zero();
        }
        let guess: usize = 2 * SCALING_FACTOR - (msb as usize + 1);
        let mut ret = ArbitraryFixed::epsilon().lshift(guess);
        let fix_two = ArbitraryFixed::two();
        let ghost r = newton_reciprocal(fix_a@, ret@, INV_ITERATIONS as nat);
        let mut i: usize = 0;
        while i < INV_ITERATIONS
            invariant
                i <= INV_ITERATIONS,
                fix_two@ == 2 * unit(),
                newton_reciprocal(fix_a@, ret@, (INV_ITERATIONS - i) as nat) == r,
            decreases INV_ITERATIONS - i,
        {
            ret = ret * (fix_two - fix_a * ret);
            i += 1;
        }
        if a_negative {
            ret.neg()
        } else {
            ret
        }
    }

    /// The value with its fractional bits cleared: the largest whole number
    /// that is not above it, so a negative value moves away from zero.
    pub fn truncate_to_integer(self) -> (ret: ArbitraryFixed)
        ensures
            ret@ == floor_value(self@),
    {
        let mut ret = self;
        let mut i: usize = 0;
        while i < SCALING_FACTOR / 32
            invariant
                i <= SCALING_FACTOR / 32,
                forall|k: int| 0 <= k < i ==> ret.data[k] == 0,
                forall|k: int| i <= k < SIZE ==> ret.data[k] == self.data[k],
            decreases SCALING_FACTOR / 32 - i,
        {
            ret.data[i] = 0;
            i += 1;
        }
        proof {
            lemma_raw_words(self);
            lemma_raw_words(ret);
            let low = self.data[0] + self.data[1] * 0x1_0000_0000 + self.data[2]
                * 0x1_0000_0000_0000_0000;
            assert(self@ == (ret@ / unit()) * unit() + low);
            vstd::arithmetic::div_mod::lemma_fundamental_div_mod_converse(
                self@,
                unit(),
                ret@ / unit(),
                low,
            );
        }
        ret
    }
}

} // verus!
