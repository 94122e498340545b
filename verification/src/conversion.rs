//! Conversions between values and integers, texts and the bits of
//! floating-point numbers.

use crate::model::{
    lemma_msb_bounds, lemma_msb_unique, lemma_of_value, lemma_pow2_landmarks, lemma_raw_words,
    lemma_view_injective, lemma_wrap_multiple, lemma_wrap_residue, magnitude, msb_of, normalize,
    unit, wrap,
};
use crate::ArbitraryFixed;
use crate::ParseError;
use crate::SIZE;
use std::num::IntErrorKind;
use std::ops::Neg;
use vstd::arithmetic::power2::{
    lemma2_to64, lemma2_to64_rest, lemma_pow2_adds, lemma_pow2_pos, lemma_pow2_unfold, pow2,
};
use vstd::prelude::*;

verus! {

/// What `i128::from_str_radix` makes of a text in a radix from 2 to 36:
/// the integer, or the kind of its failure.
pub uninterp spec fn radix_parse(text: Seq<char>, radix: u32) -> Result<i128, ParseError>;

/// Calls `i128::from_str_radix`, which is not verified: the result is
/// taken to depend on the text and the radix alone, and is given the name
/// `radix_parse`. The kind of a failure is carried over to `ParseError`.
/// The call panics on a radix outside 2 to 36, which is left out here.
#[verifier::external_body]
fn parse_i128(text: &str, radix: u32) -> (r: Result<i128, ParseError>)
    requires
        2 <= radix <= 36,
    ensures
        r == radix_parse(text@, radix),
{
    match i128::from_str_radix(text, radix) {
        Ok(n) => Ok(n),
        Err(e) => Err(
            match e.kind() {
                IntErrorKind::Empty => ParseError::Empty,
                IntErrorKind::InvalidDigit => ParseError::InvalidDigit,
                IntErrorKind::PosOverflow => ParseError::PosOverflow,
                IntErrorKind::NegOverflow => ParseError::NegOverflow,
                _ => ParseError::Other,
            },
        ),
    }
}

/// The stored integer of the whole number `n`: `n * 2^96`, wrapped.
pub open spec fn integer_value(n: int) -> int {
    wrap(n * unit())
}

/// What a parsed integer, or the failure to parse one, becomes.
pub open spec fn parsed_value(parsed: Result<i128, ParseError>) -> Result<int, ParseError> {
    match parsed {
        Ok(n) => Ok(integer_value(n as int)),
        Err(e) => Err(e),
    }
}

/// Whether `ret` is the value, or the failure, that `expected` describes.
pub open spec fn matches_value(
    ret: Result<ArbitraryFixed, ParseError>,
    expected: Result<int, ParseError>,
) -> bool {
    match ret {
        Ok(v) => expected == Ok::<int, ParseError>(v@),
        Err(e) => expected == Err::<int, ParseError>(e),
    }
}

/// The sign bit of a single-precision float.
pub open spec fn f32_sign(bits: u32) -> bool {
    bits >= 0x8000_0000
}

/// The exponent field of a single-precision float.
pub open spec fn f32_exponent(bits: u32) -> int {
    ((bits / 0x80_0000) % 0x100) as int
}

/// The fraction field of a single-precision float.
pub open spec fn f32_fraction(bits: u32) -> int {
    (bits % 0x80_0000) as int
}

/// The stored integer made from the bits of a single-precision float.
///
/// With the exponent field zero (zero and the subnormal numbers, all
/// closer to zero than the smallest value) it is zero. Otherwise the 24-bit
/// significand is moved to where the exponent puts it: bits that fall
/// below the lowest stored bit are dropped, bits that pass the top are
/// lost, and the result is negated for a negative float. The exponent field
/// of the infinities and of NaN is read as any other, which moves all bits
/// past the top and leaves zero.
pub open spec fn f32_value(bits: u32) -> int {
    if f32_exponent(bits) == 0 {
        0
    } else {
        let m = normalize(f32_fraction(bits) + 0x80_0000, 54 - f32_exponent(bits));
        if f32_sign(bits) {
            wrap(-m)
        } else {
            m
        }
    }
}

/// The quotient of `x` by a positive `d`, rounded to the nearest integer,
/// and to the even one of two that are equally near.
pub open spec fn round_half_even(x: int, d: int) -> int {
    let q = x / d;
    let r = x % d;
    if 2 * r > d || (2 * r == d && q % 2 == 1) {
        q + 1
    } else {
        q
    }
}

/// The significand, of `p + 1` bits, of the float nearest to a magnitude
/// whose highest set bit is `msb`; `2^(p + 1)` where rounding carried.
pub open spec fn float_significand(m: int, msb: int, p: int) -> int {
    if msb > p {
        round_half_even(m, pow2((msb - p) as nat) as int)
    } else {
        m * pow2((p - msb) as nat)
    }
}

/// The bits of the single-precision float nearest to the number that a
/// stored integer stands for, ties going to the even significand. Every
/// value is within the range of such a float.
pub open spec fn f32_bits_of(a: int) -> int {
    let m = magnitude(a);
    if m == 0 {
        0
    } else {
        let k = msb_of(m);
        (if a < 0 {
            0x8000_0000int
        } else {
            0int
        }) + (k + 31) * 0x80_0000 + (float_significand(m, k, 23) - 0x80_0000)
    }
}

/// The sign bit of a double-precision float.
pub open spec fn f64_sign(bits: u64) -> bool {
    bits >= 0x8000_0000_0000_0000
}

/// The exponent field of a double-precision float.
pub open spec fn f64_exponent(bits: u64) -> int {
    ((bits / 0x10_0000_0000_0000) % 0x800) as int
}

/// The fraction field of a double-precision float.
pub open spec fn f64_fraction(bits: u64) -> int {
    (bits % 0x10_0000_0000_0000) as int
}

/// The stored integer made from the bits of a double-precision float, by
/// the rules of `f32_value` with a significand of 53 bits.
pub open spec fn f64_value(bits: u64) -> int {
    if f64_exponent(bits) == 0 {
        0
    } else {
        let m = normalize(f64_fraction(bits) + 0x10_0000_0000_0000, 979 - f64_exponent(bits));
        if f64_sign(bits) {
            wrap(-m)
        } else {
            m
        }
    }
}

/// The bits of the double-precision float nearest to the number that a
/// stored integer stands for, ties going to the even significand.
pub open spec fn f64_bits_of(a: int) -> int {
    let m = magnitude(a);
    if m == 0 {
        0
    } else {
        let k = msb_of(m);
        (if a < 0 {
            0x8000_0000_0000_0000int
        } else {
            0int
        }) + (k + 927) * 0x10_0000_0000_0000 + (float_significand(m, k, 52)
            - 0x10_0000_0000_0000)
    }
}

/// Rounding a quotient by `2 p` to the nearest, seen from the quotient `t`
/// by `p`: its last bit is the bit to round on, and what the division by
/// `p` left over says whether the quotient by `2 p` lies exactly half way.
proof fn lemma_round_split(m: int, p: int, t: int, low: int)
    requires
        p > 0,
        m == t * p + low,
        0 <= low < p,
    ensures
        round_half_even(m, 2 * p) == if t % 2 == 1 && (low > 0 || (t / 2) % 2 == 1) {
            t / 2 + 1
        } else {
            t / 2
        },
{
    let q = t / 2;
    let rb = t % 2;
    assert(m == q * (2 * p) + (rb * p + low)) by (nonlinear_arith)
        requires
            m == t * p + low,
            t == 2 * q + rb,
    ;
    assert(0 <= rb * p + low < 2 * p) by (nonlinear_arith)
        requires
            0 <= rb <= 1,
            0 <= low < p,
    ;
    vstd::arithmetic::div_mod::lemma_fundamental_div_mod_converse(m, 2 * p, q, rb * p + low);
    assert(rb == 1 ==> rb * p == p) by (nonlinear_arith);
    assert(rb == 0 ==> rb * p == 0) by (nonlinear_arith);
}

/// A magnitude whose highest set bit is `k`, divided by `2^j` for a `j`
/// of at most `k`, has its highest set bit at `k - j`.
proof fn lemma_shifted_bounds(m: int, k: nat, j: nat)
    requires
        pow2(k) <= m < pow2(k + 1),
        j <= k,
    ensures
        pow2((k - j) as nat) <= m / (pow2(j) as int) < pow2((k - j + 1) as nat),
        m == (m / (pow2(j) as int)) * pow2(j) + m % (pow2(j) as int),
        0 <= m % (pow2(j) as int) < pow2(j),
{
    let p = pow2(j) as int;
    let t = m / p;
    lemma_pow2_pos(j);
    lemma_pow2_adds((k - j) as nat, j);
    lemma_pow2_adds((k - j + 1) as nat, j);
    vstd::arithmetic::div_mod::lemma_fundamental_div_mod(m, p);
    let lo = pow2((k - j) as nat) as int;
    let hi = pow2((k - j + 1) as nat) as int;
    assert(lo <= t < hi) by (nonlinear_arith)
        requires
            lo * p <= m < hi * p,
            m == p * t + m % p,
            0 <= m % p < p,
    ;
    assert(p * t == t * p) by (nonlinear_arith);
}

/// What the conversion of a `u32` means in contracts.
impl vstd::std_specs::convert::FromSpecImpl<u32> for ArbitraryFixed {
    open spec fn obeys_from_spec() -> bool {
        true
    }

    open spec fn from_spec(n: u32) -> ArbitraryFixed {
        ArbitraryFixed::of_value(integer_value(n as int))
    }
}

impl From<u32> for ArbitraryFixed {
    /// The value of a whole number: the integer goes into the top word.
    /// From `2^31` on the sign bit is set and the value is negative.
    fn from(n: u32) -> (r: ArbitraryFixed)
        ensures
            r@ == integer_value(n as int),
    {
        let mut r = ArbitraryFixed { data: [0u32; SIZE] };
        r.data[SIZE - 1] = n;
        proof {
            lemma_raw_words(r);
            lemma_of_value(integer_value(n as int));
            lemma_wrap_residue(n * unit());
            lemma_view_injective(r, ArbitraryFixed::of_value(integer_value(n as int)));
        }
        r
    }
}

/// What the conversion of an `i128` means in contracts.
impl vstd::std_specs::convert::FromSpecImpl<i128> for ArbitraryFixed {
    open spec fn obeys_from_spec() -> bool {
        true
    }

    open spec fn from_spec(n: i128) -> ArbitraryFixed {
        ArbitraryFixed::of_value(integer_value(n as int))
    }
}

impl From<i128> for ArbitraryFixed {
    /// The value of a signed whole number: its low 32 bits go into the top
    /// word, the rest is lost.
    fn from(n: i128) -> (r: ArbitraryFixed)
        ensures
            r@ == integer_value(n as int),
    {
        let top = #[verifier::truncate]
        (n as u32);
        let high = n >> 32;
        assert(n == high * 0x1_0000_0000 + top) by (bit_vector)
            requires
                top == n as u32,
                high == n >> 32,
        ;
        let mut r = ArbitraryFixed { data: [0u32; SIZE] };
        r.data[SIZE - 1] = top;
        proof {
            lemma_raw_words(r);
            lemma_wrap_multiple(top * unit(), high as int);
            lemma_of_value(integer_value(n as int));
            lemma_wrap_residue(n * unit());
            lemma_view_injective(r, ArbitraryFixed::of_value(integer_value(n as int)));
        }
        r
    }
}

/// The low two words of a value as one number.
fn low_words(a: &ArbitraryFixed) -> (t: u64)
    ensures
        t == a.data[0] + a.data[1] * 0x1_0000_0000,
{
    a.data[0] as u64 + (a.data[1] as u64) * 0x1_0000_0000
}

/// The significand of `p + 1` bits of the float nearest to a positive
/// value whose highest set bit is `k`.
fn rounded_significand(mag: &ArbitraryFixed, k: usize, p: usize) -> (sig: u64)
    requires
        p == 23 || p == 52,
        mag@ > 0,
        k == msb_of(mag@),
    ensures
        sig == float_significand(mag@, k as int, p as int),
        pow2(p as nat) <= sig <= pow2((p + 1) as nat),
{
    let ghost m = mag@;
    proof {
        lemma_raw_words(*mag);
        lemma2_to64();
        lemma2_to64_rest();
        lemma_pow2_landmarks();
        lemma_msb_bounds(m);
        lemma_msb_unique(m, k as nat);
    }
    if k > p {
        let wide = mag.rshift(k - p - 1);
        let back = wide.lshift(k - p - 1);
        proof {
            let d = pow2((k - p - 1) as nat) as int;
            lemma_shifted_bounds(m, k as nat, (k - p - 1) as nat);
            lemma_raw_words(wide);
            lemma_raw_words(back);
            lemma_pow2_adds((k - p - 1) as nat, 1);
            assert(pow2((k - p) as nat) == 2 * d);
            assert(wide@ == m / d);
            lemma_wrap_multiple((m / d) * d, 0);
            assert(back@ == (m / d) * d);
            lemma_round_split(m, d, m / d, m % d);
        }
        let t = low_words(&wide);
        let sticky = back != *mag;
        if t % 2 == 1 && (sticky || (t / 2) % 2 == 1) {
            t / 2 + 1
        } else {
            t / 2
        }
    } else {
        let exact = mag.lshift(p - k);
        proof {
            let d = pow2((p - k) as nat) as int;
            lemma_pow2_adds(k as nat, (p - k) as nat);
            lemma_pow2_adds((k + 1) as nat, (p - k) as nat);
            lemma_pow2_pos((p - k) as nat);
            lemma_pow2_unfold((p + 1) as nat);
            let lo = pow2(k as nat) as int;
            let hi = pow2((k + 1) as nat) as int;
            assert(lo * d <= m * d < hi * d) by (nonlinear_arith)
                requires
                    lo <= m < hi,
                    d > 0,
            ;
            lemma_wrap_multiple(m * d, 0);
            lemma_raw_words(exact);
        }
        low_words(&exact)
    }
}

impl ArbitraryFixed {
    /// The bits of the single-precision float nearest to the value, ties
    /// going to the even significand.
    pub fn to_f32_bits(&self) -> (bits: u32)
        ensures
            bits == f32_bits_of(self@),
    {
        let negative = self.is_negative();
        let mag = self.abs();
        proof {
            lemma_raw_words(*self);
            lemma_raw_words(mag);
            lemma2_to64();
            lemma_pow2_landmarks();
            lemma_pow2_adds(96, 8);
        }
        if mag.is_negative() {
            proof {
                lemma_msb_unique(magnitude(self@), 127);
                assert(magnitude(self@) == 0x80_0000 * pow2(104));
                vstd::arithmetic::div_mod::lemma_fundamental_div_mod_converse(
                    magnitude(self@),
                    pow2(104) as int,
                    0x80_0000,
                    0,
                );
            }
            return 0xcf00_0000;
        }
        let msb = mag.msb();
        if msb == -1 {
            return 0;
        }
        let k = msb as usize;
        let significand = rounded_significand(&mag, k, 23) as u32;
        let sign: u32 = if negative {
            0x8000_0000
        } else {
            0
        };
        sign + (k as u32 + 31) * 0x80_0000 + (significand - 0x80_0000)
    }

    /// The bits of the double-precision float nearest to the value, ties
    /// going to the even significand.
    pub fn to_f64_bits(&self) -> (bits: u64)
        ensures
            bits == f64_bits_of(self@),
    {
        let negative = self.is_negative();
        let mag = self.abs();
        proof {
            lemma_raw_words(*self);
            lemma_raw_words(mag);
            lemma2_to64();
            lemma2_to64_rest();
            lemma_pow2_landmarks();
            lemma_pow2_adds(64, 11);
            lemma_pow2_adds(75, 52);
        }
        if mag.is_negative() {
            proof {
                lemma_msb_unique(magnitude(self@), 127);
                assert(magnitude(self@) == 0x10_0000_0000_0000 * pow2(75));
                vstd::arithmetic::div_mod::lemma_fundamental_div_mod_converse(
                    magnitude(self@),
                    pow2(75) as int,
                    0x10_0000_0000_0000,
                    0,
                );
            }
            return 0xc1e0_0000_0000_0000;
        }
        let msb = mag.msb();
        if msb == -1 {
            return 0;
        }
        let k = msb as usize;
        let significand = rounded_significand(&mag, k, 52);
        let sign: u64 = if negative {
            0x8000_0000_0000_0000
        } else {
            0
        };
        sign + (k as u64 + 927) * 0x10_0000_0000_0000 + (significand - 0x10_0000_0000_0000)
    }

    /// What a parsed integer becomes: its value, or the failure as it is.
    pub fn from_parsed(parsed: Result<i128, ParseError>) -> (ret: Result<
        ArbitraryFixed,
        ParseError,
    >)
        ensures
            matches_value(ret, parsed_value(parsed)),
    {
        match parsed {
            Ok(n) => Ok(ArbitraryFixed::from(n)),
            Err(e) => Err(e),
        }
    }

    /// The value of a whole number written in a radix from 2 to 36, with
    /// an optional sign. Any other radix is refused; what the parser
    /// refuses is refused with its reason.
    pub fn from_str_radix(text: &str, radix: u32) -> (ret: Result<ArbitraryFixed, ParseError>)
        ensures
            !(2 <= radix <= 36) ==> ret == Err::<ArbitraryFixed, ParseError>(
                ParseError::InvalidRadix,
            ),
            2 <= radix <= 36 ==> matches_value(ret, parsed_value(radix_parse(text@, radix))),
    {
        if radix < 2 || radix > 36 {
            return Err(ParseError::InvalidRadix);
        }
        ArbitraryFixed::from_parsed(parse_i128(text, radix))
    }

    /// The value of the single-precision float with these bits, rounded
    /// toward zero where the float is finer than a value.
    pub fn from_f32_bits(bits: u32) -> (r: ArbitraryFixed)
        ensures
            r@ == f32_value(bits),
    {
        let negative = bits >= 0x8000_0000;
        let exponent = (bits / 0x80_0000) % 0x100;
        let fraction = bits % 0x80_0000;
        if exponent == 0 {
            return ArbitraryFixed::zero();
        }
        let mut significand = ArbitraryFixed { data: [0u32; SIZE] };
        significand.data[0] = fraction + 0x80_0000;
        proof {
            lemma_raw_words(significand);
        }
        let placed = if exponent < 54 {
            significand.rshift((54 - exponent) as usize)
        } else {
            significand.lshift((exponent - 54) as usize)
        };
        if negative {
            placed.neg()
        } else {
            placed
        }
    }

    /// The value of the double-precision float with these bits, rounded
    /// toward zero where the float is finer than a value.
    pub fn from_f64_bits(bits: u64) -> (r: ArbitraryFixed)
        ensures
            r@ == f64_value(bits),
    {
        let negative = bits >= 0x8000_0000_0000_0000;
        let exponent = (bits / 0x10_0000_0000_0000) % 0x800;
        let fraction = bits % 0x10_0000_0000_0000;
        if exponent == 0 {
            return ArbitraryFixed::zero();
        }
        let whole = fraction + 0x10_0000_0000_0000;
        let mut significand = ArbitraryFixed { data: [0u32; SIZE] };
        significand.data[0] = (whole % 0x1_0000_0000) as u32;
        significand.data[1] = (whole / 0x1_0000_0000) as u32;
        proof {
            lemma_raw_words(significand);
        }
        let placed = if exponent < 979 {
            significand.rshift((979 - exponent) as usize)
        } else {
            significand.lshift((exponent - 979) as usize)
        };
        if negative {
            placed.neg()
        } else {
            placed
        }
    }
}

} // verus!
