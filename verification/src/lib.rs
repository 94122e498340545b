//! Signed fixed-point numbers of 128 bits, held as four 32-bit words.
//!
//! A value stores a two's-complement integer `v`; the number it stands
//! for is `v / 2^96`. Every operation is a pure function whose contract is
//! stated over that stored integer, the view `@` of the value.

use vstd::prelude::*;

pub mod accuracy;
pub mod basic_ops;
pub mod constants;
pub mod conversion;
pub mod identities;
pub mod math;
pub mod model;
pub mod ordering;
pub mod representation;
pub mod root_accuracy;
pub mod shift;
pub mod text;
mod words;

verus! {

/// Number of 32-bit words in a value.
pub const SIZE: usize = 4;

/// Number of fractional bits: all words but the most significant one.
pub const SCALING_FACTOR: usize = (SIZE - 1) * 32;

/// Number of words in the full product of two values.
pub const DOUBLE_SIZE: usize = SIZE * 2;

/// A fixed-point number: `SIZE` words, least significant first, read as a
/// two's-complement integer scaled by `2^SCALING_FACTOR`.
#[derive(Copy, Clone, Debug)]
pub struct ArbitraryFixed {
    pub data: [u32; SIZE],
}

/// Why an arithmetic operation gave no value.
#[derive(Copy, Clone, Debug, PartialEq, Eq)]
pub enum ArithmeticError {
    /// The divisor was exactly zero.
    DivisionByZero,
}

/// Why a text gave no value.
#[derive(Copy, Clone, Debug, PartialEq, Eq)]
pub enum ParseError {
    /// The text was empty.
    Empty,
    /// The text held a character that is no digit of the radix, or a sign
    /// with no digit after it.
    InvalidDigit,
    /// The number was too large for the parser.
    PosOverflow,
    /// The number was too small for the parser.
    NegOverflow,
    /// The radix was below 2 or above 36.
    InvalidRadix,
    /// The parser failed in a way that has no name here.
    Other,
}

} // verus!
