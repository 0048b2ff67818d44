//! Arbitrary-precision natural-number arithmetic built from single decimal
//! digits.
//!
//! A [`Natural`] is an ordered sequence of base-10 [`Digit`]s, stored least
//! significant first, interpreted as `sum of digits[i] * 10^i`. Every
//! multi-digit operation (addition, subtraction, multiplication, division,
//! comparison) is defined by the elementary school algorithm, working one
//! digit position at a time and threading an explicit carry or borrow
//! through the positions.
//!
//! Representations are not forced into a canonical form: parsing `"007"`
//! keeps all three digits, and formatting prints them all back, so that
//! parse and format round-trip exactly. Equality and ordering of naturals
//! are therefore defined by numeric value, ignoring leading zero padding,
//! rather than by the raw length of the digit sequences.

pub mod digit;
pub mod error;
pub mod laws;
pub mod natural;
pub mod value;

pub use digit::CarryProduct;
pub use digit::CarrySum;
pub use digit::Digit;
pub use digit::DigitDifference;
pub use error::NaturalError;
pub use natural::Natural;
