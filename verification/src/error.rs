use vstd::prelude::*;

verus! {

/// Everything that can go wrong when constructing or combining naturals.
///
/// The digit and natural arithmetic primitives themselves are total; errors
/// only arise from inputs of the wrong shape (text that is not a number,
/// a zero divisor, a subtraction that would go below zero).
#[derive(Clone, Copy, Debug, PartialEq, Eq, Structural)]
pub enum NaturalError {
    /// A character or byte outside `0..=9` was given to the digit parser.
    InvalidDigit,
    /// An empty string was given to the natural-number parser.
    EmptyNumber,
    /// The divisor was zero.
    DivisionByZero,
    /// Subtraction was attempted with a minuend smaller than the subtrahend.
    Underflow,
}

} // verus!
