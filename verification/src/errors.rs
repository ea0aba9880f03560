use vstd::prelude::*;

verus! {

/// Why an arithmetic operation on two numbers gave no result.
#[derive(Clone, Copy, Debug, PartialEq, Eq, Structural)]
pub enum ArithmeticError {
    /// The divisor is zero.
    DivisionByZero,
    /// A partial product, or the sum of all four, does not fit an `i64`.
    MultiplicationOverflow,
    /// The whole part of a sum or of a difference does not fit an `i64`.
    AdditionOverflow,
    /// The whole part of a quotient does not fit an `i64`.
    DivisionOverflow,
}

/// Why a polynomial could not be solved.
#[derive(Clone, Copy, Debug, PartialEq, Eq, Structural)]
pub enum SolveError {
    /// The degree is three or more.
    UnsupportedDegree,
    /// An operation on the coefficients failed.
    Arithmetic(ArithmeticError),
}

/// Why a text is not an equation. The two variants that blame one piece of
/// the text carry that piece.
#[derive(Debug, PartialEq, Eq)]
pub enum ParseError {
    /// Nothing stands left of the equals sign, or there is no text at all.
    EmptyInput,
    /// This text stands where a power of the unknown was expected.
    InvalidPower(Vec<char>),
    /// This text stands where a decimal literal was expected.
    InvalidCoefficient(Vec<char>),
    /// A literal, or a sum of coefficients of one power, is too large to hold.
    CoefficientOverflow,
}

/// What a [`ParseError`] says, with the text it carries as a sequence.
pub enum ParseFailure {
    EmptyInput,
    InvalidPower(Seq<char>),
    InvalidCoefficient(Seq<char>),
    CoefficientOverflow,
}

impl View for ParseError {
    type V = ParseFailure;

    open spec fn view(&self) -> ParseFailure {
        match self {
            ParseError::EmptyInput => ParseFailure::EmptyInput,
            ParseError::InvalidPower(text) => ParseFailure::InvalidPower(text@),
            ParseError::InvalidCoefficient(text) => ParseFailure::InvalidCoefficient(text@),
            ParseError::CoefficientOverflow => ParseFailure::CoefficientOverflow,
        }
    }
}

} // verus!
