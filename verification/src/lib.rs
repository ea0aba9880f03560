//! Exact decimal arithmetic, an equation parser and a solver for polynomial
//! equations of degree two or less.
//!
//! A [`math_tools::fixed_point::fixed_point::FixedPoint`] is a signed decimal
//! number with at most fifteen digits after the point. Every contract in this
//! crate speaks of such a number through its view: the number multiplied by
//! `10^15`, which is always a whole number.
pub mod constants;
pub mod errors;
pub mod math_tools;
pub mod parser;
pub mod solvers;
