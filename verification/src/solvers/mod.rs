//! One solver for each degree that can be solved.
pub mod linear;
pub mod quadratic;
