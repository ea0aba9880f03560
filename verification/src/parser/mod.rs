//! From the text of an equation to its coefficients.
pub mod grammar;
pub mod input_parser;
pub mod tools;

pub use crate::parser::input_parser::parse_input;
