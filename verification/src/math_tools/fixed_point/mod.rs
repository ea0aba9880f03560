//! The decimal number type, one file for each group of operations.
pub mod add;
pub mod comparison;
pub mod div;
pub mod fixed_point;
pub mod formatting;
pub mod laws;
pub mod mul;
pub mod sub;
pub mod utilities;
