//! Numbers and what is computed with them.
pub mod basic;
pub mod fixed_point;
pub mod polynomial;
