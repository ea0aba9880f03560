//! The fixed values the rest of the crate is built on.
pub mod math_tools_constants;
pub mod parsing_constants;
