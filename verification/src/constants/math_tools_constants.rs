use vstd::prelude::*;

verus! {

/// The largest scale a number may carry: fifteen digits after the point.
pub const MAX_SCALE: i64 = 1_000_000_000_000_000;

/// The bound that [`is_finite`](crate::math_tools::fixed_point::fixed_point::FixedPoint::is_finite)
/// holds a raw value against.
pub const MAX_VALUE: i64 = 1_000_000_000;

/// The sign of a number that is zero or above.
pub const POSITIVE: i64 = 1;

/// The sign of a number below zero.
pub const NEGATIVE: i64 = -1;

/// The smallest step between two guesses of the square root at which the
/// iteration goes on, counted in units of `10^-15`: below it the guess is final.
pub const SQRT_TOLERANCE: i128 = 1;

} // verus!
