use vstd::prelude::*;
use crate::errors::ArithmeticError;
use crate::math_tools::fixed_point::fixed_point::{FixedPoint, representable};

verus! {

impl FixedPoint {
    /// What [`subtract`](FixedPoint::subtract) returns: the canonical number
    /// whose view is the difference of the two views, where that difference
    /// can be held.
    pub open spec fn difference_of(a: FixedPoint, b: FixedPoint) -> Result<
        FixedPoint,
        ArithmeticError,
    > {
        if representable(a@ - b@) {
            Ok(Self::canonical(a@ - b@))
        } else {
            Err(ArithmeticError::AdditionOverflow)
        }
    }

    /// The difference of two numbers, written canonically: the sum of the
    /// first and the negation of the second.
    pub fn subtract(&self, rhs: &FixedPoint) -> (r: Result<FixedPoint, ArithmeticError>)
        requires
            self.well_formed(),
            rhs.well_formed(),
        ensures
            r == Self::difference_of(*self, *rhs),
            r matches Ok(difference) ==> difference.is_normalized() && difference@ == self@ - rhs@,
    {
        let other: FixedPoint = rhs.negate();
        self.add(&other)
    }
}

} // verus!
