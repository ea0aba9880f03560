use std::cmp::Ordering;
use vstd::prelude::*;
use vstd::std_specs::cmp::PartialEqSpecImpl;
use crate::math_tools::fixed_point::fixed_point::{FixedPoint, magnitude_of};

verus! {

/// `==` compares two numbers by their distance from zero: both are brought to
/// one scale, then whole part is held against whole part and fraction against
/// fraction. The sign takes no part in it, so a number equals its negation.
/// [`FixedPoint::compare`] tells the two apart.
impl PartialEq for FixedPoint {
    fn eq(&self, other: &Self) -> (r: bool) {
        self.magnitude_units() == other.magnitude_units()
    }
}

impl PartialEqSpecImpl for FixedPoint {
    open spec fn obeys_eq_spec() -> bool {
        true
    }

    open spec fn eq_spec(&self, other: &Self) -> bool {
        self.magnitude() == other.magnitude()
    }
}

impl FixedPoint {
    /// Orders two numbers as numbers: a negative one lies below zero and below
    /// every positive one, and two of one sign are ordered by their distance
    /// from zero.
    pub fn compare(&self, other: &FixedPoint) -> (r: Ordering)
        ensures
            self@ < other@ ==> r == Ordering::Less,
            self@ == other@ ==> r == Ordering::Equal,
            self@ > other@ ==> r == Ordering::Greater,
    {
        let left: i128 = self.to_units();
        let right: i128 = other.to_units();
        if left < right {
            Ordering::Less
        } else if left > right {
            Ordering::Greater
        } else {
            Ordering::Equal
        }
    }

    /// Whether two numbers differ by no more than `tolerance`.
    pub fn approx_eq(&self, other: &FixedPoint, tolerance: &FixedPoint) -> (r: bool)
        ensures
            r == (magnitude_of(self@ - other@) <= tolerance@),
    {
        let difference: i128 = self.to_units() - other.to_units();
        let distance: i128 = if difference < 0 { -difference } else { difference };
        distance <= tolerance.to_units()
    }
}

} // verus!
