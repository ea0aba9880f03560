use vstd::prelude::*;
use crate::constants::math_tools_constants::{MAX_VALUE, NEGATIVE, POSITIVE};
use crate::math_tools::fixed_point::fixed_point::{
    FixedPoint,
    fraction_units,
    is_scale,
    magnitude_of,
    representable,
    unit,
};

verus! {

/// What `decimal` units of `1 / scale` are worth in units of `10^-15`.
fn fraction_to_units(decimal: i128, scale: i64) -> (r: i128)
    requires
        0 <= decimal <= 0x8000_0000_0000_0000,
    ensures
        r == fraction_units(decimal as int, scale as int),
{
    reveal(fraction_units);
    if scale == 1 {
        decimal * 1_000_000_000_000_000
    } else if scale == 10 {
        decimal * 100_000_000_000_000
    } else if scale == 100 {
        decimal * 10_000_000_000_000
    } else if scale == 1_000 {
        decimal * 1_000_000_000_000
    } else if scale == 10_000 {
        decimal * 100_000_000_000
    } else if scale == 100_000 {
        decimal * 10_000_000_000
    } else if scale == 1_000_000 {
        decimal * 1_000_000_000
    } else if scale == 10_000_000 {
        decimal * 100_000_000
    } else if scale == 100_000_000 {
        decimal * 10_000_000
    } else if scale == 1_000_000_000 {
        decimal * 1_000_000
    } else if scale == 10_000_000_000 {
        decimal * 100_000
    } else if scale == 100_000_000_000 {
        decimal * 10_000
    } else if scale == 1_000_000_000_000 {
        decimal * 1_000
    } else if scale == 10_000_000_000_000 {
        decimal * 100
    } else if scale == 100_000_000_000_000 {
        decimal * 10
    } else if scale == 1_000_000_000_000_000 {
        decimal * 1
    } else {
        0
    }
}

impl FixedPoint {
    /// The number with `scale` in place of its own: the same number written
    /// with more digits, where `scale` is no smaller than its own.
    pub open spec fn rescaled(self, scale: int) -> FixedPoint {
        FixedPoint {
            integer: self.integer,
            decimal: (self.decimal * (scale / (self.scale as int))) as i64,
            sign: self.sign,
            scale: scale as i64,
        }
    }

    /// Two numbers written at the larger of their two scales.
    pub open spec fn matched(a: FixedPoint, b: FixedPoint) -> (FixedPoint, FixedPoint) {
        let scale = if a.scale < b.scale {
            b.scale
        } else {
            a.scale
        };
        (a.rescaled(scale as int), b.rescaled(scale as int))
    }

    /// Writing a number at a larger scale multiplies its fraction by the ratio
    /// of the scales, which is a whole number, and keeps the number.
    pub proof fn lemma_rescaled(a: FixedPoint, scale: int)
        requires
            a.well_formed(),
            is_scale(scale),
            a.scale <= scale,
        ensures
            a.rescaled(scale).well_formed(),
            a.rescaled(scale)@ == a@,
            a.rescaled(scale).magnitude() == a.magnitude(),
            a.rescaled(scale).scale == scale,
            a.rescaled(scale).decimal == a.decimal * (scale / (a.scale as int)),
            is_scale(scale / (a.scale as int)),
            (scale / (a.scale as int)) * a.scale == scale,
            a.scale == scale ==> a.rescaled(scale) == a,
    {
        let own = a.scale as int;
        let ratio = scale / own;
        assert(is_scale(ratio) && ratio * own == scale) by {
            Self::lemma_scale_ratio(own, scale);
        }
        assert(0 <= a.decimal * ratio < scale) by (nonlinear_arith)
            requires
                0 <= a.decimal < own,
                ratio * own == scale,
                ratio > 0,
        ;
        assert(fraction_units(a.decimal * ratio, scale) == fraction_units(a.decimal as int, own))
            by {
            Self::lemma_fraction_units_ratio(a.decimal as int, own, scale);
        }
    }

    /// The ratio of a scale to a smaller one is a scale.
    pub proof fn lemma_scale_ratio(small: int, large: int)
        requires
            is_scale(small),
            is_scale(large),
            small <= large,
        ensures
            is_scale(large / small),
            (large / small) * small == large,
            small == large ==> large / small == 1,
    {
        if small == 1 {
            assert(large / small == large / 1);
        } else if small == 10 {
            assert(large / small == large / 10);
        } else if small == 100 {
            assert(large / small == large / 100);
        } else if small == 1_000 {
            assert(large / small == large / 1_000);
        } else if small == 10_000 {
            assert(large / small == large / 10_000);
        } else if small == 100_000 {
            assert(large / small == large / 100_000);
        } else if small == 1_000_000 {
            assert(large / small == large / 1_000_000);
        } else if small == 10_000_000 {
            assert(large / small == large / 10_000_000);
        } else if small == 100_000_000 {
            assert(large / small == large / 100_000_000);
        } else if small == 1_000_000_000 {
            assert(large / small == large / 1_000_000_000);
        } else if small == 10_000_000_000 {
            assert(large / small == large / 10_000_000_000);
        } else if small == 100_000_000_000 {
            assert(large / small == large / 100_000_000_000);
        } else if small == 1_000_000_000_000 {
            assert(large / small == large / 1_000_000_000_000);
        } else if small == 10_000_000_000_000 {
            assert(large / small == large / 10_000_000_000_000);
        } else if small == 100_000_000_000_000 {
            assert(large / small == large / 100_000_000_000_000);
        } else {
            assert(large / small == large / 1_000_000_000_000_000);
        }
    }

    /// A fraction is worth the same at a larger scale once it is multiplied by
    /// the ratio of the scales.
    pub proof fn lemma_fraction_units_ratio(decimal: int, small: int, large: int)
        requires
            is_scale(small),
            is_scale(large),
            small <= large,
        ensures
            fraction_units(decimal * (large / small), large) == fraction_units(decimal, small),
    {
        Self::lemma_scale_ratio(small, large);
        let ratio = large / small;
        Self::lemma_fraction_units_is_product(decimal * ratio, large);
        Self::lemma_fraction_units_is_product(decimal, small);
        let ul = unit(large);
        let us = unit(small);
        assert(us == ratio * ul) by (nonlinear_arith)
            requires
                ul * large == us * small,
                ratio * small == large,
                small > 0,
        ;
        assert((decimal * ratio) * ul == decimal * us) by (nonlinear_arith)
            requires
                us == ratio * ul,
        ;
    }

    /// Writes two numbers at the larger of their two scales, so that their
    /// whole parts and fractions can be compared or combined.
    pub fn scale_to_match(a: &FixedPoint, b: &FixedPoint) -> (r: (FixedPoint, FixedPoint))
        requires
            a.well_formed(),
            b.well_formed(),
        ensures
            r == Self::matched(*a, *b),
            r.0.well_formed(),
            r.1.well_formed(),
            r.0.scale == r.1.scale,
            r.0.scale == a.scale || r.0.scale == b.scale,
            r.0.scale >= a.scale,
            r.0.scale >= b.scale,
            r.0@ == a@,
            r.1@ == b@,
    {
        proof {
            if a.scale <= b.scale {
                Self::lemma_rescaled(*a, b.scale as int);
                Self::lemma_rescaled(*b, b.scale as int);
            } else {
                Self::lemma_rescaled(*a, a.scale as int);
                Self::lemma_rescaled(*b, a.scale as int);
            }
        }
        if a.scale == b.scale {
            (*a, *b)
        } else if a.scale < b.scale {
            let scale_factor: i64 = b.scale / a.scale;
            (
                FixedPoint {
                    integer: a.integer,
                    decimal: a.decimal * scale_factor,
                    sign: a.sign,
                    scale: b.scale,
                },
                *b,
            )
        } else {
            let scale_factor: i64 = a.scale / b.scale;
            (
                *a,
                FixedPoint {
                    integer: b.integer,
                    decimal: b.decimal * scale_factor,
                    sign: b.sign,
                    scale: a.scale,
                },
            )
        }
    }

    /// Moves a minus on the whole part or on the fraction into the sign, then
    /// writes the number canonically.
    pub fn scale_to_fit(&mut self)
        requires
            old(self).integer > i64::MIN,
            is_scale(old(self).scale as int),
            -old(self).scale < old(self).decimal < old(self).scale,
        ensures
            final(self).is_normalized(),
            final(self)@ == old(self)@,
    {
        if self.decimal < 0 || self.integer < 0 || self.sign < 0 {
            self.sign = NEGATIVE;
        } else {
            self.sign = POSITIVE;
        }
        let integer: i64 = self.integer;
        let decimal: i64 = self.decimal;
        self.integer = if integer < 0 { -integer } else { integer };
        self.decimal = if decimal < 0 { -decimal } else { decimal };
        self.trim_ending_zeros();
        if self.integer == 0 && self.decimal == 0 {
            self.sign = POSITIVE;
        }
        proof {
            reveal(fraction_units);
        }
    }

    /// The number without its sign.
    pub fn abs(&self) -> (r: FixedPoint)
        requires
            self.well_formed(),
        ensures
            r@ == magnitude_of(self@),
            r == (FixedPoint { sign: POSITIVE, ..*self }),
            r.well_formed(),
            self.is_normalized() ==> r.is_normalized(),
    {
        proof {
            reveal(fraction_units);
        }
        if self.sign == NEGATIVE {
            FixedPoint { sign: POSITIVE, ..*self }
        } else {
            *self
        }
    }

    /// The number with the other sign; zero stays positive.
    pub fn negate(&self) -> (r: FixedPoint)
        requires
            self.well_formed(),
        ensures
            r@ == -self@,
            r.integer == self.integer,
            r.decimal == self.decimal,
            r.scale == self.scale,
            r.well_formed(),
            self.is_normalized() ==> r.is_normalized(),
            self.is_normalized() ==> r == Self::canonical(-self@),
    {
        let r = FixedPoint {
            sign: if self.sign == POSITIVE && (self.integer != 0 || self.decimal != 0) {
                NEGATIVE
            } else {
                POSITIVE
            },
            ..*self
        };
        proof {
            reveal(fraction_units);
            if self.is_normalized() {
                Self::lemma_canonical(r);
            }
        }
        r
    }

    /// The signed count of units of `1 / scale` that the fields hold:
    /// `integer * scale + decimal`, with a minus where the sign is negative.
    pub open spec fn raw_value(&self) -> int {
        if self.sign < 0 {
            -(self.integer * self.scale + self.decimal)
        } else {
            self.integer * self.scale + self.decimal
        }
    }

    /// Computes [`raw_value`](FixedPoint::raw_value).
    pub fn to_raw_value(&self) -> (r: i128)
        ensures
            r == self.raw_value(),
    {
        let sign_multiplier: i128 = if self.sign < 0 { -1 } else { 1 };
        assert(-0x4000_0000_0000_0000_0000_0000_0000_0000 <= self.integer * self.scale
            <= 0x4000_0000_0000_0000_0000_0000_0000_0000) by (nonlinear_arith)
            requires
                -0x8000_0000_0000_0000 <= self.integer <= 0x8000_0000_0000_0000,
                -0x8000_0000_0000_0000 <= self.scale <= 0x8000_0000_0000_0000,
        ;
        let combined_value: i128 = (self.integer as i128 * self.scale as i128) + (
        self.decimal as i128);
        combined_value * sign_multiplier
    }

    /// The view as a machine integer: the number in units of `10^-15`.
    pub fn to_units(&self) -> (r: i128)
        ensures
            r == self@,
            -18_446_744_073_709_551_616_000_000_000_000_000 <= r
                <= 18_446_744_073_709_551_616_000_000_000_000_000,
    {
        let magnitude: i128 = self.magnitude_units();
        if self.integer < 0 || self.decimal < 0 || self.sign < 0 {
            -magnitude
        } else {
            magnitude
        }
    }

    /// The distance of the number from zero in units of `10^-15`.
    pub fn magnitude_units(&self) -> (r: i128)
        ensures
            r == self.magnitude(),
            0 <= r <= 18_446_744_073_709_551_616_000_000_000_000_000,
    {
        let integer: i128 = if self.integer < 0 {
            -(self.integer as i128)
        } else {
            self.integer as i128
        };
        let decimal: i128 = if self.decimal < 0 {
            -(self.decimal as i128)
        } else {
            self.decimal as i128
        };
        proof {
            reveal(fraction_units);
        }
        integer * 1_000_000_000_000_000 + fraction_to_units(decimal, self.scale)
    }

    /// The canonical number that is `units` units of `10^-15`.
    pub fn from_units(units: i128) -> (r: FixedPoint)
        requires
            representable(units as int),
        ensures
            r.is_normalized(),
            r@ == units,
            r == Self::canonical(units as int),
    {
        let magnitude: i128 = if units < 0 { -units } else { units };
        let mut r = FixedPoint {
            integer: (magnitude / 1_000_000_000_000_000) as i64,
            decimal: (magnitude % 1_000_000_000_000_000) as i64,
            sign: if units < 0 { NEGATIVE } else { POSITIVE },
            scale: 1_000_000_000_000_000,
        };
        proof {
            reveal(fraction_units);
        }
        r.scale_to_fit();
        proof {
            Self::lemma_canonical(r);
        }
        r
    }

    /// Whether the raw value `integer * scale + decimal` lies within
    /// [`MAX_VALUE`] of zero.
    pub fn is_finite(&self) -> (r: bool)
        ensures
            r == (magnitude_of(self.integer * self.scale + self.decimal) <= MAX_VALUE),
    {
        assert(-0x4000_0000_0000_0000_0000_0000_0000_0000 <= self.integer * self.scale
            <= 0x4000_0000_0000_0000_0000_0000_0000_0000) by (nonlinear_arith)
            requires
                -0x8000_0000_0000_0000 <= self.integer <= 0x8000_0000_0000_0000,
                -0x8000_0000_0000_0000 <= self.scale <= 0x8000_0000_0000_0000,
        ;
        let value: i128 = self.integer as i128 * self.scale as i128 + self.decimal as i128;
        let distance: i128 = if value < 0 { -value } else { value };
        distance <= MAX_VALUE as i128
    }

    /// Drops the trailing zero digits of the fraction and shrinks the scale
    /// with them; a fraction of zero ends at scale `1`. The whole part and the
    /// sign stay, and so does the number.
    pub fn trim_ending_zeros(&mut self)
        requires
            is_scale(old(self).scale as int),
            0 <= old(self).decimal < old(self).scale,
        ensures
            final(self).integer == old(self).integer,
            final(self).sign == old(self).sign,
            (final(self).decimal as int, final(self).scale as int) == Self::stripped(
                old(self).decimal as int,
                old(self).scale as int,
            ),
            is_scale(final(self).scale as int),
            0 <= final(self).decimal < final(self).scale,
            final(self).scale == 1 || final(self).decimal % 10 != 0,
            final(self)@ == old(self)@,
    {
        proof {
            Self::lemma_stripped(self.decimal as int, self.scale as int);
        }
        while self.scale > 1 && self.decimal % 10 == 0
            invariant
                is_scale(self.scale as int),
                0 <= self.decimal < self.scale,
                self.integer == old(self).integer,
                self.sign == old(self).sign,
                Self::stripped(self.decimal as int, self.scale as int) == Self::stripped(
                    old(self).decimal as int,
                    old(self).scale as int,
                ),
            decreases self.scale,
        {
            self.decimal = self.decimal / 10;
            self.scale = self.scale / 10;
        }
    }
}

} // verus!
