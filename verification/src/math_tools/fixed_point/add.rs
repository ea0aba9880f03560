use vstd::prelude::*;
use crate::constants::math_tools_constants::{NEGATIVE, POSITIVE};
use crate::errors::ArithmeticError;
use crate::math_tools::fixed_point::fixed_point::{
    FixedPoint,
    fraction_units,
    is_scale,
    magnitude_of,
    representable,
    unit,
};

verus! {

impl FixedPoint {
    /// What [`add`](FixedPoint::add) returns: the canonical number whose view
    /// is the sum of the two views, where that sum can be held.
    pub open spec fn sum_of(a: FixedPoint, b: FixedPoint) -> Result<FixedPoint, ArithmeticError> {
        if representable(a@ + b@) {
            Ok(Self::canonical(a@ + b@))
        } else {
            Err(ArithmeticError::AdditionOverflow)
        }
    }

    /// The view of a number is its raw value in units of `10^-15`, and the
    /// whole part of the raw value fits an `i64`.
    pub proof fn lemma_raw_value(a: FixedPoint)
        requires
            a.well_formed(),
        ensures
            a@ == a.raw_value() * unit(a.scale as int),
            a.magnitude() == magnitude_of(a.raw_value()) * unit(a.scale as int),
            a.magnitude() == magnitude_of(a@),
            magnitude_of(a.raw_value()) == a.integer * a.scale + a.decimal,
            magnitude_of(a.raw_value()) < 0x8000_0000_0000_0000 * a.scale,
            magnitude_of(a.raw_value()) < 9_223_372_036_854_775_808_000_000_000_000_000,
            representable(a@),
    {
        let scale = a.scale as int;
        let whole = a.integer as int;
        let one = unit(scale);
        let raw = whole * scale + a.decimal;
        Self::lemma_fraction_units_is_product(a.decimal as int, scale);
        assert(raw * one == whole * 1_000_000_000_000_000 + a.decimal * one) by (nonlinear_arith)
            requires
                one * scale == 1_000_000_000_000_000,
                raw == whole * scale + a.decimal,
        ;
        assert(0 <= raw < 0x8000_0000_0000_0000 * scale) by (nonlinear_arith)
            requires
                0 <= whole < 0x8000_0000_0000_0000,
                0 <= a.decimal < scale,
                raw == whole * scale + a.decimal,
        ;
        assert((-raw) * one == -(raw * one)) by (nonlinear_arith);
        assert(0 <= raw * one) by (nonlinear_arith)
            requires
                0 <= raw,
                1 <= one,
        ;
        assert(raw * one < 9_223_372_036_854_775_808_000_000_000_000_000) by (nonlinear_arith)
            requires
                0 <= raw < 0x8000_0000_0000_0000 * scale,
                one * scale == 1_000_000_000_000_000,
                1 <= one,
        ;
    }

    /// A count of units of `1 / scale` can be held exactly when its whole part
    /// fits an `i64`, and splitting it into whole part and fraction keeps it.
    pub proof fn lemma_split_raw(raw: int, scale: int)
        requires
            is_scale(scale),
            0 <= raw,
        ensures
            representable(raw * unit(scale)) <==> raw / scale <= i64::MAX,
            raw * unit(scale) == (raw / scale) * 1_000_000_000_000_000 + fraction_units(
                raw % scale,
                scale,
            ),
            0 <= raw % scale < scale,
            0 <= raw / scale,
    {
        let one = unit(scale);
        let q = raw / scale;
        let r = raw % scale;
        Self::lemma_fraction_units_is_product(r, scale);
        vstd::arithmetic::div_mod::lemma_fundamental_div_mod(raw, scale);
        vstd::arithmetic::div_mod::lemma_div_pos_is_pos(raw, scale);
        assert(raw * one == q * 1_000_000_000_000_000 + r * one) by (nonlinear_arith)
            requires
                raw == scale * q + r,
                one * scale == 1_000_000_000_000_000,
        ;
        assert(0 <= r * one < 1_000_000_000_000_000) by (nonlinear_arith)
            requires
                0 <= r < scale,
                one * scale == 1_000_000_000_000_000,
                1 <= one,
        ;
    }

    /// The sum of two numbers, written canonically.
    ///
    /// Both are first written at the larger of their scales; their raw values
    /// are added; the sum is split into whole part and fraction again. The
    /// sum fails where its whole part does not fit an `i64`.
    pub fn add(&self, rhs: &FixedPoint) -> (r: Result<FixedPoint, ArithmeticError>)
        requires
            self.well_formed(),
            rhs.well_formed(),
        ensures
            r == Self::sum_of(*self, *rhs),
            r matches Ok(sum) ==> sum.is_normalized() && sum@ == self@ + rhs@,
    {
        let (self_scaled, rhs_scaled): (FixedPoint, FixedPoint) = Self::scale_to_match(self, rhs);
        proof {
            Self::lemma_raw_value(self_scaled);
            Self::lemma_raw_value(rhs_scaled);
        }
        let a: i128 = self_scaled.to_raw_value();
        let b: i128 = rhs_scaled.to_raw_value();
        let result: i128 = a + b;
        let scale: i128 = self_scaled.scale as i128;
        let magnitude: i128 = if result < 0 { -result } else { result };
        proof {
            Self::lemma_split_raw(magnitude as int, scale as int);
            Self::lemma_fraction_units_is_product(1, scale as int);
            let one = unit(scale as int);
            assert(result * one == a * one + b * one) by (nonlinear_arith)
                requires
                    result == a + b,
            ;
            assert((-result) * one == -(result * one)) by (nonlinear_arith);
            assert(result < 0 ==> result * one < 0) by (nonlinear_arith)
                requires
                    1 <= one,
            ;
            assert(result >= 0 ==> result * one >= 0) by (nonlinear_arith)
                requires
                    1 <= one,
            ;
        }
        if magnitude / scale > i64::MAX as i128 {
            return Err(ArithmeticError::AdditionOverflow);
        }
        let mut sum = FixedPoint {
            integer: (magnitude / scale) as i64,
            decimal: (magnitude % scale) as i64,
            sign: if result < 0 { NEGATIVE } else { POSITIVE },
            scale: self_scaled.scale,
        };
        sum.scale_to_fit();
        proof {
            Self::lemma_canonical(sum);
        }
        Ok(sum)
    }
}

} // verus!
