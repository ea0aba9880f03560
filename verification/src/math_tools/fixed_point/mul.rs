use vstd::prelude::*;
use crate::constants::math_tools_constants::{NEGATIVE, POSITIVE};
use crate::errors::ArithmeticError;
use crate::math_tools::fixed_point::fixed_point::{FixedPoint, unit};

verus! {

impl FixedPoint {
    /// The product of two distances from zero, counted in units of `1 / scale`
    /// where `scale` is the larger of the two scales, and cut off below one
    /// such unit. With both numbers written at that scale it is the sum of
    /// four partial products: whole part by whole part, whole part by
    /// fraction, fraction by whole part, and fraction by fraction.
    pub open spec fn product_total(a: FixedPoint, b: FixedPoint) -> int {
        let (x, y) = Self::matched(a, b);
        x.integer * y.integer * x.scale + x.integer * y.decimal + x.decimal * y.integer + (x.decimal
            * y.decimal) / (x.scale as int)
    }

    /// One of the four partial products, or their sum, does not fit an `i64`.
    pub open spec fn product_overflows(a: FixedPoint, b: FixedPoint) -> bool {
        let (x, y) = Self::matched(a, b);
        ||| x.integer * y.integer * x.scale > i64::MAX
        ||| x.integer * y.decimal > i64::MAX
        ||| x.decimal * y.integer > i64::MAX
        ||| x.decimal * y.decimal > i64::MAX
        ||| Self::product_total(a, b) > i64::MAX
    }

    /// The view of the product: [`product_total`](FixedPoint::product_total)
    /// in units of `10^-15`, negative where exactly one sign is.
    pub open spec fn product_units(a: FixedPoint, b: FixedPoint) -> int {
        let magnitude = Self::product_total(a, b) * unit(Self::matched(a, b).0.scale as int);
        if (a.sign < 0) != (b.sign < 0) {
            -magnitude
        } else {
            magnitude
        }
    }

    /// What [`multiply`](FixedPoint::multiply) returns.
    pub open spec fn product_of(a: FixedPoint, b: FixedPoint) -> Result<
        FixedPoint,
        ArithmeticError,
    > {
        if Self::product_overflows(a, b) {
            Err(ArithmeticError::MultiplicationOverflow)
        } else {
            Ok(Self::canonical(Self::product_units(a, b)))
        }
    }

    /// The sum of the four partial products is the product of the two raw
    /// values at the common scale, divided by that scale and cut off: the
    /// product of the two distances from zero, cut off below one unit of the
    /// scale.
    pub proof fn lemma_product_total_is_cut_off_product(a: FixedPoint, b: FixedPoint)
        requires
            a.well_formed(),
            b.well_formed(),
        ensures
            ({
                let (x, y) = Self::matched(a, b);
                Self::product_total(a, b) == ((x.integer * x.scale + x.decimal) * (y.integer
                    * y.scale + y.decimal)) / (x.scale as int)
            }),
    {
        let scale = if a.scale < b.scale {
            b.scale as int
        } else {
            a.scale as int
        };
        Self::lemma_rescaled(a, scale);
        Self::lemma_rescaled(b, scale);
        Self::lemma_fraction_units_is_product(1, scale);
        let (x, y) = Self::matched(a, b);
        let xi = x.integer as int;
        let xd = x.decimal as int;
        let yi = y.integer as int;
        let yd = y.decimal as int;
        let low = xd * yd;
        let high = xi * yi * scale + xi * yd + xd * yi;
        vstd::arithmetic::div_mod::lemma_fundamental_div_mod(low, scale);
        assert(0 <= low % scale < scale) by {
            vstd::arithmetic::div_mod::lemma_mod_pos_bound(low, scale);
        }
        let quotient = low / scale;
        let rest = low % scale;
        let product = (xi * scale + xd) * (yi * scale + yd);
        assert(product == high * scale + low) by (nonlinear_arith)
            requires
                product == (xi * scale + xd) * (yi * scale + yd),
                high == xi * yi * scale + xi * yd + xd * yi,
                low == xd * yd,
        ;
        assert(product == (high + quotient) * scale + rest) by (nonlinear_arith)
            requires
                product == high * scale + low,
                low == scale * quotient + rest,
        ;
        vstd::arithmetic::div_mod::lemma_fundamental_div_mod_converse(
            product,
            scale,
            high + quotient,
            rest,
        );
    }

    /// Computes [`product_total`](FixedPoint::product_total), one partial
    /// product at a time, and fails at the first that does not fit an `i64`.
    pub fn calculate_product_total(&self, rhs: FixedPoint) -> (r: Result<i64, ArithmeticError>)
        requires
            self.well_formed(),
            rhs.well_formed(),
        ensures
            r == (if Self::product_overflows(*self, rhs) {
                Err::<i64, ArithmeticError>(ArithmeticError::MultiplicationOverflow)
            } else {
                Ok(Self::product_total(*self, rhs) as i64)
            }),
            r matches Ok(total) ==> 0 <= total == Self::product_total(*self, rhs),
    {
        let (self_scaled, rhs_scaled): (FixedPoint, FixedPoint) = Self::scale_to_match(self, &rhs);
        let ghost xi = self_scaled.integer as int;
        let ghost xd = self_scaled.decimal as int;
        let ghost yi = rhs_scaled.integer as int;
        let ghost yd = rhs_scaled.decimal as int;
        let ghost scale = self_scaled.scale as int;
        proof {
            Self::lemma_fraction_units_is_product(1, scale);
            assert(0 <= xi * yi && 0 <= xi * yd && 0 <= xd * yi && 0 <= xd * yd) by (nonlinear_arith)
                requires
                    0 <= xi,
                    0 <= xd,
                    0 <= yi,
                    0 <= yd,
            ;
            assert(xi * yi <= xi * yi * scale) by (nonlinear_arith)
                requires
                    0 <= xi * yi,
                    1 <= scale,
            ;
            vstd::arithmetic::div_mod::lemma_div_pos_is_pos(xd * yd, scale);
        }
        let integer_mul: i64 = match self_scaled.integer.checked_mul(rhs_scaled.integer) {
            Some(value) => value,
            None => {
                return Err(ArithmeticError::MultiplicationOverflow);
            },
        };
        let integer_rhs_mul: i64 = match integer_mul.checked_mul(self_scaled.scale) {
            Some(value) => value,
            None => {
                return Err(ArithmeticError::MultiplicationOverflow);
            },
        };
        let integer_decimal_1: i64 = match self_scaled.integer.checked_mul(rhs_scaled.decimal) {
            Some(value) => value,
            None => {
                return Err(ArithmeticError::MultiplicationOverflow);
            },
        };
        let integer_decimal_2: i64 = match self_scaled.decimal.checked_mul(rhs_scaled.integer) {
            Some(value) => value,
            None => {
                return Err(ArithmeticError::MultiplicationOverflow);
            },
        };
        let decimal_decimal_mul: i64 = match self_scaled.decimal.checked_mul(rhs_scaled.decimal) {
            Some(value) => value,
            None => {
                return Err(ArithmeticError::MultiplicationOverflow);
            },
        };
        let product_total: i128 = integer_rhs_mul as i128 + integer_decimal_1 as i128
            + integer_decimal_2 as i128 + (decimal_decimal_mul / self_scaled.scale) as i128;
        if product_total > i64::MAX as i128 {
            return Err(ArithmeticError::MultiplicationOverflow);
        }
        Ok(product_total as i64)
    }

    /// The product of two numbers, written canonically.
    ///
    /// Both are first written at the larger of their scales, and the product
    /// keeps that scale: digits below it are cut off. It fails where a partial
    /// product or their sum does not fit an `i64`.
    pub fn multiply(&self, rhs: &FixedPoint) -> (r: Result<FixedPoint, ArithmeticError>)
        requires
            self.well_formed(),
            rhs.well_formed(),
        ensures
            r == Self::product_of(*self, *rhs),
            r matches Ok(product) ==> product.is_normalized() && product@ == Self::product_units(
                *self,
                *rhs,
            ),
    {
        let (self_scaled, _rhs_scaled): (FixedPoint, FixedPoint) = Self::scale_to_match(self, rhs);
        let product_total: i64 = match self.calculate_product_total(*rhs) {
            Ok(total) => total,
            Err(error) => {
                return Err(error);
            },
        };
        let result_scale: i64 = self_scaled.scale;
        proof {
            Self::lemma_split_raw(product_total as int, result_scale as int);
        }
        let mut product = FixedPoint {
            integer: product_total / result_scale,
            decimal: product_total % result_scale,
            sign: if (self.sign < 0) != (rhs.sign < 0) { NEGATIVE } else { POSITIVE },
            scale: result_scale,
        };
        product.scale_to_fit();
        proof {
            Self::lemma_canonical(product);
        }
        Ok(product)
    }
}

} // verus!
