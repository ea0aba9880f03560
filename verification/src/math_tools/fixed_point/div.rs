use vstd::prelude::*;
use crate::constants::math_tools_constants::{MAX_SCALE, NEGATIVE, POSITIVE};
use crate::errors::ArithmeticError;
use crate::math_tools::fixed_point::fixed_point::{
    FixedPoint,
    is_scale,
    magnitude_of,
    representable,
    unit,
};

verus! {

impl FixedPoint {
    /// The quotient of two views as a view: fifteen digits after the point,
    /// what lies below them cut off, negative where exactly one of the two is.
    pub open spec fn quotient_units(a: int, b: int) -> int {
        let magnitude = (magnitude_of(a) * 1_000_000_000_000_000) / magnitude_of(b);
        if (a < 0) != (b < 0) {
            -magnitude
        } else {
            magnitude
        }
    }

    /// What [`divide`](FixedPoint::divide) returns for two numbers with the
    /// views `a` and `b`.
    pub open spec fn quotient_of_units(a: int, b: int) -> Result<FixedPoint, ArithmeticError> {
        if b == 0 {
            Err(ArithmeticError::DivisionByZero)
        } else if !representable(Self::quotient_units(a, b)) {
            Err(ArithmeticError::DivisionOverflow)
        } else {
            Ok(Self::canonical(Self::quotient_units(a, b)))
        }
    }

    /// What [`divide`](FixedPoint::divide) returns.
    pub open spec fn quotient_of(a: FixedPoint, b: FixedPoint) -> Result<
        FixedPoint,
        ArithmeticError,
    > {
        Self::quotient_of_units(a@, b@)
    }

    /// Long division gives the whole part and `new_decimal / new_scale` of the
    /// quotient `n / d` once the remainder is zero or fifteen digits are out.
    proof fn lemma_long_division(
        n: int,
        d: int,
        whole: int,
        new_decimal: int,
        new_scale: int,
        remainder: int,
    )
        requires
            0 <= n,
            0 < d,
            whole == n / d,
            is_scale(new_scale),
            0 <= new_decimal < new_scale,
            0 <= remainder < d,
            (n % d) * new_scale == d * new_decimal + remainder,
            remainder == 0 || new_scale == 1_000_000_000_000_000,
        ensures
            whole * 1_000_000_000_000_000 + new_decimal * unit(new_scale) == (n
                * 1_000_000_000_000_000) / d,
            0 <= whole,
    {
        let one = unit(new_scale);
        let first = n % d;
        Self::lemma_fraction_units_is_product(1, new_scale);
        vstd::arithmetic::div_mod::lemma_fundamental_div_mod(n, d);
        vstd::arithmetic::div_mod::lemma_div_pos_is_pos(n, d);
        let quotient = whole * 1_000_000_000_000_000 + new_decimal * one;
        let rest = remainder * one;
        assert(0 <= rest < d) by (nonlinear_arith)
            requires
                rest == remainder * one,
                0 <= remainder < d,
                remainder == 0 || one == 1,
        ;
        assert(first * 1_000_000_000_000_000 == d * (new_decimal * one) + rest) by (nonlinear_arith)
            requires
                first * new_scale == d * new_decimal + remainder,
                one * new_scale == 1_000_000_000_000_000,
                rest == remainder * one,
        ;
        assert(n * 1_000_000_000_000_000 == quotient * d + rest) by (nonlinear_arith)
            requires
                n == d * whole + first,
                first * 1_000_000_000_000_000 == d * (new_decimal * one) + rest,
                quotient == whole * 1_000_000_000_000_000 + new_decimal * one,
        ;
        vstd::arithmetic::div_mod::lemma_fundamental_div_mod_converse(
            n * 1_000_000_000_000_000,
            d,
            quotient,
            rest,
        );
    }

    /// The quotient of two raw values at one scale is the quotient of the
    /// views they stand for.
    proof fn lemma_quotient_of_raw(n: int, d: int, scale: int)
        requires
            0 <= n,
            0 < d,
            is_scale(scale),
        ensures
            (n * unit(scale) * 1_000_000_000_000_000) / (d * unit(scale)) == (n
                * 1_000_000_000_000_000) / d,
            d * unit(scale) > 0,
    {
        let one = unit(scale);
        Self::lemma_fraction_units_is_product(1, scale);
        assert(0 <= n * 1_000_000_000_000_000) by (nonlinear_arith)
            requires
                0 <= n,
        ;
        vstd::arithmetic::div_mod::lemma_div_multiples_vanish_quotient(
            one,
            n * 1_000_000_000_000_000,
            d,
        );
        assert(one * (n * 1_000_000_000_000_000) == n * one * 1_000_000_000_000_000)
            by (nonlinear_arith);
        assert(one * d == d * one) by (nonlinear_arith);
    }

    /// The quotient of two numbers to fifteen digits after the point, written
    /// canonically; what lies below the fifteenth digit is cut off.
    ///
    /// Both are first written at the larger of their scales. The whole part
    /// is the quotient of their raw values; each further digit comes from the
    /// remainder times ten, until the remainder is zero or fifteen digits are
    /// out. It fails where the divisor is zero, and where the whole part does
    /// not fit an `i64`.
    pub fn divide(&self, rhs: &FixedPoint) -> (r: Result<FixedPoint, ArithmeticError>)
        requires
            self.well_formed(),
            rhs.well_formed(),
        ensures
            r == Self::quotient_of(*self, *rhs),
            r matches Ok(quotient) ==> quotient.is_normalized() && quotient@
                == Self::quotient_units(self@, rhs@),
    {
        let (a, b): (FixedPoint, FixedPoint) = Self::scale_to_match(self, rhs);
        proof {
            Self::lemma_raw_value(a);
            Self::lemma_raw_value(b);
            Self::lemma_fraction_units_is_product(1, a.scale as int);
        }
        let numerator: i128 = a.to_raw_value();
        let denominator: i128 = b.to_raw_value();
        let ghost one = unit(a.scale as int);

        if denominator == 0 {
            assert(b@ == 0) by (nonlinear_arith)
                requires
                    b@ == denominator * one,
                    denominator == 0,
            ;
            return Err(ArithmeticError::DivisionByZero);
        }
        let n: i128 = if numerator < 0 { -numerator } else { numerator };
        let d: i128 = if denominator < 0 { -denominator } else { denominator };
        proof {
            Self::lemma_quotient_of_raw(n as int, d as int, a.scale as int);
            assert((numerator < 0 ==> numerator * one < 0) && (numerator >= 0 ==> numerator * one
                >= 0) && (denominator < 0 ==> denominator * one < 0) && (denominator > 0
                ==> denominator * one > 0)) by (nonlinear_arith)
                requires
                    1 <= one,
            ;
            assert((-numerator) * one == -(numerator * one) && (-denominator) * one == -(denominator
                * one)) by (nonlinear_arith);
            assert(magnitude_of(self@) == n * one);
            assert(magnitude_of(rhs@) == d * one);
            vstd::arithmetic::div_mod::lemma_div_pos_is_pos(n as int, d as int);
            vstd::arithmetic::div_mod::lemma_fundamental_div_mod(n as int, d as int);
        }
        let result_integer: i128 = n / d;
        let first_remainder: i128 = n % d;
        let mut remainder: i128 = first_remainder;
        let mut new_scale: i64 = 1;
        let mut new_decimal: i64 = 0;

        while remainder != 0 && new_scale < MAX_SCALE
            invariant
                is_scale(new_scale as int),
                0 <= new_decimal < new_scale,
                0 <= remainder < d,
                0 < d < 9_223_372_036_854_775_808_000_000_000_000_000,
                first_remainder * new_scale == d * new_decimal + remainder,
            decreases MAX_SCALE - new_scale,
        {
            let ghost before = remainder as int;
            let ghost decimal_before = new_decimal as int;
            let ghost scale_before = new_scale as int;
            remainder = remainder * 10;
            let digit: i128 = remainder / d;
            proof {
                vstd::arithmetic::div_mod::lemma_fundamental_div_mod(remainder as int, d as int);
                vstd::arithmetic::div_mod::lemma_div_pos_is_pos(remainder as int, d as int);
                assert(digit < 10) by (nonlinear_arith)
                    requires
                        remainder == d * digit + remainder % d,
                        0 <= remainder % d,
                        remainder < 10 * d,
                        0 < d,
                ;
                assert(first_remainder * (scale_before * 10) == d * (decimal_before * 10 + digit)
                    + remainder % d) by (nonlinear_arith)
                    requires
                        first_remainder * scale_before == d * decimal_before + before,
                        before * 10 == d * digit + remainder % d,
                ;
            }
            new_decimal = new_decimal * 10 + digit as i64;
            remainder = remainder % d;
            new_scale = new_scale * 10;
        }
        proof {
            Self::lemma_long_division(
                n as int,
                d as int,
                result_integer as int,
                new_decimal as int,
                new_scale as int,
                remainder as int,
            );
            Self::lemma_fraction_units_is_product(new_decimal as int, new_scale as int);
            Self::lemma_fraction_units_is_product(1, new_scale as int);
            assert(0 <= new_decimal * unit(new_scale as int) < 1_000_000_000_000_000)
                by (nonlinear_arith)
                requires
                    0 <= new_decimal < new_scale,
                    unit(new_scale as int) * new_scale == 1_000_000_000_000_000,
                    1 <= unit(new_scale as int),
            ;
        }
        if result_integer > i64::MAX as i128 {
            return Err(ArithmeticError::DivisionOverflow);
        }
        let mut quotient = FixedPoint {
            integer: result_integer as i64,
            decimal: new_decimal,
            sign: if (numerator < 0) == (denominator < 0) { POSITIVE } else { NEGATIVE },
            scale: new_scale,
        };
        quotient.scale_to_fit();
        proof {
            Self::lemma_canonical(quotient);
        }
        Ok(quotient)
    }
}

} // verus!
