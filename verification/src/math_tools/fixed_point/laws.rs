use vstd::prelude::*;
use crate::constants::math_tools_constants::{MAX_SCALE, POSITIVE};
use crate::errors::ArithmeticError;
use crate::math_tools::fixed_point::fixed_point::{
    FixedPoint,
    digit_scale,
    fraction_units,
    is_scale,
    magnitude_of,
    representable,
};

verus! {

impl FixedPoint {
    /// Dropping the trailing zeros of a fraction that carries the scale of its
    /// digits leaves a fraction that carries the scale of its digits.
    proof fn lemma_stripped_digit_scale(decimal: int, scale: int)
        requires
            0 <= decimal < 1_000_000_000_000_000,
            scale == digit_scale(decimal),
        ensures
            Self::stripped(decimal, scale).1 == digit_scale(Self::stripped(decimal, scale).0),
        decreases scale,
    {
        if scale > 1 && decimal % 10 == 0 {
            Self::lemma_stripped_digit_scale(decimal / 10, scale / 10);
        }
    }

    /// A number built by [`new`](FixedPoint::new) is built again from its own
    /// fields: `new(v.integer, v.decimal, v.sign)` is `v`, field by field.
    pub proof fn lemma_new_round_trip(integer: i64, decimal: i64, sign: i64)
        requires
            integer > i64::MIN,
            -MAX_SCALE < decimal < MAX_SCALE,
        ensures
            ({
                let v = Self::constructed(integer as int, decimal as int, sign as int);
                &&& v.integer > i64::MIN
                &&& -MAX_SCALE < v.decimal < MAX_SCALE
                &&& Self::constructed(v.integer as int, v.decimal as int, v.sign as int) == v
            }),
    {
        let whole = magnitude_of(integer as int);
        let fraction = magnitude_of(decimal as int);
        let scale = digit_scale(fraction);
        let units = Self::value_of(integer as int, decimal as int, sign as int, scale);
        let (d, s) = Self::stripped(fraction, scale);
        Self::lemma_stripped(fraction, scale);
        Self::lemma_stripped_digit_scale(fraction, scale);
        reveal(fraction_units);
        let negative = units < 0;
        let w = FixedPoint {
            integer: whole as i64,
            decimal: d as i64,
            sign: if negative { -1i64 } else { 1i64 },
            scale: s as i64,
        };
        assert(w.is_normalized());
        assert(w@ == units);
        Self::lemma_canonical(w);
        let v = Self::constructed(integer as int, decimal as int, sign as int);
        assert(v == w);
        assert(Self::value_of(
            v.integer as int,
            v.decimal as int,
            v.sign as int,
            digit_scale(magnitude_of(v.decimal as int)),
        ) == units);
    }

    /// Addition does not mind the order of its operands.
    pub proof fn lemma_add_commutes(a: FixedPoint, b: FixedPoint)
        ensures
            Self::sum_of(a, b) == Self::sum_of(b, a),
    {
    }

    /// `a - b` is the negation of `b - a`: both fail together, and where they
    /// succeed the one is the canonical number of the other's negated view,
    /// which is what [`negate`](FixedPoint::negate) returns.
    pub proof fn lemma_subtract_is_negated(a: FixedPoint, b: FixedPoint)
        ensures
            Self::difference_of(a, b) == (match Self::difference_of(b, a) {
                Ok(reverse) => Ok::<FixedPoint, ArithmeticError>(Self::canonical(-reverse@)),
                Err(error) => Err(error),
            }),
    {
        if representable(b@ - a@) {
            Self::lemma_canonical_view(b@ - a@);
        }
    }

    /// Any number times zero is zero, whichever comes first.
    pub proof fn lemma_multiply_by_zero(a: FixedPoint)
        requires
            a.well_formed(),
        ensures
            ({
                let zero = FixedPoint { integer: 0, decimal: 0, sign: POSITIVE, scale: 1 };
                &&& Self::product_of(a, zero) == Ok::<FixedPoint, ArithmeticError>(zero)
                &&& Self::product_of(zero, a) == Ok::<FixedPoint, ArithmeticError>(zero)
            }),
    {
        let zero = FixedPoint { integer: 0, decimal: 0, sign: POSITIVE, scale: 1 };
        let scale = a.scale as int;
        Self::lemma_rescaled(a, scale);
        Self::lemma_rescaled(zero, scale);
        Self::lemma_fraction_units_is_product(0, 1);
        let x = a.rescaled(scale);
        let y = zero.rescaled(scale);
        assert(Self::matched(a, zero) == (x, y));
        assert(Self::matched(zero, a) == (y, x));
        assert(y.integer == 0 && y.decimal == 0);
        assert(x.integer * y.integer * x.scale == 0 && x.integer * y.decimal == 0 && x.decimal
            * y.integer == 0 && x.decimal * y.decimal == 0 && y.integer * x.integer * y.scale == 0
            && y.integer * x.decimal == 0 && y.decimal * x.integer == 0 && y.decimal * x.decimal
            == 0) by (nonlinear_arith)
            requires
                y.integer == 0,
                y.decimal == 0,
        ;
        assert(0int / scale == 0) by (nonlinear_arith)
            requires
                scale > 0,
        ;
        assert(Self::product_total(a, zero) == 0);
        assert(Self::product_total(zero, a) == 0);
        assert(Self::product_units(a, zero) == 0 && Self::product_units(zero, a) == 0)
            by (nonlinear_arith)
            requires
                Self::product_units(a, zero) == 0 * fraction_units(1, scale)
                    || Self::product_units(a, zero) == -(0 * fraction_units(1, scale)),
                Self::product_units(zero, a) == 0 * fraction_units(1, scale)
                    || Self::product_units(zero, a) == -(0 * fraction_units(1, scale)),
        ;
        Self::lemma_canonical(zero);
    }

    /// Bringing two numbers to one scale a second time changes nothing.
    pub proof fn lemma_scale_to_match_is_idempotent(a: FixedPoint, b: FixedPoint)
        requires
            a.well_formed(),
            b.well_formed(),
        ensures
            ({
                let (x, y) = Self::matched(a, b);
                Self::matched(x, y) == (x, y)
            }),
    {
        let scale = if a.scale < b.scale {
            b.scale as int
        } else {
            a.scale as int
        };
        Self::lemma_rescaled(a, scale);
        Self::lemma_rescaled(b, scale);
        let (x, y) = Self::matched(a, b);
        Self::lemma_rescaled(x, scale);
        Self::lemma_rescaled(y, scale);
    }

    /// Where a product is exact, dividing it by one factor gives the other
    /// back: if `p` is `a * b` with no digit cut off and `b` is not zero, then
    /// `p / b` is `a`, written canonically.
    pub proof fn lemma_divide_inverts_multiply(a: FixedPoint, b: FixedPoint, p: FixedPoint)
        requires
            a.well_formed(),
            b.well_formed(),
            Self::product_of(a, b) == Ok::<FixedPoint, ArithmeticError>(p),
            p@ * 1_000_000_000_000_000 == a@ * b@,
            b@ != 0,
        ensures
            Self::quotient_units(p@, b@) == a@,
            Self::quotient_of(p, b) == Ok::<FixedPoint, ArithmeticError>(Self::canonical(a@)),
            a.is_normalized() ==> Self::quotient_of(p, b) == Ok::<FixedPoint, ArithmeticError>(a),
    {
        let x = magnitude_of(a@);
        let y = magnitude_of(b@);
        let z = magnitude_of(p@);
        assert(z * 1_000_000_000_000_000 == y * x) by (nonlinear_arith)
            requires
                p@ * 1_000_000_000_000_000 == a@ * b@,
                x == magnitude_of(a@),
                y == magnitude_of(b@),
                z == magnitude_of(p@),
        ;
        vstd::arithmetic::div_mod::lemma_div_multiples_vanish(x, y);
        assert(p@ != 0 ==> ((p@ < 0) != (b@ < 0) <==> a@ < 0)) by (nonlinear_arith)
            requires
                p@ * 1_000_000_000_000_000 == a@ * b@,
                b@ != 0,
        ;
        assert(p@ == 0 ==> a@ == 0) by (nonlinear_arith)
            requires
                p@ * 1_000_000_000_000_000 == a@ * b@,
                b@ != 0,
        ;
        Self::lemma_raw_value(a);
        if a.is_normalized() {
            Self::lemma_canonical(a);
        }
    }

    /// `==` is what comparing whole part and fraction at one scale gives.
    pub proof fn lemma_eq_compares_rescaled(a: FixedPoint, b: FixedPoint)
        requires
            a.well_formed(),
            b.well_formed(),
        ensures
            ({
                let (x, y) = Self::matched(a, b);
                a.magnitude() == b.magnitude() <==> x.integer == y.integer && x.decimal == y.decimal
            }),
    {
        let scale = if a.scale < b.scale {
            b.scale as int
        } else {
            a.scale as int
        };
        Self::lemma_rescaled(a, scale);
        Self::lemma_rescaled(b, scale);
        let (x, y) = Self::matched(a, b);
        assert(is_scale(scale));
        reveal(fraction_units);
    }
}

} // verus!
