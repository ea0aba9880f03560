use vstd::prelude::*;
use crate::constants::math_tools_constants::POSITIVE;
use crate::errors::ArithmeticError;
use crate::math_tools::basic::{is_floor_square_root, lemma_floor_square_root_is_unique, square_root};
use crate::math_tools::fixed_point::fixed_point::{
    FixedPoint,
    all_normalized,
    all_well_formed,
    fraction_units,
    representable,
};

verus! {

/// The number four, by which `a * c` is multiplied in the discriminant.
pub open spec fn four() -> FixedPoint {
    FixedPoint { integer: 4, decimal: 0, sign: POSITIVE, scale: 1 }
}

/// What [`discriminant`] returns: `b * b - (a * c) * 4`, computed in that
/// order with the products and the difference of the number type, and the
/// failure of the first operation that fails.
pub open spec fn discriminant_of(a: FixedPoint, b: FixedPoint, c: FixedPoint) -> Result<
    FixedPoint,
    ArithmeticError,
> {
    match FixedPoint::product_of(b, b) {
        Err(error) => Err(error),
        Ok(b_squared) => match FixedPoint::product_of(a, c) {
            Err(error) => Err(error),
            Ok(a_c) => match FixedPoint::product_of(a_c, four()) {
                Err(error) => Err(error),
                Ok(four_a_c) => FixedPoint::difference_of(b_squared, four_a_c),
            },
        },
    }
}

/// The view of the square root of the view `value`, cut off below the
/// fifteenth digit after the point.
pub open spec fn root_units(value: int) -> int {
    choose|root: int| #[trigger] is_floor_square_root(root, value * 1_000_000_000_000_000)
}

/// The view `x + y`, where it can be held.
pub open spec fn sum_units(x: int, y: int) -> Result<int, ArithmeticError> {
    if representable(x + y) {
        Ok(x + y)
    } else {
        Err(ArithmeticError::AdditionOverflow)
    }
}

/// What [`quadratic_roots`] returns for the views of `a`, of `b` and of the
/// discriminant: nothing where the discriminant is below zero; the one root
/// `-b / (2a)` where it is zero; and else the two roots
/// `(-b - root) / (2a)` and `(-b + root) / (2a)`, in that order, where `root`
/// is the square root of the discriminant. The operations are made in the
/// order in which this text names them, and the first that fails gives the
/// failure.
pub open spec fn roots_of(a: int, b: int, delta: int) -> Result<
    Option<Seq<FixedPoint>>,
    ArithmeticError,
> {
    if delta < 0 {
        Ok(None)
    } else {
        match sum_units(a, a) {
            Err(error) => Err(error),
            Ok(twice_a) => if delta == 0 {
                match FixedPoint::quotient_of_units(-b, twice_a) {
                    Err(error) => Err(error),
                    Ok(root) => Ok(Some(seq![root])),
                }
            } else {
                match sum_units(-b, -root_units(delta)) {
                    Err(error) => Err(error),
                    Ok(lower) => match FixedPoint::quotient_of_units(lower, twice_a) {
                        Err(error) => Err(error),
                        Ok(first) => match sum_units(-b, root_units(delta)) {
                            Err(error) => Err(error),
                            Ok(upper) => match FixedPoint::quotient_of_units(upper, twice_a) {
                                Err(error) => Err(error),
                                Ok(second) => Ok(Some(seq![first, second])),
                            },
                        },
                    },
                }
            },
        }
    }
}

/// What [`complex_roots`] returns for the views of `a`, of `b` and of a
/// discriminant below zero: the real part `-b / (2a)` and the imaginary part
/// `root / (2a)` of the two roots, where `root` is the square root of the
/// negated discriminant.
pub open spec fn complex_roots_of(a: int, b: int, delta: int) -> Result<
    Seq<FixedPoint>,
    ArithmeticError,
> {
    match sum_units(a, a) {
        Err(error) => Err(error),
        Ok(twice_a) => match FixedPoint::quotient_of_units(-b, twice_a) {
            Err(error) => Err(error),
            Ok(real_part) => match FixedPoint::quotient_of_units(root_units(-delta), twice_a) {
                Err(error) => Err(error),
                Ok(imaginary_part) => Ok(seq![real_part, imaginary_part]),
            },
        },
    }
}

/// What [`solve_quadratic`] returns for the coefficients `c, b, a` of
/// `a * X^2 + b * X + c = 0`.
pub open spec fn quadratic_solution(coefficients: Seq<FixedPoint>) -> Result<
    Option<Seq<FixedPoint>>,
    ArithmeticError,
> {
    match discriminant_of(coefficients[2], coefficients[1], coefficients[0]) {
        Err(error) => Err(error),
        Ok(delta) => roots_of(coefficients[2]@, coefficients[1]@, delta@),
    }
}

/// What a solver returned, with a sequence in place of the vector.
pub open spec fn solutions_of(r: Result<Option<Vec<FixedPoint>>, ArithmeticError>) -> Result<
    Option<Seq<FixedPoint>>,
    ArithmeticError,
> {
    match r {
        Ok(Some(solutions)) => Ok(Some(solutions@)),
        Ok(None) => Ok(None),
        Err(error) => Err(error),
    }
}

/// The discriminant `b^2 - 4ac` of `a * X^2 + b * X + c`.
pub fn discriminant(a: &FixedPoint, b: &FixedPoint, c: &FixedPoint) -> (r: Result<
    FixedPoint,
    ArithmeticError,
>)
    requires
        a.well_formed(),
        b.well_formed(),
        c.well_formed(),
    ensures
        r == discriminant_of(*a, *b, *c),
        r matches Ok(delta) ==> delta.is_normalized(),
{
    let b_squared: FixedPoint = match b.multiply(b) {
        Ok(product) => product,
        Err(error) => {
            return Err(error);
        },
    };
    let a_c: FixedPoint = match a.multiply(c) {
        Ok(product) => product,
        Err(error) => {
            return Err(error);
        },
    };
    let factor: FixedPoint = FixedPoint::new(4, 0, POSITIVE);
    proof {
        reveal(fraction_units);
        FixedPoint::lemma_normalized_is_unique(factor, four());
    }
    let four_a_c: FixedPoint = match a_c.multiply(&factor) {
        Ok(product) => product,
        Err(error) => {
            return Err(error);
        },
    };
    b_squared.subtract(&four_a_c)
}

/// The real roots of `a * X^2 + b * X + c` from `a`, `b` and the
/// discriminant: none where the discriminant is below zero, one where it is
/// zero, and else two, the smaller numerator first.
pub fn quadratic_roots(a: &FixedPoint, b: &FixedPoint, delta: &FixedPoint) -> (r: Result<
    Option<Vec<FixedPoint>>,
    ArithmeticError,
>)
    requires
        a.well_formed(),
        b.well_formed(),
        delta.well_formed(),
        a@ != 0,
    ensures
        solutions_of(r) == roots_of(a@, b@, delta@),
        r matches Ok(Some(solutions)) ==> all_normalized(solutions@),
{
    let discriminant_units: i128 = delta.to_units();
    if discriminant_units < 0 {
        return Ok(None);
    }
    let twice_a: FixedPoint = match a.add(a) {
        Ok(sum) => sum,
        Err(error) => {
            return Err(error);
        },
    };
    let minus_b: FixedPoint = b.negate();

    if discriminant_units == 0 {
        let root: FixedPoint = match minus_b.divide(&twice_a) {
            Ok(quotient) => quotient,
            Err(error) => {
                return Err(error);
            },
        };
        let solutions: Vec<FixedPoint> = vec![root];
        assert(solutions@ =~= seq![root]);
        return Ok(Some(solutions));
    }
    let sqrt_delta: FixedPoint = square_root(*delta).unwrap();
    proof {
        let target = delta@ * 1_000_000_000_000_000;
        assert(is_floor_square_root(sqrt_delta@, target));
        lemma_floor_square_root_is_unique(sqrt_delta@, root_units(delta@), target);
    }
    let lower: FixedPoint = match minus_b.subtract(&sqrt_delta) {
        Ok(difference) => difference,
        Err(error) => {
            return Err(error);
        },
    };
    let first: FixedPoint = match lower.divide(&twice_a) {
        Ok(quotient) => quotient,
        Err(error) => {
            return Err(error);
        },
    };
    let upper: FixedPoint = match minus_b.add(&sqrt_delta) {
        Ok(sum) => sum,
        Err(error) => {
            return Err(error);
        },
    };
    let second: FixedPoint = match upper.divide(&twice_a) {
        Ok(quotient) => quotient,
        Err(error) => {
            return Err(error);
        },
    };
    let solutions: Vec<FixedPoint> = vec![first, second];
    assert(solutions@ =~= seq![first, second]);
    Ok(Some(solutions))
}

/// The two complex roots of `a * X^2 + b * X + c` from `a`, `b` and a
/// discriminant below zero, as their common real part and the imaginary part
/// of the first: the roots are `real + i * imaginary` and
/// `real - i * imaginary`.
pub fn complex_roots(a: &FixedPoint, b: &FixedPoint, delta: &FixedPoint) -> (r: Result<
    Vec<FixedPoint>,
    ArithmeticError,
>)
    requires
        a.well_formed(),
        b.well_formed(),
        delta.well_formed(),
        a@ != 0,
        delta@ < 0,
    ensures
        match r {
            Ok(parts) => {
                &&& complex_roots_of(a@, b@, delta@) == Ok::<Seq<FixedPoint>, ArithmeticError>(
                    parts@,
                )
                &&& all_normalized(parts@)
            },
            Err(error) => complex_roots_of(a@, b@, delta@) == Err::<
                Seq<FixedPoint>,
                ArithmeticError,
            >(error),
        },
{
    let twice_a: FixedPoint = match a.add(a) {
        Ok(sum) => sum,
        Err(error) => {
            return Err(error);
        },
    };
    let real_part: FixedPoint = match b.negate().divide(&twice_a) {
        Ok(quotient) => quotient,
        Err(error) => {
            return Err(error);
        },
    };
    let negated: FixedPoint = delta.negate();
    let sqrt_delta: FixedPoint = square_root(negated).unwrap();
    proof {
        let target = -delta@ * 1_000_000_000_000_000;
        assert(is_floor_square_root(sqrt_delta@, target));
        lemma_floor_square_root_is_unique(sqrt_delta@, root_units(-delta@), target);
    }
    let imaginary_part: FixedPoint = match sqrt_delta.divide(&twice_a) {
        Ok(quotient) => quotient,
        Err(error) => {
            return Err(error);
        },
    };
    let parts: Vec<FixedPoint> = vec![real_part, imaginary_part];
    assert(parts@ =~= seq![real_part, imaginary_part]);
    Ok(parts)
}

/// Solves `a * X^2 + b * X + c = 0`, where `c` is the first coefficient, `b`
/// the second and `a` the third. There must be three coefficients, and `a`
/// must not be zero: an equation of a lower degree is for another solver.
pub fn solve_quadratic(coefficients: &Vec<FixedPoint>) -> (r: Result<
    Option<Vec<FixedPoint>>,
    ArithmeticError,
>)
    requires
        coefficients@.len() == 3,
        all_well_formed(coefficients@),
        coefficients@[2]@ != 0,
    ensures
        solutions_of(r) == quadratic_solution(coefficients@),
        r matches Ok(Some(solutions)) ==> all_normalized(solutions@),
{
    let a: FixedPoint = coefficients[2];
    let b: FixedPoint = coefficients[1];
    let c: FixedPoint = coefficients[0];

    let delta: FixedPoint = match discriminant(&a, &b, &c) {
        Ok(difference) => difference,
        Err(error) => {
            return Err(error);
        },
    };
    quadratic_roots(&a, &b, &delta)
}

} // verus!
