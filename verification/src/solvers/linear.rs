use vstd::prelude::*;
use crate::errors::ArithmeticError;
use crate::math_tools::fixed_point::fixed_point::{FixedPoint, all_well_formed};

verus! {

/// What [`solve_linear`] returns for the coefficients `b, a` of
/// `a * X + b = 0`: nothing where there are fewer than two coefficients or
/// `a` is zero, and else the one solution `-b / a`.
pub open spec fn linear_solution(coefficients: Seq<FixedPoint>) -> Result<
    Option<Seq<FixedPoint>>,
    ArithmeticError,
> {
    if coefficients.len() < 2 || coefficients[1]@ == 0 {
        Ok(None)
    } else {
        match FixedPoint::quotient_of_units(-coefficients[0]@, coefficients[1]@) {
            Ok(solution) => Ok(Some(seq![solution])),
            Err(error) => Err(error),
        }
    }
}

/// Solves `a * X + b = 0`, where `b` is the first coefficient and `a` the
/// second.
pub fn solve_linear(coefficients: &Vec<FixedPoint>) -> (r: Result<
    Option<Vec<FixedPoint>>,
    ArithmeticError,
>)
    requires
        all_well_formed(coefficients@),
    ensures
        match r {
            Ok(Some(solutions)) => linear_solution(coefficients@) == Ok::<
                Option<Seq<FixedPoint>>,
                ArithmeticError,
            >(Some(solutions@)),
            Ok(None) => linear_solution(coefficients@) == Ok::<
                Option<Seq<FixedPoint>>,
                ArithmeticError,
            >(None),
            Err(error) => linear_solution(coefficients@) == Err::<
                Option<Seq<FixedPoint>>,
                ArithmeticError,
            >(error),
        },
        r matches Ok(Some(solutions)) ==> solutions@.len() == 1 && solutions@[0].is_normalized(),
{
    if coefficients.len() < 2 {
        return Ok(None);
    }
    let a: FixedPoint = coefficients[1];
    let b: FixedPoint = coefficients[0];

    if a.to_units() == 0 {
        Ok(None)
    } else {
        let solution: FixedPoint = match b.negate().divide(&a) {
            Ok(quotient) => quotient,
            Err(error) => {
                return Err(error);
            },
        };
        let solutions: Vec<FixedPoint> = vec![solution];
        assert(solutions@ =~= seq![solution]);
        Ok(Some(solutions))
    }
}

} // verus!
