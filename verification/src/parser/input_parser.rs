use std::collections::HashMap;
use vstd::prelude::*;
use crate::errors::{ParseError, ParseFailure};
use crate::math_tools::fixed_point::fixed_point::{FixedPoint, all_normalized, views};
use crate::parser::grammar::is_parse_of;
use crate::parser::tools::{parse_equation, split_input, sum_coefficients};

verus! {

/// What a parse returned, with views in place of numbers and texts.
pub open spec fn outcome_of(r: Result<Vec<FixedPoint>, ParseError>) -> Result<
    Seq<int>,
    ParseFailure,
> {
    match r {
        Ok(coefficients) => Ok(views(coefficients@)),
        Err(error) => Err(error@),
    }
}

/// Reads the text of an equation and gives the coefficients of
/// `left - right = 0` by power, the constant first, each written canonically.
pub fn parse_input(input: &str) -> (r: Result<Vec<FixedPoint>, ParseError>)
    ensures
        is_parse_of(outcome_of(r), input@),
        r matches Ok(coefficients) ==> coefficients@.len() >= 1 && all_normalized(coefficients@),
{
    let equation_members: (Vec<char>, Vec<char>) = match split_input(input) {
        Ok(members) => members,
        Err(error) => {
            return Err(error);
        },
    };
    let left_coefficients: HashMap<usize, FixedPoint> = match parse_equation(
        equation_members.0.as_slice(),
    ) {
        Ok(coefficients) => coefficients,
        Err(error) => {
            return Err(error);
        },
    };
    let right_coefficients: HashMap<usize, FixedPoint> = match parse_equation(
        equation_members.1.as_slice(),
    ) {
        Ok(coefficients) => coefficients,
        Err(error) => {
            return Err(error);
        },
    };
    sum_coefficients(left_coefficients, right_coefficients)
}

} // verus!
