use computorv1::constants::math_tools_constants::{NEGATIVE, POSITIVE};
use computorv1::errors::ArithmeticError;
use computorv1::math_tools::fixed_point::fixed_point::FixedPoint;
use computorv1::math_tools::polynomial::Polynomial;
use computorv1::parser;
use computorv1::solvers::linear::solve_linear;

#[test]
fn test_linear_test_simple_solution() {
    let polynomial: Polynomial = Polynomial::new("2*X + 4").unwrap();
    let solution: Vec<FixedPoint> = vec![FixedPoint::new(2, 0, NEGATIVE)];
    assert_eq!(solve_linear(&polynomial.coefficients).unwrap(), Some(solution));
}

#[test]
fn test_linear_test_negative_coefficient_a() {
    let polynomial: Polynomial = Polynomial::new("-3*X + 9").unwrap();
    let solution: Vec<FixedPoint> = vec![FixedPoint::new(3, 0, POSITIVE)];
    assert_eq!(solve_linear(&polynomial.coefficients).unwrap(), Some(solution));
}

#[test]
fn test_linear_test_negative_coefficient_b() {
    let polynomial: Polynomial = Polynomial::new("4*X - 8").unwrap();
    let solution: Vec<FixedPoint> = vec![FixedPoint::new(2, 0, POSITIVE)];
    assert_eq!(solve_linear(&polynomial.coefficients).unwrap(), Some(solution));
}

#[test]
fn test_linear_test_no_solution() {
    let polynomial: Polynomial = Polynomial::new("0*X + 4").unwrap();
    assert_eq!(solve_linear(&polynomial.coefficients).unwrap(), None);
}

#[test]
fn test_linear_test_zero_both_coefficient() {
    let polynomial: Polynomial = Polynomial::new("0*X + 0").unwrap();
    assert_eq!(solve_linear(&polynomial.coefficients).unwrap(), None);
}

#[test]
fn test_edge_case_small_value() {
    let small: FixedPoint = FixedPoint::new_with_scale(0, 1, POSITIVE, 10_000_000_000);
    let solution: Vec<FixedPoint> = vec![FixedPoint::new(1, 0, NEGATIVE)];
    let solved: Vec<FixedPoint> = solve_linear(&vec![small, small]).unwrap().unwrap();
    assert_eq!(solved, solution);
    assert_eq!(solved[0].sign, -1);
}

#[test]
fn the_solution_of_a_linear_equation_has_its_sign() {
    let solved: Vec<FixedPoint> = solve_linear(&parser::parse_input("2*X + 4").unwrap()).unwrap().unwrap();
    assert_eq!((solved[0].integer, solved[0].decimal, solved[0].sign, solved[0].scale), (2, 0, -1, 1));

    let solved: Vec<FixedPoint> = solve_linear(&parser::parse_input("4*X = 2").unwrap()).unwrap().unwrap();
    assert_eq!((solved[0].integer, solved[0].decimal, solved[0].sign, solved[0].scale), (0, 5, 1, 10));

    let solved: Vec<FixedPoint> = solve_linear(&parser::parse_input("3*X = 0").unwrap()).unwrap().unwrap();
    assert_eq!((solved[0].integer, solved[0].decimal, solved[0].sign, solved[0].scale), (0, 0, 1, 1));
}

#[test]
fn a_zero_leading_coefficient_has_no_solution() {
    let parsed: Vec<FixedPoint> = parser::parse_input("0*X + 4").unwrap();
    assert_eq!(parsed.len(), 2);
    assert_eq!(solve_linear(&parsed).unwrap(), None);

    let constant: Vec<FixedPoint> = vec![FixedPoint::new(4, 0, POSITIVE)];
    assert_eq!(solve_linear(&constant).unwrap(), None);
    assert_eq!(solve_linear(&Vec::new()).unwrap(), None);
}

#[test]
fn a_linear_solution_can_overflow() {
    let large: FixedPoint = FixedPoint::new(i64::MAX, 0, POSITIVE);
    let small: FixedPoint = FixedPoint::new(0, 1, POSITIVE);
    assert_eq!(solve_linear(&vec![large, small]).unwrap_err(), ArithmeticError::DivisionOverflow);
}
