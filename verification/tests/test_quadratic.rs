use computorv1::constants::math_tools_constants::{NEGATIVE, POSITIVE};
use computorv1::errors::{ArithmeticError, ParseError, SolveError};
use computorv1::math_tools::fixed_point::fixed_point::FixedPoint;
use computorv1::math_tools::polynomial::Polynomial;
use computorv1::solvers::quadratic::{
    complex_roots, discriminant, quadratic_roots, solve_quadratic,
};

fn fields(number: &FixedPoint) -> (i64, i64, i64, i64) {
    (number.integer, number.decimal, number.sign, number.scale)
}

#[test]
fn test_quadratic_test_no_solution() {
    let polynomials: Vec<Polynomial> = vec![
        Polynomial::new("X^2 + 1").unwrap(),
        Polynomial::new("2*X^2 + 4").unwrap(),
        Polynomial::new("3*X^2 + 5").unwrap(),
        Polynomial::new("X^2 + 2").unwrap(),
        Polynomial::new("4*X^2 + 9").unwrap(),
        Polynomial::new("X^2 + 4*X + 5").unwrap(),
        Polynomial::new("2*X^2 - 3*X + 7").unwrap(),
        Polynomial::new("X^2 + X + 1").unwrap(),
        Polynomial::new("5*X^2 - 2*X + 8").unwrap(),
        Polynomial::new("3*X^2 + X + 4").unwrap(),
        Polynomial::new("X^2 + 6*X + 10").unwrap(),
        Polynomial::new("4*X^2 + 5*X + 9").unwrap(),
        Polynomial::new("X^2 - X + 2").unwrap(),
        Polynomial::new("6*X^2 + 2*X + 3").unwrap(),
        Polynomial::new("X^2 + 2*X + 3").unwrap(),
    ];

    for poly in polynomials {
        let solutions: Option<Vec<FixedPoint>> = solve_quadratic(&poly.coefficients).unwrap();
        assert!(matches!(solutions, None));
    }
}

#[test]
fn test_quadratic_test_one_solution() {
    let polynomials: Vec<Polynomial> = vec![
        Polynomial::new("X^2 - 2*X + 1").unwrap(),
        Polynomial::new("X^2 + 4*X + 4").unwrap(),
        Polynomial::new("X^2 - 6*X + 9").unwrap(),
        Polynomial::new("4*X^2 - 4*X + 1").unwrap(),
        Polynomial::new("9*X^2 - 12*X + 4").unwrap(),
        Polynomial::new("X^2 - 10*X + 25").unwrap(),
        Polynomial::new("16*X^2 - 8*X + 1").unwrap(),
        Polynomial::new("25*X^2 - 20*X + 4").unwrap(),
        Polynomial::new("36*X^2 + 12*X + 1").unwrap(),
    ];

    let expected: Vec<Vec<FixedPoint>> = vec![
        vec![FixedPoint::new(1, 0, POSITIVE)],
        vec![FixedPoint::new(-2, 0, POSITIVE)],
        vec![FixedPoint::new(3, 0, POSITIVE)],
        vec![FixedPoint::new(0, 5, NEGATIVE)],
        vec![FixedPoint::new(0, 666666666666666, POSITIVE)],
        vec![FixedPoint::new(5, 0, POSITIVE)],
        vec![FixedPoint::new(0, 25, POSITIVE)],
        vec![FixedPoint::new(0, 4, POSITIVE)],
        vec![FixedPoint::new(0, 166666666666666, NEGATIVE)],
    ];

    for (poly, exp) in polynomials.into_iter().zip(expected.into_iter()) {
        let solutions: Option<Vec<FixedPoint>> = solve_quadratic(&poly.coefficients).unwrap();

        if let Some(sols) = solutions {
            assert_eq!(sols.len(), exp.len(), "Expected one solution.");
            for expected_sol in &exp {
                assert!(
                    sols.contains(expected_sol),
                    "Expected solution: {:?} (got {:?})",
                    expected_sol,
                    sols[0]
                );
            }
        } else {
            panic!("Expected a solution, but got None.");
        }
    }
}

#[test]
fn test_quadratic_test_two_solutions() {
    let polynomials: Vec<Polynomial> = vec![
        Polynomial::new("X^2 - 5*X + 4").unwrap(),
        Polynomial::new("X^2 - 5*X + 6").unwrap(),
        Polynomial::new("X^2 + 3*X - 4").unwrap(),
        Polynomial::new("2*X^2 - 7*X + 3").unwrap(),
        Polynomial::new("X^2 - 4*X - 12").unwrap(),
        Polynomial::new("3*X^2 + 2*X - 8").unwrap(),
        Polynomial::new("X^2 - 3*X - 10").unwrap(),
        Polynomial::new("X^2 + 6*X + 5").unwrap(),
        Polynomial::new("4*X^2 - 4*X - 8").unwrap(),
        Polynomial::new("5*X^2 - 4*X - 9").unwrap(),
        Polynomial::new("3*X^2 - 11*X + 6").unwrap(),
    ];

    let expected: Vec<Vec<FixedPoint>> = vec![
        vec![FixedPoint::new(1, 0, POSITIVE), FixedPoint::new(4, 0, POSITIVE)],
        vec![FixedPoint::new(2, 0, POSITIVE), FixedPoint::new(3, 0, POSITIVE)],
        vec![FixedPoint::new(1, 0, NEGATIVE), FixedPoint::new(4, 0, POSITIVE)],
        vec![FixedPoint::new(0, 5, POSITIVE), FixedPoint::new(3, 0, POSITIVE)],
        vec![FixedPoint::new(6, 0, POSITIVE), FixedPoint::new(2, 0, POSITIVE)],
        vec![FixedPoint::new(2, 0, NEGATIVE), FixedPoint::new(1, 333333333333333, POSITIVE)],
        vec![FixedPoint::new(5, 0, POSITIVE), FixedPoint::new(2, 0, POSITIVE)],
        vec![FixedPoint::new(1, 0, NEGATIVE), FixedPoint::new(5, 0, POSITIVE)],
        vec![FixedPoint::new(1, 0, NEGATIVE), FixedPoint::new(2, 0, POSITIVE)],
        vec![FixedPoint::new(1, 8, NEGATIVE), FixedPoint::new(1, 0, POSITIVE)],
        vec![FixedPoint::new(0, 666666666666666, NEGATIVE), FixedPoint::new(3, 0, POSITIVE)],
    ];

    for (poly, exp) in polynomials.into_iter().zip(expected.into_iter()) {
        let solutions: Option<Vec<FixedPoint>> = solve_quadratic(&poly.coefficients).unwrap();

        if let Some(sols) = solutions {
            assert_eq!(sols.len(), exp.len(), "Expected two solutions.");
            for expected_sol in &exp {
                assert!(
                    sols.contains(expected_sol),
                    "Expected solutions: {:?}, but got {:?}.",
                    expected_sol,
                    sols,
                );
            }
        } else {
            panic!("Expected two solutions, but got None.");
        }
    }
}

#[test]
fn test_no_real_solutions() {
    let polynomials: Vec<Vec<f64>> = vec![
        vec![1.0, 0.0, 1.0],
        vec![4.0, 0.0, 2.0],
        vec![5.0, 0.0, 3.0],
        vec![2.0, 0.0, 1.0],
        vec![9.0, 0.0, 4.0],
        vec![5.0, 4.0, 1.0],
        vec![7.0, -3.0, 2.0],
        vec![1.0, 1.0, 1.0],
        vec![8.0, -2.0, 5.0],
        vec![4.0, 1.0, 3.0],
        vec![10.0, 6.0, 1.0],
        vec![9.0, 5.0, 4.0],
        vec![2.0, -1.0, 1.0],
        vec![3.0, 2.0, 6.0],
        vec![3.0, 2.0, 1.0],
    ];

    for poly in polynomials.into_iter() {
        let coefficients: Vec<FixedPoint> =
            poly.iter().map(|value| FixedPoint::new(*value as i64, 0, POSITIVE)).collect();
        assert!(matches!(solve_quadratic(&coefficients).unwrap(), None));
        let delta: FixedPoint =
            discriminant(&coefficients[2], &coefficients[1], &coefficients[0]).unwrap();
        let solutions: Option<Vec<FixedPoint>> =
            complex_roots(&coefficients[2], &coefficients[1], &delta).ok();

        if let Some(solutions) = solutions {
            assert_eq!(solutions.len(), 2);
            assert!(solutions[1].to_units() > 0)
        } else {
            panic!("Expected complex solutions, but got None.");
        }
    }
}

#[test]
fn complex_roots_are_a_real_and_an_imaginary_part() {
    let a: FixedPoint = FixedPoint::new(1, 0, POSITIVE);
    let b: FixedPoint = FixedPoint::new(2, 0, POSITIVE);
    let delta: FixedPoint = FixedPoint::new(16, 0, NEGATIVE);
    let parts: Vec<FixedPoint> = complex_roots(&a, &b, &delta).unwrap();
    assert_eq!(fields(&parts[0]), (1, 0, -1, 1));
    assert_eq!(fields(&parts[1]), (2, 0, 1, 1));

    let a: FixedPoint = FixedPoint::new(2, 0, NEGATIVE);
    let parts: Vec<FixedPoint> = complex_roots(&a, &b, &delta).unwrap();
    assert_eq!(fields(&parts[0]), (0, 5, 1, 10));
    assert_eq!(fields(&parts[1]), (1, 0, -1, 1));
}

#[test]
fn large_coefficients_overflow_in_the_discriminant() {
    let polynomial: Polynomial =
        Polynomial::new("100000000*X^2 - 10000000000*X + 100000000").unwrap();
    assert_eq!(
        solve_quadratic(&polynomial.coefficients).unwrap_err(),
        ArithmeticError::MultiplicationOverflow
    );
    let a: FixedPoint = polynomial.coefficients[2];
    let b: FixedPoint = polynomial.coefficients[1];
    let c: FixedPoint = polynomial.coefficients[0];
    assert_eq!(discriminant(&a, &b, &c).unwrap_err(), ArithmeticError::MultiplicationOverflow);

    let mut polynomial: Polynomial = polynomial;
    assert_eq!(
        polynomial.solve().unwrap_err(),
        SolveError::Arithmetic(ArithmeticError::MultiplicationOverflow)
    );
    assert!(polynomial.discriminant.is_none());
    assert!(polynomial.solutions.is_none());
}

#[test]
fn the_two_roots_come_in_order_and_with_their_signs() {
    let polynomial: Polynomial = Polynomial::new("X^2 + 3*X - 4").unwrap();
    let roots: Vec<FixedPoint> = solve_quadratic(&polynomial.coefficients).unwrap().unwrap();
    assert_eq!(fields(&roots[0]), (4, 0, -1, 1));
    assert_eq!(fields(&roots[1]), (1, 0, 1, 1));

    let polynomial: Polynomial = Polynomial::new("X^2 - 5*X + 4").unwrap();
    let roots: Vec<FixedPoint> = solve_quadratic(&polynomial.coefficients).unwrap().unwrap();
    assert_eq!(fields(&roots[0]), (1, 0, 1, 1));
    assert_eq!(fields(&roots[1]), (4, 0, 1, 1));

    let polynomial: Polynomial = Polynomial::new("X^2 = 2").unwrap();
    let roots: Vec<FixedPoint> = solve_quadratic(&polynomial.coefficients).unwrap().unwrap();
    assert_eq!(fields(&roots[0]), (1, 414213562373095, -1, 1_000_000_000_000_000));
    assert_eq!(fields(&roots[1]), (1, 414213562373095, 1, 1_000_000_000_000_000));
}

#[test]
fn the_discriminant_is_b_squared_minus_four_a_c() {
    let a: FixedPoint = FixedPoint::new(1, 0, POSITIVE);
    let b: FixedPoint = FixedPoint::new(5, 0, NEGATIVE);
    let c: FixedPoint = FixedPoint::new(4, 0, POSITIVE);
    assert_eq!(fields(&discriminant(&a, &b, &c).unwrap()), (9, 0, 1, 1));

    let c: FixedPoint = FixedPoint::new(7, 0, POSITIVE);
    assert_eq!(fields(&discriminant(&a, &b, &c).unwrap()), (3, 0, -1, 1));

    let a: FixedPoint = FixedPoint::new(0, 5, POSITIVE);
    let b: FixedPoint = FixedPoint::new(1, 5, POSITIVE);
    let c: FixedPoint = FixedPoint::new(0, 25, POSITIVE);
    // 1.5 * 1.5 is 2.2 at one digit; 0.5 * 0.25 is 0.12 at two; times four is 0.48.
    assert_eq!(fields(&discriminant(&a, &b, &c).unwrap()), (1, 72, 1, 100));
}

#[test]
fn quadratic_roots_by_the_sign_of_the_discriminant() {
    let a: FixedPoint = FixedPoint::new(1, 0, POSITIVE);
    let b: FixedPoint = FixedPoint::new(2, 0, NEGATIVE);

    let below: FixedPoint = FixedPoint::new(4, 0, NEGATIVE);
    assert_eq!(quadratic_roots(&a, &b, &below).unwrap(), None);

    let zero: FixedPoint = FixedPoint::zero();
    let roots: Vec<FixedPoint> = quadratic_roots(&a, &b, &zero).unwrap().unwrap();
    assert_eq!(roots.len(), 1);
    assert_eq!(fields(&roots[0]), (1, 0, 1, 1));

    let above: FixedPoint = FixedPoint::new(16, 0, POSITIVE);
    let roots: Vec<FixedPoint> = quadratic_roots(&a, &b, &above).unwrap().unwrap();
    assert_eq!(roots.len(), 2);
    assert_eq!(fields(&roots[0]), (1, 0, -1, 1));
    assert_eq!(fields(&roots[1]), (3, 0, 1, 1));
}

#[test]
fn twice_a_can_overflow() {
    let a: FixedPoint = FixedPoint::new(i64::MAX, 0, POSITIVE);
    let b: FixedPoint = FixedPoint::new(2, 0, NEGATIVE);
    let zero: FixedPoint = FixedPoint::zero();
    assert_eq!(quadratic_roots(&a, &b, &zero).unwrap_err(), ArithmeticError::AdditionOverflow);
}

#[test]
fn polynomial_new_drops_the_zeros_above_the_degree() {
    let polynomial: Polynomial = Polynomial::new("0*X^4 + 3*X^2 = 3*X^2 + 2*X - 1").unwrap();
    assert_eq!(polynomial.degree, 1);
    assert_eq!(polynomial.coefficients.len(), 2);
    assert_eq!(fields(&polynomial.coefficients[0]), (1, 0, 1, 1));
    assert_eq!(fields(&polynomial.coefficients[1]), (2, 0, -1, 1));
    assert!(polynomial.discriminant.is_none());
    assert!(polynomial.solutions.is_none());

    let polynomial: Polynomial = Polynomial::new("0*X + 4").unwrap();
    assert_eq!(polynomial.degree, 0);
    assert_eq!(polynomial.coefficients.len(), 1);

    let polynomial: Polynomial = Polynomial::new("X = X").unwrap();
    assert_eq!(polynomial.degree, 0);
    assert_eq!(fields(&polynomial.coefficients[0]), (0, 0, 1, 1));

    assert_eq!(Polynomial::new("").err(), Some(ParseError::EmptyInput));
}

#[test]
fn get_polynomial_degree_keeps_the_constant() {
    let zero: FixedPoint = FixedPoint::zero();
    let one: FixedPoint = FixedPoint::new(1, 0, POSITIVE);

    let mut coefficients: Vec<FixedPoint> = vec![zero, one, zero, zero];
    assert_eq!(Polynomial::get_polynomial_degree(&mut coefficients), 1);
    assert_eq!(coefficients.len(), 2);

    let mut coefficients: Vec<FixedPoint> = vec![zero, zero, zero];
    assert_eq!(Polynomial::get_polynomial_degree(&mut coefficients), 0);
    assert_eq!(coefficients.len(), 1);

    let mut coefficients: Vec<FixedPoint> = vec![one, zero, one];
    assert_eq!(Polynomial::get_polynomial_degree(&mut coefficients), 2);
    assert_eq!(coefficients.len(), 3);
}

#[test]
fn solve_by_degree() {
    let mut identity: Polynomial = Polynomial::new("3 = 3").unwrap();
    assert!(identity.holds_for_every_number());
    assert_eq!(identity.solve(), Ok(()));
    assert!(identity.solutions.is_none());
    assert!(identity.discriminant.is_none());

    let mut contradiction: Polynomial = Polynomial::new("0*X + 4").unwrap();
    assert!(!contradiction.holds_for_every_number());
    assert_eq!(contradiction.solve(), Ok(()));
    assert!(contradiction.solutions.is_none());

    let mut linear: Polynomial = Polynomial::new("2*X + 4").unwrap();
    assert_eq!(linear.degree, 1);
    assert_eq!(linear.solve(), Ok(()));
    assert!(linear.discriminant.is_none());
    let solutions: Vec<FixedPoint> = linear.solutions.unwrap();
    assert_eq!(solutions.len(), 1);
    assert_eq!(fields(&solutions[0]), (2, 0, -1, 1));

    let mut double_root: Polynomial = Polynomial::new("X^2 - 2*X + 1").unwrap();
    assert_eq!(double_root.degree, 2);
    assert_eq!(double_root.solve(), Ok(()));
    assert_eq!(fields(&double_root.discriminant.unwrap()), (0, 0, 1, 1));
    let solutions: Vec<FixedPoint> = double_root.solutions.unwrap();
    assert_eq!(solutions.len(), 1);
    assert_eq!(fields(&solutions[0]), (1, 0, 1, 1));

    let mut two_roots: Polynomial = Polynomial::new("X^2 - 5*X + 4").unwrap();
    assert_eq!(two_roots.solve(), Ok(()));
    assert_eq!(fields(&two_roots.discriminant.unwrap()), (9, 0, 1, 1));
    let solutions: Vec<FixedPoint> = two_roots.solutions.unwrap();
    assert_eq!(solutions.len(), 2);
    assert_eq!(fields(&solutions[0]), (1, 0, 1, 1));
    assert_eq!(fields(&solutions[1]), (4, 0, 1, 1));

    let mut no_real_root: Polynomial = Polynomial::new("X^2 + 1").unwrap();
    assert_eq!(no_real_root.solve(), Ok(()));
    assert_eq!(fields(&no_real_root.discriminant.unwrap()), (4, 0, -1, 1));
    assert_eq!(no_real_root.solutions, Some(Vec::new()));

    let mut cubic: Polynomial = Polynomial::new("X^3 = 1").unwrap();
    assert_eq!(cubic.degree, 3);
    assert_eq!(cubic.solve(), Err(SolveError::UnsupportedDegree));
    assert!(cubic.solutions.is_none());
}
