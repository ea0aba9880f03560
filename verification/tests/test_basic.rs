use computorv1::constants::math_tools_constants::{NEGATIVE, POSITIVE};
use computorv1::math_tools::basic::{gcd, reduce_fraction, square_root};
use computorv1::math_tools::fixed_point::fixed_point::FixedPoint;

/// The number as the nearest `f64`.
fn to_f64(number: &FixedPoint) -> f64 {
    let total: i128 = number.to_raw_value();
    total as f64 / number.scale as f64
}

/// The square root of a whole number that an `f64` holds, as an `f64`.
fn square_root_of(value: f64) -> Option<f64> {
    let number: FixedPoint = FixedPoint::new(value as i64, 0, POSITIVE);
    square_root(number).map(|root| to_f64(&root))
}

#[test]
fn tests_test_square_root() {
    assert_eq!(square_root_of(25.0), Some(5.0));
    assert_eq!(square_root_of(9.0), Some(3.0));
    assert_eq!(square_root_of(4.0), Some(2.0));
    assert_eq!(square_root_of(0.0), Some(0.0));
    assert_eq!(square_root_of(-1.0), None);
    assert_eq!(square_root_of(-100.0), None);
    assert_eq!(square_root_of(1e10), Some(100000.0));
}

#[test]
fn test_basic_test_square_root() {
    let zero: FixedPoint = FixedPoint::new(0, 0, POSITIVE);
    assert_eq!(square_root(FixedPoint::new(25, 0, POSITIVE)), Some(FixedPoint::new(5, 0, POSITIVE)));
    assert_eq!(square_root(FixedPoint::new(9, 0, POSITIVE)), Some(FixedPoint::new(3, 0, POSITIVE)));
    assert_eq!(square_root(FixedPoint::new(4, 0, POSITIVE)), Some(FixedPoint::new(2, 0, POSITIVE)));
    assert_eq!(square_root(zero), Some(zero));
    assert_eq!(square_root(FixedPoint::new(1, 0, NEGATIVE)), None);
    assert_eq!(square_root(FixedPoint::new(100, 0, NEGATIVE)), None);
    assert_eq!(square_root(FixedPoint::new(17, 64, POSITIVE)), Some(FixedPoint::new(4, 2, POSITIVE)));
    assert_eq!(square_root(FixedPoint::new(1, 69, POSITIVE)), Some(FixedPoint::new(1, 3, POSITIVE)));
}

#[test]
fn test_square_root_positive_values() {
    assert_eq!(square_root_of(25.0).unwrap(), 5.0);
    assert_eq!(square_root_of(9.0).unwrap(), 3.0);
    assert_eq!(square_root_of(4.0).unwrap(), 2.0);
    assert_eq!(square_root_of(0.0).unwrap(), 0.0);
    assert_eq!(square_root_of(1e10).unwrap(), 100000.0);
}

#[test]
fn square_root_cuts_off_below_the_fifteenth_digit() {
    let root: FixedPoint = square_root(FixedPoint::new(2, 0, POSITIVE)).unwrap();
    assert_eq!((root.integer, root.decimal, root.sign, root.scale), (1, 414213562373095, 1, 1_000_000_000_000_000));

    let root: FixedPoint = square_root(FixedPoint::new(3, 0, POSITIVE)).unwrap();
    assert_eq!((root.integer, root.decimal), (1, 732050807568877));

    let root: FixedPoint = square_root(FixedPoint::new(0, 25, POSITIVE)).unwrap();
    assert_eq!((root.integer, root.decimal, root.scale), (0, 5, 10));
}

#[test]
fn square_root_of_the_smallest_and_of_the_largest_number() {
    let smallest: FixedPoint = FixedPoint::from_units(1);
    let root: FixedPoint = square_root(smallest).unwrap();
    // The root of 10^-15 is 3.16227766...e-8.
    assert_eq!(root.to_units(), 31_622_776);

    let largest: FixedPoint = FixedPoint::new(i64::MAX, 999_999_999_999_999, POSITIVE);
    let root: FixedPoint = square_root(largest).unwrap();
    assert_eq!(root.integer, 3_037_000_499);
    assert_eq!(root.decimal, 976_049_692_451_388);
}

#[test]
fn square_root_of_a_negative_number_is_none() {
    assert_eq!(square_root(FixedPoint::new(0, 1, NEGATIVE)), None);
}

#[test]
fn gcd_follows_the_chain_of_remainders() {
    assert_eq!(gcd(12, 18), 6);
    assert_eq!(gcd(18, 12), 6);
    assert_eq!(gcd(17, 5), 1);
    assert_eq!(gcd(0, 9), 9);
    assert_eq!(gcd(9, 0), 9);
    assert_eq!(gcd(0, 0), 0);
    assert_eq!(gcd(4, -6), -2);
    assert_eq!(gcd(-4, 6), 2);
    assert_eq!(gcd(-12, -18), -6);
    assert_eq!(gcd(i64::MIN, -1), -1);
    assert_eq!(gcd(25000, 10000), 5000);
}

#[test]
fn reduce_fraction_gives_lowest_terms() {
    assert_eq!(reduce_fraction(500_000, 1_000_000), (1, 2));
    assert_eq!(reduce_fraction(-250_000, 1_000_000), (-1, 4));
    assert_eq!(reduce_fraction(250_000, -1_000_000), (-1, 4));
    assert_eq!(reduce_fraction(-6, -4), (3, 2));
    assert_eq!(reduce_fraction(0, 7), (0, 1));
    assert_eq!(reduce_fraction(0, -7), (0, 1));
    assert_eq!(reduce_fraction(7, 13), (7, 13));
    assert_eq!(reduce_fraction(i64::MAX, i64::MAX), (1, 1));
}
