use computorv1::constants::math_tools_constants::{NEGATIVE, POSITIVE};
use computorv1::math_tools::fixed_point::fixed_point::FixedPoint;
use computorv1::parser;

fn fields(number: &FixedPoint) -> (i64, i64, i64, i64) {
    (number.integer, number.decimal, number.sign, number.scale)
}

/// The number as the nearest `f64`.
fn to_f64(number: &FixedPoint) -> f64 {
    let total: i128 = number.to_raw_value();
    total as f64 / number.scale as f64
}

fn samples() -> Vec<FixedPoint> {
    vec![
        FixedPoint::new(0, 0, POSITIVE),
        FixedPoint::new(1, 0, POSITIVE),
        FixedPoint::new(1, 500, POSITIVE),
        FixedPoint::new(3, 25, NEGATIVE),
        FixedPoint::new(0, 1, NEGATIVE),
        FixedPoint::new(12, 125, POSITIVE),
        FixedPoint::new(-7, 0, POSITIVE),
        FixedPoint::new(999_999_999, 999_999_999, POSITIVE),
        FixedPoint::new(0, 123_456_789_012_345, POSITIVE),
    ]
}

#[test]
fn new_builds_a_number_again_from_its_fields() {
    for v in samples() {
        let again: FixedPoint = FixedPoint::new(v.integer, v.decimal, v.sign);
        assert!(v == again);
        assert_eq!(fields(&v), fields(&again));
    }
}

#[test]
fn the_nearest_float_is_within_a_billionth() {
    let cases: Vec<(FixedPoint, f64)> = vec![
        (FixedPoint::new(1, 500, POSITIVE), 1.5),
        (FixedPoint::new(3, 25, NEGATIVE), -3.25),
        (FixedPoint::new(999_999_999, 999_999_999, POSITIVE), 999_999_999.999_999_999),
        (FixedPoint::new(0, 333_333_333_333_333, POSITIVE), 1.0 / 3.0),
        (FixedPoint::new(0, 0, POSITIVE), 0.0),
    ];
    for (number, expected) in cases {
        assert!((to_f64(&number) - expected).abs() <= 1e-9);
    }
}

#[test]
fn addition_does_not_mind_the_order() {
    for a in samples() {
        for b in samples() {
            let left: FixedPoint = a.add(&b).unwrap();
            let right: FixedPoint = b.add(&a).unwrap();
            assert_eq!(fields(&left), fields(&right));
        }
    }
}

#[test]
fn a_difference_is_the_negation_of_the_other_difference() {
    for a in samples() {
        for b in samples() {
            let left: FixedPoint = a.subtract(&b).unwrap();
            let right: FixedPoint = b.subtract(&a).unwrap().negate();
            assert!(left == right);
            assert_eq!(fields(&left), fields(&right));
        }
    }
}

#[test]
fn any_number_times_zero_is_zero() {
    let zero: FixedPoint = FixedPoint::new(0, 0, POSITIVE);
    for a in samples() {
        assert_eq!(fields(&a.multiply(&zero).unwrap()), (0, 0, 1, 1));
        assert_eq!(fields(&zero.multiply(&a).unwrap()), (0, 0, 1, 1));
    }
    let large: FixedPoint = FixedPoint::new(i64::MAX, 999_999_999_999_999, NEGATIVE);
    assert_eq!(fields(&large.multiply(&zero).unwrap()), (0, 0, 1, 1));
}

#[test]
fn rescaling_twice_is_rescaling_once() {
    for a in samples() {
        for b in samples() {
            let (x, y): (FixedPoint, FixedPoint) = FixedPoint::scale_to_match(&a, &b);
            let (z, w): (FixedPoint, FixedPoint) = FixedPoint::scale_to_match(&x, &y);
            assert_eq!(fields(&x), fields(&z));
            assert_eq!(fields(&y), fields(&w));
        }
    }
}

#[test]
fn dividing_an_exact_product_gives_the_factor_back() {
    let pairs: Vec<(FixedPoint, FixedPoint)> = vec![
        (FixedPoint::new(1, 500, POSITIVE), FixedPoint::new(2, 0, POSITIVE)),
        (FixedPoint::new(3, 25, NEGATIVE), FixedPoint::new(4, 0, NEGATIVE)),
        (FixedPoint::new(12, 0, POSITIVE), FixedPoint::new(0, 5, NEGATIVE)),
        (FixedPoint::new(0, 0, POSITIVE), FixedPoint::new(7, 0, NEGATIVE)),
        (FixedPoint::new(0, 125, POSITIVE), FixedPoint::new(8, 0, POSITIVE)),
    ];
    for (a, b) in pairs {
        let product: FixedPoint = a.multiply(&b).unwrap();
        let quotient: FixedPoint = product.divide(&b).unwrap();
        assert_eq!(fields(&quotient), fields(&a));
    }
}

#[test]
fn dividing_a_product_gives_the_factor_back_within_a_tolerance() {
    let a: FixedPoint = FixedPoint::new(1, 3, POSITIVE);
    let b: FixedPoint = FixedPoint::new(3, 0, POSITIVE);
    let tolerance: FixedPoint = FixedPoint::new_with_scale(0, 1, POSITIVE, 1_000_000_000);
    let product: FixedPoint = a.multiply(&b).unwrap();
    let quotient: FixedPoint = product.divide(&b).unwrap();
    assert!(quotient.approx_eq(&a, &tolerance));
}

#[test]
fn to_text_writes_every_digit() {
    assert_eq!(FixedPoint::new(1, 500, POSITIVE).to_text(), "1.5");
    assert_eq!(FixedPoint::new_with_scale(1, 5, NEGATIVE, 100).to_text(), "-1.05");
    assert_eq!(FixedPoint::new(3, 0, POSITIVE).to_text(), "3");
    assert_eq!(FixedPoint::new(0, 0, POSITIVE).to_text(), "0");
    assert_eq!(FixedPoint::new(0, 1, NEGATIVE).to_text(), "-0.1");
    assert_eq!(FixedPoint::from_units(1).to_text(), "0.000000000000001");
    assert_eq!(
        FixedPoint::new(i64::MAX, 999_999_999_999_999, NEGATIVE).to_text(),
        "-9223372036854775807.999999999999999"
    );
    let unnormalized: FixedPoint = FixedPoint { integer: 10, decimal: 50, sign: 1, scale: 1000 };
    assert_eq!(unnormalized.to_text(), "10.050");
}

#[test]
fn the_text_of_a_number_is_read_back_as_that_number() {
    let mut numbers: Vec<FixedPoint> = samples();
    numbers.push(FixedPoint::new_with_scale(1, 5, NEGATIVE, 100));
    numbers.push(FixedPoint::from_units(1));
    numbers.push(FixedPoint::new(i64::MAX, 999_999_999_999_999, NEGATIVE));
    for number in numbers {
        let parsed: Vec<FixedPoint> = parser::parse_input(&number.to_text()).unwrap();
        assert_eq!(parsed.len(), 1);
        assert_eq!(fields(&parsed[0]), fields(&number));
    }
}
