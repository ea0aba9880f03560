use vstd::prelude::*;
use crate::constants::math_tools_constants::SQRT_TOLERANCE;
use crate::math_tools::fixed_point::fixed_point::{FixedPoint, magnitude_of, representable};

verus! {

/// `root` is the whole part of the square root of `value`.
pub open spec fn is_floor_square_root(root: int, value: int) -> bool {
    &&& 0 <= root
    &&& root * root <= value
    &&& value < (root + 1) * (root + 1)
}

/// A number has one whole square root at most.
pub proof fn lemma_floor_square_root_is_unique(first: int, second: int, value: int)
    requires
        is_floor_square_root(first, value),
        is_floor_square_root(second, value),
    ensures
        first == second,
{
    assert(first <= second) by (nonlinear_arith)
        requires
            0 <= first,
            0 <= second,
            first * first <= value,
            value < (second + 1) * (second + 1),
    ;
    assert(second <= first) by (nonlinear_arith)
        requires
            0 <= first,
            0 <= second,
            second * second <= value,
            value < (first + 1) * (first + 1),
    ;
}

/// The mean of two numbers is no smaller than the whole square root of their
/// product.
proof fn lemma_mean_bounds_root(x: int, y: int, mean: int, value: int)
    requires
        0 <= x,
        0 <= y,
        (value < x * y && 2 * (mean + 1) >= x + y) || (value <= x * y && 2 * (mean + 1) > x + y),
    ensures
        (mean + 1) * (mean + 1) > value,
{
    let t = mean + 1;
    assert((x + y) * (x + y) >= 4 * (x * y)) by (nonlinear_arith);
    assert(4 * (t * t) >= (x + y) * (x + y)) by (nonlinear_arith)
        requires
            2 * t >= x + y,
            0 <= x + y,
    ;
    if 2 * t > x + y {
        assert(4 * (t * t) > (x + y) * (x + y)) by (nonlinear_arith)
            requires
                2 * t > x + y,
                0 <= x + y,
        ;
    }
}

/// One step of the iteration `guess -> (guess + value / guess) / 2` from a
/// guess that is no smaller than the whole square root.
proof fn lemma_newton_step(value: int, guess: int, quotient: int, next: int)
    requires
        0 < guess,
        0 <= value,
        (guess + 1) * (guess + 1) > value,
        quotient == value / guess,
        next == (guess + quotient) / 2,
    ensures
        0 <= quotient <= guess + 2,
        (next + 1) * (next + 1) > value,
        next >= guess ==> is_floor_square_root(guess, value),
        0 <= next,
{
    vstd::arithmetic::div_mod::lemma_fundamental_div_mod(value, guess);
    vstd::arithmetic::div_mod::lemma_div_pos_is_pos(value, guess);
    let rest = value % guess;
    assert(quotient <= guess + 2) by (nonlinear_arith)
        requires
            value == guess * quotient + rest,
            0 <= rest,
            value < (guess + 1) * (guess + 1),
            0 < guess,
    ;
    assert(value < guess * (quotient + 1)) by (nonlinear_arith)
        requires
            value == guess * quotient + rest,
            rest < guess,
    ;
    lemma_mean_bounds_root(guess, quotient + 1, next, value);
    if next >= guess {
        assert(guess * guess <= value) by (nonlinear_arith)
            requires
                value == guess * quotient + rest,
                0 <= rest,
                quotient >= guess,
                0 < guess,
        ;
    }
}

/// The square root of a number to fifteen digits after the point, what lies
/// below them cut off; none for a number below zero.
///
/// The root is found by the iteration `guess -> (guess + value / guess) / 2`,
/// started at `(value + 1) / 2`, which is never below the root. The guesses
/// fall until a step would shorten the guess by less than [`SQRT_TOLERANCE`].
pub fn square_root(value: FixedPoint) -> (r: Option<FixedPoint>)
    requires
        value.well_formed(),
    ensures
        value@ < 0 ==> r is None,
        value@ >= 0 ==> (r matches Some(root) && root.is_normalized() && is_floor_square_root(
            root@,
            value@ * 1_000_000_000_000_000,
        )),
{
    let units: i128 = value.to_units();
    if units < 0 {
        return None;
    } else if units == 0 {
        return Some(FixedPoint::zero());
    }
    proof {
        FixedPoint::lemma_raw_value(value);
    }
    let ghost target: int = units * 1_000_000_000_000_000;
    let mut guess: i128 = (units + 1_000_000_000_000_000) / 2;
    proof {
        lemma_mean_bounds_root(units as int, 1_000_000_000_000_000, guess as int, target);
    }
    loop
        invariant
            value.well_formed(),
            units == value@,
            0 < units,
            target == units * 1_000_000_000_000_000,
            0 < guess,
            guess <= (units + 1_000_000_000_000_000) / 2,
            representable(units as int),
            (guess + 1) * (guess + 1) > target,
        decreases guess,
    {
        let divisor: FixedPoint = FixedPoint::from_units(guess);
        proof {
            lemma_newton_step(
                target,
                guess as int,
                target / (guess as int),
                (guess + target / (guess as int)) / 2,
            );
        }
        let quotient: i128 = value.divide(&divisor).unwrap().to_units();
        let next_guess: i128 = (guess + quotient) / 2;
        if guess - next_guess < SQRT_TOLERANCE {
            return Some(divisor);
        }
        guess = next_guess;
    }
}

/// The remainder of `a` by `b` as the machine computes it: it has the sign of
/// `a`, and lies nearer to zero than `b`.
pub open spec fn truncated_remainder(a: int, b: int) -> int {
    if a >= 0 {
        a % magnitude_of(b)
    } else {
        -((-a) % magnitude_of(b))
    }
}

/// What [`gcd`] returns: the last remainder but one of the chain
/// `a, b, a rem b, b rem (a rem b), ...`, which ends at zero.
pub open spec fn euclid(a: int, b: int) -> int
    decreases magnitude_of(b),
{
    if b == 0 {
        a
    } else {
        euclid(b, truncated_remainder(a, b))
    }
}

/// `x` is a multiple of `d`.
pub open spec fn divides(d: int, x: int) -> bool {
    exists|k: int| x == #[trigger] (k * d)
}

/// A multiple of `d` is divided by `d`.
proof fn lemma_divides(d: int, x: int, k: int)
    requires
        x == k * d,
    ensures
        divides(d, x),
{
}

/// A number is some multiple of its divisor plus the remainder, and the
/// remainder lies nearer to zero than the divisor.
proof fn lemma_truncated_remainder(a: int, b: int) -> (q: int)
    requires
        b != 0,
    ensures
        a == q * b + truncated_remainder(a, b),
        magnitude_of(truncated_remainder(a, b)) < magnitude_of(b),
{
    let m = magnitude_of(b);
    let x = magnitude_of(a);
    vstd::arithmetic::div_mod::lemma_fundamental_div_mod(x, m);
    let k = x / m;
    let q = if (a >= 0) == (b >= 0) {
        k
    } else {
        -k
    };
    assert(a == q * b + truncated_remainder(a, b)) by (nonlinear_arith)
        requires
            x == m * k + x % m,
            x == magnitude_of(a),
            m == magnitude_of(b),
            q == (if (a >= 0) == (b >= 0) {
                k
            } else {
                -k
            }),
            truncated_remainder(a, b) == (if a >= 0 {
                x % m
            } else {
                -(x % m)
            }),
    ;
    q
}

/// [`euclid`] gives a common divisor of its two arguments, and every common
/// divisor of the two divides it: it is a greatest common divisor.
pub proof fn lemma_euclid_is_greatest_common_divisor(a: int, b: int)
    ensures
        divides(euclid(a, b), a),
        divides(euclid(a, b), b),
        forall|d: int| divides(d, a) && divides(d, b) ==> divides(d, #[trigger] euclid(a, b)),
    decreases magnitude_of(b),
{
    let g = euclid(a, b);
    if b == 0 {
        lemma_divides(g, a, 1);
        lemma_divides(g, b, 0);
    } else {
        let rest = truncated_remainder(a, b);
        let q = lemma_truncated_remainder(a, b);
        lemma_euclid_is_greatest_common_divisor(b, rest);
        let kb = choose|k: int| b == #[trigger] (k * g);
        let kr = choose|k: int| rest == #[trigger] (k * g);
        assert(a == (q * kb + kr) * g) by (nonlinear_arith)
            requires
                a == q * b + rest,
                b == kb * g,
                rest == kr * g,
        ;
        lemma_divides(g, a, q * kb + kr);
        assert forall|d: int| divides(d, a) && divides(d, b) implies divides(d, g) by {
            let ka = choose|k: int| a == #[trigger] (k * d);
            let kd = choose|k: int| b == #[trigger] (k * d);
            assert(rest == (ka - q * kd) * d) by (nonlinear_arith)
                requires
                    a == q * b + rest,
                    a == ka * d,
                    b == kd * d,
            ;
            lemma_divides(d, rest, ka - q * kd);
        }
    }
}

/// A greatest common divisor of two numbers, by the chain of remainders; it
/// may come out negative where an argument is.
pub fn gcd(a: i64, b: i64) -> (r: i64)
    ensures
        r == euclid(a as int, b as int),
    decreases magnitude_of(b as int),
{
    if b == 0 {
        a
    } else {
        let divisor: i128 = if b < 0 { -(b as i128) } else { b as i128 };
        let remainder: i128 = a as i128 % divisor;
        gcd(b, remainder as i64)
    }
}

/// The two numbers have no common divisor but `1` and `-1`.
pub open spec fn coprime(x: int, y: int) -> bool {
    forall|d: int| #[trigger] divides(d, x) && divides(d, y) ==> d == 1 || d == -1
}

/// Dividing two numbers by a greatest common divisor of theirs leaves two
/// numbers without a common divisor.
proof fn lemma_reduced_is_coprime(a: int, b: int, g: int, x: int, y: int)
    requires
        g != 0,
        a == x * g,
        b == y * g,
        forall|d: int| divides(d, a) && divides(d, b) ==> divides(d, g),
    ensures
        coprime(x, y),
{
    assert forall|d: int| #[trigger] divides(d, x) && divides(d, y) implies d == 1 || d == -1 by {
        let kx = choose|k: int| x == #[trigger] (k * d);
        let ky = choose|k: int| y == #[trigger] (k * d);
        assert(a == kx * (d * g)) by (nonlinear_arith)
            requires
                a == x * g,
                x == kx * d,
        ;
        assert(b == ky * (d * g)) by (nonlinear_arith)
            requires
                b == y * g,
                y == ky * d,
        ;
        lemma_divides(d * g, a, kx);
        lemma_divides(d * g, b, ky);
        assert(divides(d * g, g));
        let m = choose|m: int| g == #[trigger] (m * (d * g));
        assert(d == 1 || d == -1) by (nonlinear_arith)
            requires
                g == m * (d * g),
                g != 0,
        ;
    }
}

/// A fraction in lowest terms: the same fraction with a denominator above
/// zero and without a divisor common to numerator and denominator.
pub fn reduce_fraction(numerator: i64, denominator: i64) -> (r: (i64, i64))
    requires
        denominator != 0,
        numerator > i64::MIN,
        denominator > i64::MIN,
    ensures
        r.1 > 0,
        r.0 * denominator == numerator * r.1,
        coprime(r.0 as int, r.1 as int),
{
    let divisor: i64 = gcd(numerator, denominator);
    proof {
        lemma_euclid_is_greatest_common_divisor(numerator as int, denominator as int);
    }
    let ghost g = divisor as int;
    let ghost kn = choose|k: int| numerator == #[trigger] (k * g);
    let ghost kd = choose|k: int| denominator == #[trigger] (k * g);
    assert(g != 0) by (nonlinear_arith)
        requires
            denominator == kd * g,
            denominator != 0,
    ;
    assert(magnitude_of(g) <= magnitude_of(denominator as int)) by (nonlinear_arith)
        requires
            denominator == kd * g,
            denominator != 0,
    ;
    let size: i64 = if divisor < 0 { -divisor } else { divisor };
    let ghost sn = if g < 0 { -kn } else { kn };
    let ghost sd = if g < 0 { -kd } else { kd };
    assert(numerator == sn * size && denominator == sd * size) by (nonlinear_arith)
        requires
            numerator == kn * g,
            denominator == kd * g,
            size == magnitude_of(g),
            sn == (if g < 0 { -kn } else { kn }),
            sd == (if g < 0 { -kd } else { kd }),
    ;
    proof {
        lemma_exact_quotient(numerator as int, size as int, sn);
        lemma_exact_quotient(denominator as int, size as int, sd);
        lemma_reduced_is_coprime(numerator as int, denominator as int, g, kn, kd);
        if g < 0 {
            lemma_coprime_negated(kn, kd);
        }
        assert(sn * denominator == numerator * sd) by (nonlinear_arith)
            requires
                numerator == sn * size,
                denominator == sd * size,
        ;
    }
    let reduced_numerator: i64 = numerator / size;
    let reduced_denominator: i64 = denominator / size;

    if reduced_denominator < 0 {
        proof {
            assert((-sn) * denominator == numerator * (-sd)) by (nonlinear_arith)
                requires
                    sn * denominator == numerator * sd,
            ;
            lemma_coprime_negated(sn, sd);
        }
        (-reduced_numerator, -reduced_denominator)
    } else {
        (reduced_numerator, reduced_denominator)
    }
}

/// Two numbers without a common divisor stay so when both change sign.
proof fn lemma_coprime_negated(x: int, y: int)
    requires
        coprime(x, y),
    ensures
        coprime(-x, -y),
{
    let nx = -x;
    let ny = -y;
    assert forall|d: int| #[trigger] divides(d, nx) && divides(d, ny) implies d == 1 || d == -1 by {
        let a = choose|k: int| nx == #[trigger] (k * d);
        let b = choose|k: int| ny == #[trigger] (k * d);
        assert(x == (-a) * d && y == (-b) * d) by (nonlinear_arith)
            requires
                -x == a * d,
                -y == b * d,
        ;
        lemma_divides(d, x, -a);
        lemma_divides(d, y, -b);
    }
}

/// The machine's quotient of a multiple of `size` by `size` is the factor.
proof fn lemma_exact_quotient(value: int, size: int, factor: int)
    requires
        size > 0,
        value == factor * size,
    ensures
        value >= 0 ==> value / size == factor,
        value < 0 ==> -((-value) / size) == factor,
        magnitude_of(factor) <= magnitude_of(value),
{
    if value >= 0 {
        vstd::arithmetic::div_mod::lemma_fundamental_div_mod_converse(value, size, factor, 0);
    } else {
        assert(-value == (-factor) * size) by (nonlinear_arith)
            requires
                value == factor * size,
        ;
        vstd::arithmetic::div_mod::lemma_fundamental_div_mod_converse(-value, size, -factor, 0);
    }
    assert(magnitude_of(factor) <= magnitude_of(value)) by (nonlinear_arith)
        requires
            value == factor * size,
            size > 0,
    ;
}

} // verus!
