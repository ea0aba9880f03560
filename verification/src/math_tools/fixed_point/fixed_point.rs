use vstd::prelude::*;
use crate::constants::math_tools_constants::{MAX_SCALE, NEGATIVE, POSITIVE};

verus! {

/// A signed decimal number: `sign * (integer + decimal / scale)`.
///
/// `scale` is a power of ten from `1` to `10^15`, and `decimal` counts the
/// digits after the point in units of `1 / scale`, so that `decimal = 5` with
/// `scale = 10` is `.5` and `decimal = 5` with `scale = 100` is `.05`.
///
/// The fields are open to read and to write. What holds of them is said by
/// two predicates: [`well_formed`](FixedPoint::well_formed), which the
/// operations ask of their operands, and
/// [`is_normalized`](FixedPoint::is_normalized), which the constructors and
/// the four arithmetic operations promise of their results. The view of a
/// number is the number in units of `10^-15`, a whole number.
#[derive(Clone, Copy, Debug)]
pub struct FixedPoint {
    pub integer: i64,
    pub decimal: i64,
    pub sign: i64,
    pub scale: i64,
}

/// The distance of `x` from zero.
pub open spec fn magnitude_of(x: int) -> int {
    if x < 0 {
        -x
    } else {
        x
    }
}

/// `scale` is one of the sixteen powers of ten from `1` to `10^15`.
pub open spec fn is_scale(scale: int) -> bool {
    ||| scale == 1
    ||| scale == 10
    ||| scale == 100
    ||| scale == 1_000
    ||| scale == 10_000
    ||| scale == 100_000
    ||| scale == 1_000_000
    ||| scale == 10_000_000
    ||| scale == 100_000_000
    ||| scale == 1_000_000_000
    ||| scale == 10_000_000_000
    ||| scale == 100_000_000_000
    ||| scale == 1_000_000_000_000
    ||| scale == 10_000_000_000_000
    ||| scale == 100_000_000_000_000
    ||| scale == 1_000_000_000_000_000
}

/// What `decimal` units of `1 / scale` are worth in units of `10^-15`:
/// `decimal * (10^15 / scale)` where `scale` is a power of ten up to `10^15`,
/// and zero for any other number, which is no scale.
#[verifier::opaque]
pub open spec fn fraction_units(decimal: int, scale: int) -> int {
    if scale == 1 {
        decimal * 1_000_000_000_000_000
    } else if scale == 10 {
        decimal * 100_000_000_000_000
    } else if scale == 100 {
        decimal * 10_000_000_000_000
    } else if scale == 1_000 {
        decimal * 1_000_000_000_000
    } else if scale == 10_000 {
        decimal * 100_000_000_000
    } else if scale == 100_000 {
        decimal * 10_000_000_000
    } else if scale == 1_000_000 {
        decimal * 1_000_000_000
    } else if scale == 10_000_000 {
        decimal * 100_000_000
    } else if scale == 100_000_000 {
        decimal * 10_000_000
    } else if scale == 1_000_000_000 {
        decimal * 1_000_000
    } else if scale == 10_000_000_000 {
        decimal * 100_000
    } else if scale == 100_000_000_000 {
        decimal * 10_000
    } else if scale == 1_000_000_000_000 {
        decimal * 1_000
    } else if scale == 10_000_000_000_000 {
        decimal * 100
    } else if scale == 100_000_000_000_000 {
        decimal * 10
    } else if scale == 1_000_000_000_000_000 {
        decimal * 1
    } else {
        0
    }
}

/// How many units of `10^-15` one unit of `1 / scale` is worth.
pub open spec fn unit(scale: int) -> int {
    fraction_units(1, scale)
}

/// The whole part of `x / scale` for a scale, and zero for any other number.
spec fn div_by_scale(x: int, scale: int) -> int {
    if scale == 1 {
        x / 1
    } else if scale == 10 {
        x / 10
    } else if scale == 100 {
        x / 100
    } else if scale == 1_000 {
        x / 1_000
    } else if scale == 10_000 {
        x / 10_000
    } else if scale == 100_000 {
        x / 100_000
    } else if scale == 1_000_000 {
        x / 1_000_000
    } else if scale == 10_000_000 {
        x / 10_000_000
    } else if scale == 100_000_000 {
        x / 100_000_000
    } else if scale == 1_000_000_000 {
        x / 1_000_000_000
    } else if scale == 10_000_000_000 {
        x / 10_000_000_000
    } else if scale == 100_000_000_000 {
        x / 100_000_000_000
    } else if scale == 1_000_000_000_000 {
        x / 1_000_000_000_000
    } else if scale == 10_000_000_000_000 {
        x / 10_000_000_000_000
    } else if scale == 100_000_000_000_000 {
        x / 100_000_000_000_000
    } else if scale == 1_000_000_000_000_000 {
        x / 1_000_000_000_000_000
    } else {
        0
    }
}

/// The scale that [`FixedPoint::new`] gives to a fraction written as the whole
/// number `decimal`: the smallest power of ten above it, and `10^15` at most.
pub open spec fn digit_scale(decimal: int) -> int {
    if decimal < 1 {
        1
    } else if decimal < 10 {
        10
    } else if decimal < 100 {
        100
    } else if decimal < 1_000 {
        1_000
    } else if decimal < 10_000 {
        10_000
    } else if decimal < 100_000 {
        100_000
    } else if decimal < 1_000_000 {
        1_000_000
    } else if decimal < 10_000_000 {
        10_000_000
    } else if decimal < 100_000_000 {
        100_000_000
    } else if decimal < 1_000_000_000 {
        1_000_000_000
    } else if decimal < 10_000_000_000 {
        10_000_000_000
    } else if decimal < 100_000_000_000 {
        100_000_000_000
    } else if decimal < 1_000_000_000_000 {
        1_000_000_000_000
    } else if decimal < 10_000_000_000_000 {
        10_000_000_000_000
    } else if decimal < 100_000_000_000_000 {
        100_000_000_000_000
    } else {
        1_000_000_000_000_000
    }
}

/// A view that a [`FixedPoint`] can hold: its whole part fits an `i64`.
pub open spec fn representable(units: int) -> bool {
    -9_223_372_036_854_775_808_000_000_000_000_000 < units
        < 9_223_372_036_854_775_808_000_000_000_000_000
}

/// The views of a sequence of numbers.
pub open spec fn views(numbers: Seq<FixedPoint>) -> Seq<int> {
    numbers.map_values(|number: FixedPoint| number@)
}

/// Every number of the sequence is written canonically.
pub open spec fn all_normalized(numbers: Seq<FixedPoint>) -> bool {
    forall|i: int| 0 <= i < numbers.len() ==> (#[trigger] numbers[i]).is_normalized()
}

/// Every number of the sequence is well formed.
pub open spec fn all_well_formed(numbers: Seq<FixedPoint>) -> bool {
    forall|i: int| 0 <= i < numbers.len() ==> (#[trigger] numbers[i]).well_formed()
}

impl View for FixedPoint {
    type V = int;

    /// The number in units of `10^-15`.
    open spec fn view(&self) -> int {
        Self::value_of(self.integer as int, self.decimal as int, self.sign as int, self.scale as int)
    }
}

impl FixedPoint {
    /// The number, in units of `10^-15`, that four fields stand for. It is
    /// negative when the sign is, and also when the whole part or the fraction
    /// is written with a minus.
    pub open spec fn value_of(integer: int, decimal: int, sign: int, scale: int) -> int {
        let magnitude = magnitude_of(integer) * 1_000_000_000_000_000 + fraction_units(
            magnitude_of(decimal),
            scale,
        );
        if integer < 0 || decimal < 0 || sign < 0 {
            -magnitude
        } else {
            magnitude
        }
    }

    /// The distance of the number from zero, in units of `10^-15`.
    pub open spec fn magnitude(&self) -> int {
        magnitude_of(self.integer as int) * 1_000_000_000_000_000 + fraction_units(
            magnitude_of(self.decimal as int),
            self.scale as int,
        )
    }

    /// The fields describe a number: the scale is a power of ten up to
    /// `10^15`, the fraction is below it, nothing but the sign is negative,
    /// and the sign is `1` or `-1`.
    pub open spec fn well_formed(&self) -> bool {
        &&& is_scale(self.scale as int)
        &&& 0 <= self.integer
        &&& 0 <= self.decimal < self.scale
        &&& (self.sign == POSITIVE || self.sign == NEGATIVE)
    }

    /// The fields are the one canonical way to write the number: the fraction
    /// has no trailing zero digit, and zero is positive.
    pub open spec fn is_normalized(&self) -> bool {
        &&& self.well_formed()
        &&& (self.scale == 1 || self.decimal % 10 != 0)
        &&& (self.integer == 0 && self.decimal == 0 ==> self.sign == POSITIVE)
    }

    /// A fraction is worth as many units of `10^-15` as it counts, times what
    /// one unit of its scale is worth.
    pub proof fn lemma_fraction_units_is_product(decimal: int, scale: int)
        requires
            is_scale(scale),
        ensures
            fraction_units(decimal, scale) == decimal * unit(scale),
            unit(scale) * scale == 1_000_000_000_000_000,
            1 <= unit(scale) <= 1_000_000_000_000_000,
            1 <= scale <= 1_000_000_000_000_000,
    {
        reveal(fraction_units);
    }

    /// Two numbers that are written canonically and have the same view are
    /// the same in every field.
    pub proof fn lemma_normalized_is_unique(a: FixedPoint, b: FixedPoint)
        requires
            a.is_normalized(),
            b.is_normalized(),
            a@ == b@,
        ensures
            a == b,
    {
        reveal(fraction_units);
        let fa = fraction_units(a.decimal as int, a.scale as int);
        let fb = fraction_units(b.decimal as int, b.scale as int);
        assert(0 <= fa < 1_000_000_000_000_000);
        assert(0 <= fb < 1_000_000_000_000_000);
        assert(a.integer == b.integer);
        assert(fa == fb);
        assert(a.scale == b.scale);
    }

    /// Every view within range is the view of a canonical number.
    pub proof fn lemma_canonical_exists(units: int) -> (r: FixedPoint)
        requires
            representable(units),
        ensures
            r.is_normalized(),
            r@ == units,
    {
        reveal(fraction_units);
        let m = magnitude_of(units);
        let whole = m / 1_000_000_000_000_000;
        let rest = m % 1_000_000_000_000_000;
        let sign = if units < 0 { NEGATIVE } else { POSITIVE };
        let (decimal, scale) = Self::stripped(rest, 1_000_000_000_000_000);
        Self::lemma_stripped(rest, 1_000_000_000_000_000);
        FixedPoint {
            integer: whole as i64,
            decimal: decimal as i64,
            sign,
            scale: scale as i64,
        }
    }

    /// A fraction and its scale after the trailing zero digits of the fraction
    /// are dropped; a fraction of zero ends at scale `1`.
    pub open spec fn stripped(decimal: int, scale: int) -> (int, int)
        decreases scale,
    {
        if scale > 1 && decimal % 10 == 0 {
            Self::stripped(decimal / 10, scale / 10)
        } else {
            (decimal, scale)
        }
    }

    /// Dropping trailing zeros keeps the worth of the fraction and ends in the
    /// canonical way to write it.
    pub proof fn lemma_stripped(decimal: int, scale: int)
        requires
            is_scale(scale),
            0 <= decimal < scale,
        ensures
            is_scale(Self::stripped(decimal, scale).1),
            0 <= Self::stripped(decimal, scale).0 < Self::stripped(decimal, scale).1,
            Self::stripped(decimal, scale).1 <= scale,
            fraction_units(Self::stripped(decimal, scale).0, Self::stripped(decimal, scale).1)
                == fraction_units(decimal, scale),
            Self::stripped(decimal, scale).1 == 1 || Self::stripped(decimal, scale).0 % 10 != 0,
        decreases scale,
    {
        reveal(fraction_units);
        if scale > 1 && decimal % 10 == 0 {
            Self::lemma_stripped(decimal / 10, scale / 10);
        }
    }

    /// The canonical number with the view `units`.
    pub open spec fn canonical(units: int) -> FixedPoint {
        choose|r: FixedPoint| r.is_normalized() && r@ == units
    }

    /// The canonical number of a view within range is canonical and has that
    /// view.
    pub proof fn lemma_canonical_view(units: int)
        requires
            representable(units),
        ensures
            Self::canonical(units).is_normalized(),
            Self::canonical(units)@ == units,
    {
        let _ = Self::lemma_canonical_exists(units);
    }

    /// What [`new`](FixedPoint::new) returns: the canonical number that
    /// `sign * (integer + 0.decimal)` is.
    pub open spec fn constructed(integer: int, decimal: int, sign: int) -> FixedPoint {
        Self::canonical(
            Self::value_of(integer, decimal, sign, digit_scale(magnitude_of(decimal))),
        )
    }

    /// A canonical number is the canonical number of its view.
    pub proof fn lemma_canonical(r: FixedPoint)
        requires
            r.is_normalized(),
        ensures
            r == Self::canonical(r@),
    {
        Self::lemma_normalized_is_unique(r, Self::canonical(r@));
    }

    /// Builds the number `sign * (integer + 0.decimal)`, where the digits of
    /// `decimal` are read as the digits after the point: `new(1, 500, 1)` is
    /// `1.5`. A minus on `integer` or on `decimal` makes the number negative
    /// whatever `sign` says, and a `sign` below zero does so too.
    pub fn new(integer: i64, decimal: i64, sign: i64) -> (r: FixedPoint)
        requires
            integer > i64::MIN,
            -MAX_SCALE < decimal < MAX_SCALE,
        ensures
            r == Self::constructed(integer as int, decimal as int, sign as int),
            r.is_normalized(),
            r@ == Self::value_of(
                integer as int,
                decimal as int,
                sign as int,
                digit_scale(magnitude_of(decimal as int)),
            ),
    {
        let mut scale: i64 = 1;
        let mut temp_decimal: i64 = decimal;

        while temp_decimal != 0 && scale < MAX_SCALE
            invariant
                is_scale(scale as int),
                -MAX_SCALE < decimal < MAX_SCALE,
                magnitude_of(temp_decimal as int) == div_by_scale(
                    magnitude_of(decimal as int),
                    scale as int,
                ),
                scale == 1 || magnitude_of(decimal as int) >= scale / 10,
            decreases MAX_SCALE - scale,
        {
            temp_decimal = temp_decimal / 10;
            scale = scale * 10;
        }
        Self::new_with_scale(integer, decimal, sign, scale)
    }

    /// Builds the number `sign * (integer + decimal / scale)` and writes it
    /// canonically. A minus on `integer` or on `decimal` makes the number
    /// negative whatever `sign` says, and a `sign` below zero does so too.
    pub fn new_with_scale(integer: i64, decimal: i64, sign: i64, scale: i64) -> (r: FixedPoint)
        requires
            integer > i64::MIN,
            is_scale(scale as int),
            -scale < decimal < scale,
        ensures
            r == Self::canonical(
                Self::value_of(integer as int, decimal as int, sign as int, scale as int),
            ),
            r.is_normalized(),
            r@ == Self::value_of(integer as int, decimal as int, sign as int, scale as int),
    {
        let mut integer: i64 = integer;
        let mut decimal: i64 = decimal;
        let mut sign: i64 = if sign < 0 { NEGATIVE } else { POSITIVE };

        if integer == 0 && decimal == 0 {
            sign = POSITIVE;
        } else if integer < 0 || decimal < 0 {
            sign = NEGATIVE;
            integer = if integer < 0 { -integer } else { integer };
            decimal = if decimal < 0 { -decimal } else { decimal };
        }
        let mut r = FixedPoint { integer, decimal, sign, scale };
        r.trim_ending_zeros();
        proof {
            reveal(fraction_units);
            Self::lemma_canonical(r);
        }
        r
    }

    /// The number zero.
    pub fn zero() -> (r: FixedPoint)
        ensures
            r == (FixedPoint { integer: 0, decimal: 0, sign: POSITIVE, scale: 1 }),
            r.is_normalized(),
            r@ == 0,
    {
        proof {
            Self::lemma_fraction_units_is_product(0, 1);
        }
        FixedPoint { integer: 0, decimal: 0, sign: POSITIVE, scale: 1 }
    }
}

} // verus!
