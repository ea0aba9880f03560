use vstd::prelude::*;
use vstd::string::*;
use crate::errors::ParseFailure;
use crate::math_tools::fixed_point::fixed_point::{FixedPoint, fraction_units, is_scale};
use crate::parser::grammar::{
    after,
    all_digits,
    before,
    coefficient_of,
    digit_value,
    is_digit,
    is_literal,
    number_of,
    position_of,
    pow10,
    sign_of,
    term_of,
    without_trailing_zeros,
};
use crate::parser::tools::lemma_position_of;

verus! {

/// The character that writes a digit.
pub open spec fn digit_char(digit: int) -> char {
    if digit == 0 {
        '0'
    } else if digit == 1 {
        '1'
    } else if digit == 2 {
        '2'
    } else if digit == 3 {
        '3'
    } else if digit == 4 {
        '4'
    } else if digit == 5 {
        '5'
    } else if digit == 6 {
        '6'
    } else if digit == 7 {
        '7'
    } else if digit == 8 {
        '8'
    } else {
        '9'
    }
}

/// The digits that write a number, the highest first, without leading zeros.
pub open spec fn digits_of(number: nat) -> Seq<char>
    decreases number,
{
    if number < 10 {
        seq![digit_char(number as int)]
    } else {
        digits_of(number / 10).push(digit_char((number % 10) as int))
    }
}

/// The last `width` digits of a number, the highest first, with zeros in
/// front where the number is short of them.
pub open spec fn padded_digits_of(number: nat, width: nat) -> Seq<char>
    decreases width,
{
    if width == 0 {
        Seq::empty()
    } else {
        padded_digits_of(number / 10, (width - 1) as nat).push(digit_char((number % 10) as int))
    }
}

/// How many digits stand after the point at a scale: as many as the scale has
/// zeros.
pub open spec fn width_of(scale: int) -> nat
    decreases scale,
{
    if scale <= 1 {
        0
    } else {
        1 + width_of(scale / 10)
    }
}

/// A number in decimal notation: a minus where it is negative, the whole
/// part, and where the scale is above one a point and every digit of the
/// fraction down to the scale.
pub open spec fn text_of(number: FixedPoint) -> Seq<char> {
    let sign = if number.sign < 0 {
        seq!['-']
    } else {
        Seq::<char>::empty()
    };
    if number.scale > 1 {
        sign + digits_of(number.integer as nat) + seq!['.'] + padded_digits_of(
            number.decimal as nat,
            width_of(number.scale as int),
        )
    } else {
        sign + digits_of(number.integer as nat)
    }
}

/// The digits of a number are digits, and write that number.
pub proof fn lemma_digits_of(number: nat)
    ensures
        digits_of(number).len() >= 1,
        all_digits(digits_of(number)),
        number_of(digits_of(number)) == number,
    decreases number,
{
    if number < 10 {
        let text = digits_of(number);
        assert(text.drop_last() =~= Seq::<char>::empty());
        assert(number_of(text.drop_last()) == 0);
    } else {
        lemma_digits_of(number / 10);
        let front = digits_of(number / 10);
        let text = digits_of(number);
        assert(text.drop_last() =~= front);
        assert forall|i: int| 0 <= i < text.len() implies is_digit(#[trigger] text[i]) by {
            if i < front.len() {
                assert(text[i] == front[i]);
            }
        }
    }
}

/// The padded digits of a number below ten to the width are as many digits
/// as the width, and write that number.
pub proof fn lemma_padded_digits_of(number: nat, width: nat)
    requires
        number < pow10(width),
    ensures
        padded_digits_of(number, width).len() == width,
        all_digits(padded_digits_of(number, width)),
        number_of(padded_digits_of(number, width)) == number,
        width > 0 ==> padded_digits_of(number, width).last() == digit_char((number % 10) as int),
    decreases width,
{
    if width > 0 {
        lemma_padded_digits_of(number / 10, (width - 1) as nat);
        let front = padded_digits_of(number / 10, (width - 1) as nat);
        let text = padded_digits_of(number, width);
        assert(text.drop_last() =~= front);
        assert forall|i: int| 0 <= i < text.len() implies is_digit(#[trigger] text[i]) by {
            if i < front.len() {
                assert(text[i] == front[i]);
            }
        }
    }
}

/// A scale is ten to the power of its width, which is fifteen at most.
pub proof fn lemma_width_of(scale: int)
    requires
        is_scale(scale),
    ensures
        width_of(scale) <= 15,
        pow10(width_of(scale)) == scale,
        scale > 1 ==> width_of(scale) >= 1,
{
    reveal_with_fuel(width_of, 17);
    reveal_with_fuel(pow10, 17);
}

/// The text of a canonical number is read back as that number: it is a term
/// of power zero whose coefficient has the view of the number.
pub proof fn lemma_text_is_read_back(number: FixedPoint)
    requires
        number.is_normalized(),
    ensures
        term_of(text_of(number)) == Ok::<(nat, int), ParseFailure>((0nat, number@)),
{
    let whole = digits_of(number.integer as nat);
    let width = width_of(number.scale as int);
    let fraction = padded_digits_of(number.decimal as nat, width);
    let unsigned = if number.scale > 1 {
        whole + seq!['.'] + fraction
    } else {
        whole
    };
    let text = text_of(number);
    let sign: int = if number.sign < 0 {
        -1
    } else {
        1
    };
    lemma_digits_of(number.integer as nat);
    lemma_width_of(number.scale as int);
    lemma_padded_digits_of(number.decimal as nat, width);
    assert(is_digit(whole[0]));

    // The sign and the body.
    let body = if sign_of(text) is Some {
        text.skip(1)
    } else {
        text
    };
    if number.sign < 0 {
        assert(text =~= seq!['-'] + unsigned);
        assert(text[0] == '-');
        assert(body =~= unsigned);
    } else {
        assert(text =~= unsigned);
        assert(text[0] == whole[0]);
        assert(body =~= unsigned);
    }
    assert forall|i: int| 0 <= i < unsigned.len() implies is_digit(#[trigger] unsigned[i])
        || unsigned[i] == '.' by {
        if i < whole.len() {
            assert(unsigned[i] == whole[i]);
        } else if i > whole.len() {
            assert(unsigned[i] == fraction[i - whole.len() - 1]);
        }
    }
    assert(!unsigned.contains('*'));
    assert(unsigned[0] == whole[0]);

    // The whole part and the fraction.
    assert forall|j: int| 0 <= j < whole.len() implies unsigned[j] != '.' by {
        assert(unsigned[j] == whole[j]);
        assert(is_digit(whole[j]));
    }
    lemma_position_of(unsigned, '.', whole.len() as int);
    assert(before(unsigned, '.') =~= whole);
    if number.scale > 1 {
        assert(after(unsigned, '.') =~= fraction);
        assert(fraction.last() != '0');
    } else {
        assert(after(unsigned, '.') =~= Seq::<char>::empty());
        assert(fraction =~= Seq::<char>::empty());
    }
    assert(without_trailing_zeros(after(unsigned, '.')) == fraction);
    assert(is_literal(unsigned));
    assert(coefficient_of(unsigned, sign) == Ok::<int, ParseFailure>(number@));
}

/// The text of one digit.
fn digit_text(digit: u64) -> (r: &'static str)
    requires
        digit < 10,
    ensures
        r@ == seq![digit_char(digit as int)],
{
    if digit == 0 {
        proof {
            reveal_strlit("0");
        }
        assert("0"@ =~= seq![digit_char(0)]);
        "0"
    } else if digit == 1 {
        proof {
            reveal_strlit("1");
        }
        assert("1"@ =~= seq![digit_char(1)]);
        "1"
    } else if digit == 2 {
        proof {
            reveal_strlit("2");
        }
        assert("2"@ =~= seq![digit_char(2)]);
        "2"
    } else if digit == 3 {
        proof {
            reveal_strlit("3");
        }
        assert("3"@ =~= seq![digit_char(3)]);
        "3"
    } else if digit == 4 {
        proof {
            reveal_strlit("4");
        }
        assert("4"@ =~= seq![digit_char(4)]);
        "4"
    } else if digit == 5 {
        proof {
            reveal_strlit("5");
        }
        assert("5"@ =~= seq![digit_char(5)]);
        "5"
    } else if digit == 6 {
        proof {
            reveal_strlit("6");
        }
        assert("6"@ =~= seq![digit_char(6)]);
        "6"
    } else if digit == 7 {
        proof {
            reveal_strlit("7");
        }
        assert("7"@ =~= seq![digit_char(7)]);
        "7"
    } else if digit == 8 {
        proof {
            reveal_strlit("8");
        }
        assert("8"@ =~= seq![digit_char(8)]);
        "8"
    } else {
        proof {
            reveal_strlit("9");
        }
        assert("9"@ =~= seq![digit_char(9)]);
        "9"
    }
}

/// Writes the digits of a number after a text.
fn push_digits(number: u64, text: &mut String)
    ensures
        final(text)@ == old(text)@ + digits_of(number as nat),
    decreases number,
{
    if number >= 10 {
        push_digits(number / 10, text);
    }
    text.append(digit_text(number % 10));
    proof {
        if number >= 10 {
            assert(text@ =~= old(text)@ + digits_of((number / 10) as nat).push(
                digit_char((number % 10) as int),
            ));
        } else {
            assert(text@ =~= old(text)@ + seq![digit_char(number as int)]);
        }
    }
}

/// Writes the last `width` digits of a number after a text.
fn push_padded_digits(number: u64, width: usize, text: &mut String)
    ensures
        final(text)@ == old(text)@ + padded_digits_of(number as nat, width as nat),
    decreases width,
{
    if width > 0 {
        push_padded_digits(number / 10, width - 1, text);
        text.append(digit_text(number % 10));
        assert(text@ =~= old(text)@ + padded_digits_of(
            (number / 10) as nat,
            (width - 1) as nat,
        ).push(digit_char((number % 10) as int)));
    } else {
        assert(text@ =~= old(text)@ + Seq::<char>::empty());
    }
}

/// How many digits stand after the point at a scale.
fn digits_after_point(scale: i64) -> (r: usize)
    ensures
        r == width_of(scale as int),
    decreases scale,
{
    if scale <= 1 {
        0
    } else {
        let below: usize = digits_after_point(scale / 10);
        assert(below <= 64) by {
            lemma_width_is_small(scale as int / 10);
        }
        1 + below
    }
}

/// No scale that an `i64` holds has more than nineteen digits after the point.
proof fn lemma_width_is_small(scale: int)
    requires
        scale <= i64::MAX,
    ensures
        width_of(scale) <= 19,
{
    reveal_with_fuel(width_of, 21);
}

impl FixedPoint {
    /// The number in decimal notation: a minus where it is negative, the
    /// whole part, and where the scale is above one a point and every digit
    /// of the fraction down to the scale. `-1.05` reads `-1.05`, and `3` reads
    /// `3`.
    pub fn to_text(&self) -> (r: String)
        requires
            self.well_formed(),
        ensures
            r@ == text_of(*self),
    {
        let mut text: String = String::new();
        if self.sign < 0 {
            proof {
                reveal_strlit("-");
            }
            text.append("-");
            assert(text@ =~= seq!['-']);
        }
        push_digits(self.integer as u64, &mut text);
        if self.scale > 1 {
            proof {
                reveal_strlit(".");
            }
            let ghost before_point = text@;
            text.append(".");
            assert(text@ =~= before_point + seq!['.']);
            push_padded_digits(self.decimal as u64, digits_after_point(self.scale), &mut text);
        }
        text
    }
}

} // verus!
