use std::collections::HashMap;
use vstd::prelude::*;
use vstd::slice::{slice_subrange, slice_to_vec};
use vstd::std_specs::hash::group_hash_axioms;
use crate::constants::math_tools_constants::{NEGATIVE, POSITIVE};
use crate::constants::parsing_constants::{
    CARET,
    EQUALS,
    LITERAL_PRECISION_DIGITS,
    MINUS,
    PLUS,
    POINT,
    TIMES,
    UNKNOWN,
};
use crate::errors::{ParseError, ParseFailure};
use crate::math_tools::fixed_point::fixed_point::{
    FixedPoint,
    all_normalized,
    fraction_units,
    is_scale,
    representable,
    views,
};
use crate::parser::grammar::{
    after,
    all_digits,
    before,
    cleaned,
    coefficient_at,
    coefficient_of,
    difference_overflows,
    is_difference_of,
    side_of,
    is_digit,
    is_literal,
    is_whitespace,
    number_of,
    position_of,
    pow10,
    power_of,
    scanned,
    sign_of,
    term_of,
    terms,
    without_trailing_zeros,
};

verus! {

/// The texts that a sequence of vectors holds.
pub open spec fn texts(pieces: Seq<Vec<char>>) -> Seq<Seq<char>> {
    pieces.map_values(|piece: Vec<char>| piece@)
}

/// The first `c` stands at `i` where it stands there and nowhere before, and
/// stands nowhere where `i` is the length of the text.
pub proof fn lemma_position_of(s: Seq<char>, c: char, i: int)
    requires
        0 <= i <= s.len(),
        forall|j: int| 0 <= j < i ==> s[j] != c,
        i < s.len() ==> s[i] == c,
    ensures
        position_of(s, c) == i,
    decreases s.len(),
{
    if s.len() > 0 && i > 0 {
        lemma_position_of(s.drop_first(), c, i - 1);
    }
}

/// Where the first `c` stands, it stands, and no `c` stands before it.
pub proof fn lemma_position_of_is_first(s: Seq<char>, c: char)
    ensures
        0 <= position_of(s, c) <= s.len(),
        position_of(s, c) < s.len() ==> s[position_of(s, c)] == c,
        forall|j: int| 0 <= j < position_of(s, c) ==> s[j] != c,
        s.contains(c) <==> position_of(s, c) < s.len(),
    decreases s.len(),
{
    if s.len() > 0 && s[0] != c {
        let rest = s.drop_first();
        lemma_position_of_is_first(rest, c);
        assert forall|j: int| 0 <= j < position_of(s, c) implies s[j] != c by {
            if j > 0 {
                assert(s[j] == rest[j - 1]);
            }
        }
        if position_of(s, c) < s.len() {
            assert(s[position_of(s, c)] == rest[position_of(rest, c)]);
        }
        if s.contains(c) {
            let k = choose|k: int| 0 <= k < s.len() && s[k] == c;
            assert(rest[k - 1] == c);
        }
    }
}

/// Reading one more character of a text adds it to the text without blanks,
/// unless it is a blank.
proof fn lemma_cleaned_step(s: Seq<char>, i: int)
    requires
        0 <= i < s.len(),
    ensures
        cleaned(s.take(i + 1)) == (if is_whitespace(s[i]) {
            cleaned(s.take(i))
        } else {
            cleaned(s.take(i)).push(s[i])
        }),
{
    reveal(Seq::filter);
    assert(s.take(i + 1).drop_last() =~= s.take(i));
}

/// Whether a character is a blank.
fn is_blank(c: char) -> (r: bool)
    ensures
        r == is_whitespace(c),
{
    c == ' ' || ('\u{9}' <= c && c <= '\u{d}') || c == '\u{85}' || c == '\u{a0}' || c
        == '\u{1680}' || ('\u{2000}' <= c && c <= '\u{200a}') || c == '\u{2028}' || c
        == '\u{2029}' || c == '\u{202f}' || c == '\u{205f}' || c == '\u{3000}'
}

/// Drops the blanks of the text of an equation and cuts it at the first
/// equals sign into its left and its right side; without an equals sign the
/// right side is empty. An empty left side is refused.
pub fn split_input(input: &str) -> (r: Result<(Vec<char>, Vec<char>), ParseError>)
    ensures
        match r {
            Ok((left, right)) => {
                &&& left@ == before(cleaned(input@), EQUALS)
                &&& right@ == after(cleaned(input@), EQUALS)
                &&& left@.len() > 0
            },
            Err(error) => {
                &&& error@ == ParseFailure::EmptyInput
                &&& before(cleaned(input@), EQUALS).len() == 0
            },
        },
{
    let mut left: Vec<char> = Vec::new();
    let mut right: Vec<char> = Vec::new();
    let mut seen_equals: bool = false;

    proof {
        reveal(Seq::filter);
        assert(input@.take(0) =~= Seq::<char>::empty());
    }
    for c in it: input.chars()
        invariant
            it.seq() == input@,
            !seen_equals ==> left@ == cleaned(input@.take(it.index() as int)) && right@.len() == 0,
            seen_equals ==> cleaned(input@.take(it.index() as int)) == left@ + seq![EQUALS] + right@,
            forall|j: int| 0 <= j < left@.len() ==> left@[j] != EQUALS,
    {
        proof {
            lemma_cleaned_step(input@, it.index() as int);
        }
        if is_blank(c) {
        } else if seen_equals {
            right.push(c);
            assert((left@ + seq![EQUALS] + right@.drop_last()).push(c) =~= left@ + seq![EQUALS]
                + right@);
        } else if c == EQUALS {
            seen_equals = true;
            assert(left@.push(c) =~= left@ + seq![EQUALS] + right@);
        } else {
            left.push(c);
        }
    }
    proof {
        let text = cleaned(input@);
        assert(input@.take(input@.len() as int) =~= input@);
        lemma_position_of(text, EQUALS, left@.len() as int);
        if seen_equals {
            assert(text.take(left@.len() as int) =~= left@);
            assert(text.skip(left@.len() as int + 1) =~= right@);
        } else {
            assert(text.take(left@.len() as int) =~= left@);
            assert(right@ =~= Seq::<char>::empty());
        }
    }
    if left.len() == 0 {
        return Err(ParseError::EmptyInput);
    }
    Ok((left, right))
}

/// Cuts one side of an equation into its terms: a new term opens at every
/// plus and at every minus, which stays with the term it opens.
pub fn split_inclusive(input: &[char]) -> (r: Vec<Vec<char>>)
    ensures
        texts(r@) == terms(input@),
{
    let mut pieces: Vec<Vec<char>> = Vec::new();
    let mut current_term: Vec<char> = Vec::new();

    assert(input@.take(0) =~= Seq::<char>::empty());
    assert(texts(pieces@) =~= Seq::<Seq<char>>::empty());
    for i in 0..input.len()
        invariant
            (texts(pieces@), current_term@) == scanned(input@.take(i as int)),
    {
        let c: char = input[i];
        assert(input@.take(i + 1).drop_last() =~= input@.take(i as int));
        let ghost before_push = pieces@;
        if c == PLUS || c == MINUS {
            if current_term.len() > 0 {
                pieces.push(current_term);
                assert(texts(pieces@) =~= texts(before_push).push(pieces@.last()@));
            }
            current_term = Vec::new();
            current_term.push(c);
            assert(current_term@ =~= seq![c]);
        } else {
            current_term.push(c);
        }
    }
    assert(input@.take(input@.len() as int) =~= input@);
    if current_term.len() > 0 {
        let ghost before_push = pieces@;
        pieces.push(current_term);
        assert(texts(pieces@) =~= texts(before_push).push(pieces@.last()@));
    }
    pieces
}

/// The sign that a term opens with, if it opens with one.
pub fn get_coeff_sign(term: &[char]) -> (r: Option<i64>)
    ensures
        match r {
            Some(sign) => sign_of(term@) == Some(sign as int),
            None => sign_of(term@) is None,
        },
{
    if term.len() == 0 {
        None
    } else if term[0] == MINUS {
        Some(NEGATIVE)
    } else if term[0] == PLUS {
        Some(POSITIVE)
    } else {
        None
    }
}

/// The number that the first digits of a text write is no larger than the
/// number that all of them write.
proof fn lemma_number_of_prefix(s: Seq<char>, i: int)
    requires
        0 <= i <= s.len(),
        all_digits(s),
    ensures
        number_of(s.take(i)) <= number_of(s),
    decreases s.len() - i,
{
    if i == s.len() {
        assert(s.take(i) =~= s);
    } else {
        let front = s.drop_last();
        assert(front.take(i) =~= s.take(i));
        assert(is_digit(s[s.len() - 1]));
        assert forall|j: int| 0 <= j < front.len() implies is_digit(#[trigger] front[j]) by {
            assert(front[j] == s[j]);
        }
        lemma_number_of_prefix(front, i);
    }
}

/// A text of `n` digits writes a number below ten to the power `n`.
proof fn lemma_number_of_bound(s: Seq<char>)
    requires
        all_digits(s),
    ensures
        number_of(s) < pow10(s.len()),
    decreases s.len(),
{
    if s.len() > 0 {
        let front = s.drop_last();
        assert(is_digit(s[s.len() - 1]));
        assert forall|j: int| 0 <= j < front.len() implies is_digit(#[trigger] front[j]) by {
            assert(front[j] == s[j]);
        }
        lemma_number_of_bound(front);
    }
}

/// The first sixteen powers of ten are the sixteen scales.
pub proof fn lemma_pow10_is_scale(n: nat)
    requires
        n <= 15,
    ensures
        is_scale(pow10(n)),
        1 <= pow10(n) <= 1_000_000_000_000_000,
{
    reveal_with_fuel(pow10, 17);
}

/// Where `c` first stands in the text, and the length of the text if it
/// stands nowhere.
fn index_of(text: &[char], c: char) -> (r: usize)
    ensures
        r == position_of(text@, c),
        r <= text@.len(),
{
    let mut i: usize = 0;
    while i < text.len() && text[i] != c
        invariant
            i <= text@.len(),
            forall|j: int| 0 <= j < i ==> text@[j] != c,
        decreases text@.len() - i,
    {
        i += 1;
    }
    proof {
        lemma_position_of(text@, c, i as int);
    }
    i
}

/// Whether the text holds digits and nothing else.
fn are_digits(text: &[char]) -> (r: bool)
    ensures
        r == all_digits(text@),
{
    for i in 0..text.len()
        invariant
            forall|j: int| 0 <= j < i ==> is_digit(#[trigger] text@[j]),
    {
        let c: char = text[i];
        if !('0' <= c && c <= '9') {
            return false;
        }
    }
    true
}

/// The number that a text of digits writes, where it is `limit` at most.
fn read_number(digits: &[char], limit: u64) -> (r: Option<u64>)
    requires
        all_digits(digits@),
    ensures
        match r {
            Some(number) => number == number_of(digits@) && number <= limit,
            None => number_of(digits@) > limit,
        },
{
    let mut number: u64 = 0;
    assert(digits@.take(0) =~= Seq::<char>::empty());
    for i in 0..digits.len()
        invariant
            all_digits(digits@),
            number == number_of(digits@.take(i as int)),
            number <= limit,
    {
        let c: char = digits[i];
        assert(is_digit(digits@[i as int]));
        assert(digits@.take(i + 1).drop_last() =~= digits@.take(i as int));
        let digit: u32 = c as u32 - '0' as u32;
        let next: u128 = number as u128 * 10 + digit as u128;
        if next > limit as u128 {
            proof {
                lemma_number_of_prefix(digits@, i + 1);
            }
            return None;
        }
        number = next as u64;
    }
    assert(digits@.take(digits@.len() as int) =~= digits@);
    Some(number)
}

/// The power that a text names: none at all is `0`, `X` is `1`, and `X^`
/// before a number is that number. Any other text is refused and handed
/// back.
pub fn extract_power(power: &[char]) -> (r: Result<usize, ParseError>)
    ensures
        match r {
            Ok(number) => power_of(power@) == Ok::<nat, ParseFailure>(number as nat),
            Err(error) => power_of(power@) == Err::<nat, ParseFailure>(error@),
        },
{
    if power.len() == 0 {
        return Ok(0);
    } else if power.len() == 1 && power[0] == UNKNOWN {
        return Ok(1);
    } else if power.len() > 2 && power[0] == UNKNOWN && power[1] == CARET {
        let digits: &[char] = slice_subrange(power, 2, power.len());
        assert(digits@ =~= power@.skip(2));
        if are_digits(digits) {
            match read_number(digits, (usize::MAX - 1) as u64) {
                Some(number) => {
                    return Ok(number as usize);
                },
                None => {},
            }
        }
    }
    Err(ParseError::InvalidPower(slice_to_vec(power)))
}

/// Ten to the power `digits`.
fn scale_of(digits: usize) -> (r: i64)
    requires
        digits <= 15,
    ensures
        r == pow10(digits as nat),
        is_scale(r as int),
{
    let mut scale: i64 = 1;
    proof {
        lemma_pow10_is_scale(0);
    }
    for i in 0..digits
        invariant
            digits <= 15,
            scale == pow10(i as nat),
            is_scale(scale as int),
    {
        proof {
            lemma_pow10_is_scale((i + 1) as nat);
        }
        scale = scale * 10;
    }
    scale
}

/// How much of a text is left once the zeros it ends in are dropped.
fn length_without_trailing_zeros(text: &[char]) -> (r: usize)
    ensures
        r <= text@.len(),
        text@.take(r as int) == without_trailing_zeros(text@),
{
    let mut end: usize = text.len();
    assert(text@.take(end as int) =~= text@);
    while end > 0 && text[end - 1] == '0'
        invariant
            end <= text@.len(),
            without_trailing_zeros(text@.take(end as int)) == without_trailing_zeros(text@),
        decreases end,
    {
        assert(text@.take(end as int).drop_last() =~= text@.take(end - 1));
        end -= 1;
    }
    end
}

/// The number that a decimal literal writes, negative where `sign` is below
/// zero. The zeros that the fraction ends in do not count. A text that is no
/// literal is refused and handed back; a literal is too large where its whole
/// part does not fit an `i64`, and where more than fifteen digits are left
/// after the point.
pub fn extract_coefficient(coefficient: &[char], sign: i64) -> (r: Result<FixedPoint, ParseError>)
    ensures
        match r {
            Ok(number) => {
                &&& number.is_normalized()
                &&& coefficient_of(coefficient@, sign as int) == Ok::<int, ParseFailure>(number@)
            },
            Err(error) => coefficient_of(coefficient@, sign as int) == Err::<int, ParseFailure>(
                error@,
            ),
        },
{
    let length: usize = coefficient.len();
    let point: usize = index_of(coefficient, POINT);
    let integer_part: &[char] = slice_subrange(coefficient, 0, point);
    let has_point: bool = point < length;
    let decimal_part: &[char] = if has_point {
        slice_subrange(coefficient, point + 1, length)
    } else {
        slice_subrange(coefficient, length, length)
    };
    assert(integer_part@ =~= before(coefficient@, POINT));
    assert(decimal_part@ =~= after(coefficient@, POINT));

    if integer_part.len() == 0 || !are_digits(integer_part) || (has_point && (decimal_part.len()
        == 0 || !are_digits(decimal_part))) {
        return Err(ParseError::InvalidCoefficient(slice_to_vec(coefficient)));
    }
    assert(is_literal(coefficient@));
    let kept: usize = length_without_trailing_zeros(decimal_part);
    let decimal_digits: &[char] = slice_subrange(decimal_part, 0, kept);
    assert(decimal_digits@ =~= without_trailing_zeros(decimal_part@));
    assert(all_digits(decimal_digits@)) by {
        assert forall|j: int| 0 <= j < decimal_digits@.len() implies is_digit(
            #[trigger] decimal_digits@[j],
        ) by {
            assert(decimal_digits@[j] == decimal_part@[j]);
        }
    }

    let integer: i64 = match read_number(integer_part, i64::MAX as u64) {
        Some(number) => number as i64,
        None => {
            return Err(ParseError::CoefficientOverflow);
        },
    };
    if kept > LITERAL_PRECISION_DIGITS {
        return Err(ParseError::CoefficientOverflow);
    }
    let scale: i64 = scale_of(kept);
    proof {
        lemma_number_of_bound(decimal_digits@);
        lemma_pow10_is_scale(kept as nat);
    }
    let decimal: i64 = match read_number(decimal_digits, 999_999_999_999_999) {
        Some(number) => number as i64,
        None => {
            return Err(ParseError::CoefficientOverflow);
        },
    };
    Ok(FixedPoint::new_with_scale(integer, decimal, sign, scale))
}

/// The power and the coefficient of a term.
///
/// A term is a sign, which may be missing, and a body. A body with a `*` is a
/// literal, the `*`, and a power; a body that opens with `X` is a power, and
/// its coefficient is one; any other body is a literal, and its power is
/// zero. The literal is judged before the power.
pub fn split_term(signed_term: &[char]) -> (r: Result<(usize, FixedPoint), ParseError>)
    ensures
        match r {
            Ok((power, coefficient)) => {
                &&& coefficient.is_normalized()
                &&& term_of(signed_term@) == Ok::<(nat, int), ParseFailure>(
                    (power as nat, coefficient@),
                )
            },
            Err(error) => term_of(signed_term@) == Err::<(nat, int), ParseFailure>(error@),
        },
{
    let (sign, term): (i64, &[char]) = match get_coeff_sign(signed_term) {
        Some(sign) => (sign, slice_subrange(signed_term, 1, signed_term.len())),
        None => (POSITIVE, signed_term),
    };
    assert(sign_of(signed_term@) is Some ==> term@ =~= signed_term@.skip(1));
    let star: usize = index_of(term, TIMES);
    proof {
        lemma_position_of_is_first(term@, TIMES);
    }

    if star < term.len() {
        let coefficient_text: &[char] = slice_subrange(term, 0, star);
        let power_text: &[char] = slice_subrange(term, star + 1, term.len());
        assert(coefficient_text@ =~= before(term@, TIMES));
        assert(power_text@ =~= after(term@, TIMES));
        let coefficient: FixedPoint = match extract_coefficient(coefficient_text, sign) {
            Ok(number) => number,
            Err(error) => {
                return Err(error);
            },
        };
        let power: usize = match extract_power(power_text) {
            Ok(number) => number,
            Err(error) => {
                return Err(error);
            },
        };
        Ok((power, coefficient))
    } else if term.len() > 0 && term[0] == UNKNOWN {
        let power: usize = match extract_power(term) {
            Ok(number) => number,
            Err(error) => {
                return Err(error);
            },
        };
        proof {
            reveal(fraction_units);
        }
        Ok((power, FixedPoint::new(1, 0, sign)))
    } else {
        let coefficient: FixedPoint = match extract_coefficient(term, sign) {
            Ok(number) => number,
            Err(error) => {
                return Err(error);
            },
        };
        Ok((0, coefficient))
    }
}

/// What a map from powers to numbers holds, as a map from powers to views.
pub open spec fn side_view(side: Map<usize, FixedPoint>) -> Map<nat, int> {
    Map::new(
        |power: nat| power <= usize::MAX && side.dom().contains(power as usize),
        |power: nat| side[power as usize]@,
    )
}

/// Every number of the map is written canonically, and no power is the
/// largest `usize`.
pub open spec fn is_side(side: Map<usize, FixedPoint>) -> bool {
    forall|power: usize| #[trigger]
        side.dom().contains(power) ==> side[power].is_normalized() && power < usize::MAX
}

/// A failure among the first terms of a side is the failure of the side.
proof fn lemma_side_of_fails_early(pieces: Seq<Seq<char>>, i: int)
    requires
        0 <= i <= pieces.len(),
        side_of(pieces.take(i)) is Err,
    ensures
        side_of(pieces) == side_of(pieces.take(i)),
    decreases pieces.len() - i,
{
    if i == pieces.len() {
        assert(pieces.take(i) =~= pieces);
    } else {
        assert(pieces.drop_last().take(i) =~= pieces.take(i));
        lemma_side_of_fails_early(pieces.drop_last(), i);
    }
}

/// The sum of the coefficients of each power among the terms of one side of
/// an equation, taken from left to right. It fails at the first term that is
/// no term, and at the first sum that is too large to hold.
pub fn parse_equation(input: &[char]) -> (r: Result<HashMap<usize, FixedPoint>, ParseError>)
    ensures
        match r {
            Ok(coefficients) => {
                &&& is_side(coefficients@)
                &&& side_of(terms(input@)) == Ok::<Map<nat, int>, ParseFailure>(
                    side_view(coefficients@),
                )
            },
            Err(error) => side_of(terms(input@)) == Err::<Map<nat, int>, ParseFailure>(error@),
        },
{
    broadcast use group_hash_axioms;

    let pieces: Vec<Vec<char>> = split_inclusive(input);
    let mut coefficients: HashMap<usize, FixedPoint> = HashMap::new();
    let ghost all = terms(input@);

    proof {
        assert(all.take(0) =~= Seq::<Seq<char>>::empty());
        assert(side_view(coefficients@) =~= Map::<nat, int>::empty());
    }
    for i in 0..pieces.len()
        invariant
            all == terms(input@),
            texts(pieces@) == all,
            is_side(coefficients@),
            side_of(all.take(i as int)) == Ok::<Map<nat, int>, ParseFailure>(
                side_view(coefficients@),
            ),
    {
        let ghost side = side_view(coefficients@);
        proof {
            assert(all.take(i + 1).drop_last() =~= all.take(i as int));
            assert(all.take(i + 1).last() == pieces@[i as int]@);
        }
        let (power, coefficient): (usize, FixedPoint) = match split_term(pieces[i].as_slice()) {
            Ok(pair) => pair,
            Err(error) => {
                proof {
                    lemma_side_of_fails_early(all, i + 1);
                }
                return Err(error);
            },
        };
        proof {
            lemma_term_power_fits(pieces@[i as int]@);
        }
        match coefficients.get(&power) {
            Some(existing) => {
                match existing.add(&coefficient) {
                    Ok(sum) => {
                        coefficients.insert(power, sum);
                        assert(side_view(coefficients@) =~= side.insert(power as nat, sum@));
                    },
                    Err(_) => {
                        proof {
                            lemma_side_of_fails_early(all, i + 1);
                        }
                        return Err(ParseError::CoefficientOverflow);
                    },
                }
            },
            None => {
                coefficients.insert(power, coefficient);
                assert(side_view(coefficients@) =~= side.insert(power as nat, coefficient@));
            },
        }
    }
    assert(all.take(pieces@.len() as int) =~= all);
    Ok(coefficients)
}

/// The highest power that a side names, and zero where it names none.
fn highest_power(side: &HashMap<usize, FixedPoint>) -> (r: usize)
    ensures
        forall|power: usize| side@.dom().contains(power) ==> power <= r,
        r == 0 || side@.dom().contains(r),
{
    broadcast use group_hash_axioms;

    let mut highest: usize = 0;
    for power in it: side.keys()
        invariant
            it.seq().unref().to_set() == side@.dom(),
            forall|key: usize| #[trigger]
                side@.dom().contains(key) ==> key <= highest || (exists|j: int|
                    it.index() <= j < it.seq().len() && *#[trigger] it.seq()[j] == key),
            highest == 0 || side@.dom().contains(highest),
    {
        let ghost before = highest;
        assert(it.seq().unref().to_set().contains(*power)) by {
            assert(it.seq().unref()[it.index() as int] == *power);
        }
        if *power > highest {
            highest = *power;
        }
        assert forall|key: usize| #[trigger] side@.dom().contains(key) implies key <= highest || (
        exists|j: int| it.index() + 1 <= j < it.seq().len() && *#[trigger] it.seq()[j] == key) by {
            if key > before {
                let j = choose|j: int|
                    it.index() <= j < it.seq().len() && *#[trigger] it.seq()[j] == key;
                if j == it.index() {
                    assert(key == *power);
                }
            }
        }
    }
    highest
}

/// The number that a side holds for a power: zero where it names none.
fn coefficient_or_zero(side: &HashMap<usize, FixedPoint>, power: usize) -> (r: FixedPoint)
    requires
        is_side(side@),
    ensures
        r.is_normalized(),
        r@ == coefficient_at(side_view(side@), power as nat),
{
    broadcast use group_hash_axioms;

    match side.get(&power) {
        Some(number) => *number,
        None => FixedPoint::zero(),
    }
}

/// The coefficients of `left - right = 0` by power, from power zero up to the
/// highest power that either side names. It fails where a difference is too
/// large to hold.
pub fn sum_coefficients(
    left: HashMap<usize, FixedPoint>,
    right: HashMap<usize, FixedPoint>,
) -> (r: Result<Vec<FixedPoint>, ParseError>)
    requires
        is_side(left@),
        is_side(right@),
    ensures
        match r {
            Ok(coefficients) => {
                &&& all_normalized(coefficients@)
                &&& is_difference_of(views(coefficients@), side_view(left@), side_view(right@))
                &&& !difference_overflows(side_view(left@), side_view(right@))
            },
            Err(error) => {
                &&& error@ == ParseFailure::CoefficientOverflow
                &&& difference_overflows(side_view(left@), side_view(right@))
            },
        },
{
    let highest_left: usize = highest_power(&left);
    let highest_right: usize = highest_power(&right);
    let degree: usize = if highest_left < highest_right {
        highest_right
    } else {
        highest_left
    };
    let mut coefficients: Vec<FixedPoint> = Vec::new();
    let ghost l = side_view(left@);
    let ghost r = side_view(right@);

    for power in 0..(degree + 1)
        invariant
            degree < usize::MAX,
            is_side(left@),
            is_side(right@),
            l == side_view(left@),
            r == side_view(right@),
            coefficients@.len() == power,
            all_normalized(coefficients@),
            forall|i: int|
                0 <= i < power ==> (#[trigger] coefficients@[i])@ == coefficient_at(l, i as nat)
                    - coefficient_at(r, i as nat),
    {
        let minuend: FixedPoint = coefficient_or_zero(&left, power);
        let subtrahend: FixedPoint = coefficient_or_zero(&right, power);
        match minuend.subtract(&subtrahend) {
            Ok(difference) => {
                coefficients.push(difference);
            },
            Err(_) => {
                assert(!representable(
                    coefficient_at(l, power as nat) - coefficient_at(r, power as nat),
                ));
                return Err(ParseError::CoefficientOverflow);
            },
        }
    }
    proof {
        assert forall|power: nat|
            representable(
                #[trigger] coefficient_at(l, power) - coefficient_at(r, power),
            ) by {
            if power <= degree {
                assert(coefficients@[power as int].is_normalized());
                FixedPoint::lemma_raw_value(coefficients@[power as int]);
            }
        }
    }
    Ok(coefficients)
}

/// The power of a term is below the largest `usize`.
pub proof fn lemma_term_power_fits(term: Seq<char>)
    ensures
        term_of(term) matches Ok(pair) ==> pair.0 < usize::MAX,
{
}

} // verus!
