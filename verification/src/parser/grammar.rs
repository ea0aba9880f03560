use vstd::prelude::*;
use crate::errors::ParseFailure;
use crate::math_tools::fixed_point::fixed_point::{FixedPoint, representable};

verus! {

/// A blank, which an equation may hold anywhere and which means nothing: the
/// space, the tab, the line breaks and the other characters that Unicode
/// counts as white space.
pub open spec fn is_whitespace(c: char) -> bool {
    ||| c == ' '
    ||| '\u{9}' <= c <= '\u{d}'
    ||| c == '\u{85}'
    ||| c == '\u{a0}'
    ||| c == '\u{1680}'
    ||| '\u{2000}' <= c <= '\u{200a}'
    ||| c == '\u{2028}'
    ||| c == '\u{2029}'
    ||| c == '\u{202f}'
    ||| c == '\u{205f}'
    ||| c == '\u{3000}'
}

/// A plus or a minus: the sign that opens a term.
pub open spec fn is_operator(c: char) -> bool {
    c == '+' || c == '-'
}

/// One of the ten decimal digits.
pub open spec fn is_digit(c: char) -> bool {
    '0' <= c <= '9'
}

/// What a digit counts.
pub open spec fn digit_value(c: char) -> int {
    c as int - '0' as int
}

/// Every character of the text is a digit.
pub open spec fn all_digits(s: Seq<char>) -> bool {
    forall|i: int| 0 <= i < s.len() ==> is_digit(#[trigger] s[i])
}

/// The number that a text of digits writes; the empty text writes zero.
pub open spec fn number_of(s: Seq<char>) -> nat
    decreases s.len(),
{
    if s.len() == 0 {
        0
    } else {
        (number_of(s.drop_last()) * 10 + digit_value(s.last())) as nat
    }
}

/// Ten to the power `n`.
pub open spec fn pow10(n: nat) -> int
    decreases n,
{
    if n == 0 {
        1
    } else {
        10 * pow10((n - 1) as nat)
    }
}

/// The text without its blanks.
pub open spec fn cleaned(s: Seq<char>) -> Seq<char> {
    s.filter(|c: char| !is_whitespace(c))
}

/// Where `c` first stands in the text, and the length of the text if it
/// stands nowhere.
pub open spec fn position_of(s: Seq<char>, c: char) -> int
    decreases s.len(),
{
    if s.len() == 0 {
        0
    } else if s[0] == c {
        0
    } else {
        1 + position_of(s.drop_first(), c)
    }
}

/// What stands before the first `c`: the whole text if there is none.
pub open spec fn before(s: Seq<char>, c: char) -> Seq<char> {
    s.take(position_of(s, c))
}

/// What stands after the first `c`: nothing if there is none.
pub open spec fn after(s: Seq<char>, c: char) -> Seq<char> {
    if position_of(s, c) < s.len() {
        s.skip(position_of(s, c) + 1)
    } else {
        Seq::empty()
    }
}

/// The text without the zeros it ends in.
pub open spec fn without_trailing_zeros(s: Seq<char>) -> Seq<char>
    decreases s.len(),
{
    if s.len() > 0 && s.last() == '0' {
        without_trailing_zeros(s.drop_last())
    } else {
        s
    }
}

/// The terms read so far and the term being read, after a scan of the text
/// from left to right in which every operator opens a new term.
pub open spec fn scanned(s: Seq<char>) -> (Seq<Seq<char>>, Seq<char>)
    decreases s.len(),
{
    if s.len() == 0 {
        (Seq::empty(), Seq::empty())
    } else {
        let (done, current) = scanned(s.drop_last());
        if is_operator(s.last()) {
            if current.len() > 0 {
                (done.push(current), seq![s.last()])
            } else {
                (done, seq![s.last()])
            }
        } else {
            (done, current.push(s.last()))
        }
    }
}

/// The terms of one side of an equation: the text cut before each operator.
pub open spec fn terms(s: Seq<char>) -> Seq<Seq<char>> {
    let (done, current) = scanned(s);
    if current.len() > 0 {
        done.push(current)
    } else {
        done
    }
}

/// Every piece holds a character; no operator stands in a piece but at its
/// head; and every piece but the first opens with an operator.
pub open spec fn are_terms(pieces: Seq<Seq<char>>) -> bool {
    &&& forall|i: int| 0 <= i < pieces.len() ==> (#[trigger] pieces[i]).len() > 0
    &&& forall|i: int, j: int|
        0 <= i < pieces.len() && 0 < j < pieces[i].len() ==> !is_operator(#[trigger] pieces[i][j])
    &&& forall|i: int| 0 < i < pieces.len() ==> is_operator((#[trigger] pieces[i])[0])
}

/// What a scan has read makes up the text it has read, piece after piece.
proof fn lemma_scanned(s: Seq<char>)
    ensures
        scanned(s).0.flatten() + scanned(s).1 == s,
        are_terms(scanned(s).0),
        forall|j: int| 0 < j < scanned(s).1.len() ==> !is_operator(#[trigger] scanned(s).1[j]),
        scanned(s).0.len() > 0 ==> scanned(s).1.len() > 0 && is_operator(scanned(s).1[0]),
    decreases s.len(),
{
    let (done, current) = scanned(s);
    if s.len() == 0 {
        assert(done.flatten() + current =~= s);
    } else {
        let front = s.drop_last();
        let (before_done, before_current) = scanned(front);
        lemma_scanned(front);
        assert(front.push(s.last()) =~= s);
        if is_operator(s.last()) {
            if before_current.len() > 0 {
                before_done.lemma_flatten_push(before_current);
                assert(done.flatten() + current =~= (before_done.flatten() + before_current).push(
                    s.last(),
                ));
                assert forall|i: int| 0 <= i < done.len() implies (#[trigger] done[i]).len()
                    > 0 by {
                    if i < before_done.len() {
                        assert(done[i] == before_done[i]);
                    }
                }
                assert forall|i: int, j: int|
                    0 <= i < done.len() && 0 < j < done[i].len() implies !is_operator(
                    #[trigger] done[i][j],
                ) by {
                    if i < before_done.len() {
                        assert(done[i] == before_done[i]);
                    }
                }
                assert forall|i: int| 0 < i < done.len() implies is_operator(
                    (#[trigger] done[i])[0],
                ) by {
                    if i < before_done.len() {
                        assert(done[i] == before_done[i]);
                    }
                }
            } else {
                assert(done.flatten() + current =~= (before_done.flatten() + before_current).push(
                    s.last(),
                ));
            }
        } else {
            assert(done.flatten() + current =~= (before_done.flatten() + before_current).push(
                s.last(),
            ));
            assert forall|j: int| 0 < j < current.len() implies !is_operator(
                #[trigger] current[j],
            ) by {
                if j < before_current.len() {
                    assert(current[j] == before_current[j]);
                }
            }
        }
    }
}

/// The terms of a text make up the text, piece after piece; every term holds
/// a character; no operator stands in a term but at its head; and every term
/// but the first opens with an operator.
pub proof fn lemma_terms_cut_the_text(s: Seq<char>)
    ensures
        terms(s).flatten() == s,
        are_terms(terms(s)),
{
    let (done, current) = scanned(s);
    lemma_scanned(s);
    if current.len() > 0 {
        done.lemma_flatten_push(current);
        let all = terms(s);
        assert forall|i: int| 0 <= i < all.len() implies (#[trigger] all[i]).len() > 0 by {
            if i < done.len() {
                assert(all[i] == done[i]);
            }
        }
        assert forall|i: int, j: int|
            0 <= i < all.len() && 0 < j < all[i].len() implies !is_operator(
            #[trigger] all[i][j],
        ) by {
            if i < done.len() {
                assert(all[i] == done[i]);
            }
        }
        assert forall|i: int| 0 < i < all.len() implies is_operator((#[trigger] all[i])[0]) by {
            if i < done.len() {
                assert(all[i] == done[i]);
            }
        }
    } else {
        assert(done.flatten() + current =~= done.flatten());
    }
}

/// The sign that a term opens with: `-1` for a minus, `1` for a plus, none
/// where it opens with neither.
pub open spec fn sign_of(term: Seq<char>) -> Option<int> {
    if term.len() > 0 && term[0] == '-' {
        Some(-1int)
    } else if term.len() > 0 && term[0] == '+' {
        Some(1int)
    } else {
        None
    }
}

/// The power that a text names: none at all is `0`, `X` is `1`, and `X^`
/// before a number is that number. Anything else is no power, and neither is
/// a number that a `usize` cannot hold with room for one more.
pub open spec fn power_of(p: Seq<char>) -> Result<nat, ParseFailure> {
    if p.len() == 0 {
        Ok(0nat)
    } else if p.len() == 1 && p[0] == 'X' {
        Ok(1nat)
    } else if p.len() > 2 && p[0] == 'X' && p[1] == '^' && all_digits(p.skip(2)) && number_of(
        p.skip(2),
    ) < usize::MAX {
        Ok(number_of(p.skip(2)))
    } else {
        Err(ParseFailure::InvalidPower(p))
    }
}

/// The text is a decimal literal: digits, and after them perhaps a point
/// and more digits.
pub open spec fn is_literal(c: Seq<char>) -> bool {
    let whole = before(c, '.');
    let fraction = after(c, '.');
    &&& whole.len() > 0
    &&& all_digits(whole)
    &&& whole.len() < c.len() ==> fraction.len() > 0 && all_digits(fraction)
}

/// The view of the number that a literal writes, negative where `sign` is.
/// The zeros that the fraction ends in do not count. The literal is too
/// large where its whole part does not fit an `i64`, and where more than
/// fifteen digits are left after the point.
pub open spec fn coefficient_of(c: Seq<char>, sign: int) -> Result<int, ParseFailure> {
    let whole = before(c, '.');
    let fraction = without_trailing_zeros(after(c, '.'));
    if !is_literal(c) {
        Err(ParseFailure::InvalidCoefficient(c))
    } else if number_of(whole) > i64::MAX || fraction.len() > 15 {
        Err(ParseFailure::CoefficientOverflow)
    } else {
        Ok(
            FixedPoint::value_of(
                number_of(whole) as int,
                number_of(fraction) as int,
                sign,
                pow10(fraction.len()),
            ),
        )
    }
}

/// The power and the coefficient of a term.
///
/// A term is a sign, which may be missing, and a body. A body with a `*` is a
/// literal, the `*`, and a power; a body that opens with `X` is a power, and
/// its coefficient is one; any other body is a literal, and its power is
/// zero. The literal is judged before the power.
pub open spec fn term_of(term: Seq<char>) -> Result<(nat, int), ParseFailure> {
    let sign = if sign_of(term) is Some {
        sign_of(term)->0
    } else {
        1
    };
    let body = if sign_of(term) is Some {
        term.skip(1)
    } else {
        term
    };
    if body.contains('*') {
        match coefficient_of(before(body, '*'), sign) {
            Err(failure) => Err(failure),
            Ok(coefficient) => match power_of(after(body, '*')) {
                Err(failure) => Err(failure),
                Ok(power) => Ok((power, coefficient)),
            },
        }
    } else if body.len() > 0 && body[0] == 'X' {
        match power_of(body) {
            Err(failure) => Err(failure),
            Ok(power) => Ok((power, sign * 1_000_000_000_000_000)),
        }
    } else {
        match coefficient_of(body, sign) {
            Err(failure) => Err(failure),
            Ok(coefficient) => Ok((0nat, coefficient)),
        }
    }
}

/// The coefficient that a side holds for a power: zero where it names none.
pub open spec fn coefficient_at(side: Map<nat, int>, power: nat) -> int {
    if side.dom().contains(power) {
        side[power]
    } else {
        0
    }
}

/// The sum of the coefficients of each power among the terms of one side,
/// taken from left to right. It fails at the first term that is no term, and
/// at the first sum that is too large to hold.
pub open spec fn side_of(terms: Seq<Seq<char>>) -> Result<Map<nat, int>, ParseFailure>
    decreases terms.len(),
{
    if terms.len() == 0 {
        Ok(Map::empty())
    } else {
        match side_of(terms.drop_last()) {
            Err(failure) => Err(failure),
            Ok(side) => match term_of(terms.last()) {
                Err(failure) => Err(failure),
                Ok((power, coefficient)) => if !side.dom().contains(power) {
                    Ok(side.insert(power, coefficient))
                } else if representable(side[power] + coefficient) {
                    Ok(side.insert(power, side[power] + coefficient))
                } else {
                    Err(ParseFailure::CoefficientOverflow)
                },
            },
        }
    }
}

/// `length` is one more than the highest power that either side names, and
/// `1` where neither names any.
pub open spec fn is_length_of(length: nat, left: Map<nat, int>, right: Map<nat, int>) -> bool {
    &&& length >= 1
    &&& forall|power: nat| left.dom().contains(power) || right.dom().contains(power) ==> power
        < length
    &&& length == 1 || left.dom().contains((length - 1) as nat) || right.dom().contains(
        (length - 1) as nat,
    )
}

/// The coefficients of `left - right = 0` by power.
pub open spec fn is_difference_of(
    coefficients: Seq<int>,
    left: Map<nat, int>,
    right: Map<nat, int>,
) -> bool {
    &&& is_length_of(coefficients.len(), left, right)
    &&& forall|power: int|
        0 <= power < coefficients.len() ==> #[trigger] coefficients[power] == coefficient_at(
            left,
            power as nat,
        ) - coefficient_at(right, power as nat)
}

/// Some difference of coefficients of one power is too large to hold.
pub open spec fn difference_overflows(left: Map<nat, int>, right: Map<nat, int>) -> bool {
    exists|power: nat|
        !representable(#[trigger] coefficient_at(left, power) - coefficient_at(right, power))
}

/// `outcome` is what the text of an equation means.
///
/// The text is freed of its blanks and cut at the first equals sign; an
/// empty left side is refused. Each side is cut into terms and summed by
/// power, the left side first. The coefficients are those of
/// `left - right = 0`.
pub open spec fn is_parse_of(outcome: Result<Seq<int>, ParseFailure>, input: Seq<char>) -> bool {
    let text = cleaned(input);
    if before(text, '=').len() == 0 {
        outcome == Err::<Seq<int>, ParseFailure>(ParseFailure::EmptyInput)
    } else {
        match side_of(terms(before(text, '='))) {
            Err(failure) => outcome == Err::<Seq<int>, ParseFailure>(failure),
            Ok(left) => match side_of(terms(after(text, '='))) {
                Err(failure) => outcome == Err::<Seq<int>, ParseFailure>(failure),
                Ok(right) => if difference_overflows(left, right) {
                    outcome == Err::<Seq<int>, ParseFailure>(ParseFailure::CoefficientOverflow)
                } else {
                    outcome matches Ok(coefficients) && is_difference_of(coefficients, left, right)
                },
            },
        }
    }
}

/// A text has one meaning.
pub proof fn lemma_parse_is_unique(
    first: Result<Seq<int>, ParseFailure>,
    second: Result<Seq<int>, ParseFailure>,
    input: Seq<char>,
)
    requires
        is_parse_of(first, input),
        is_parse_of(second, input),
    ensures
        first == second,
{
    if first is Ok && second is Ok {
        let a = first->Ok_0;
        let b = second->Ok_0;
        let text = cleaned(input);
        let left = side_of(terms(before(text, '=')))->Ok_0;
        let right = side_of(terms(after(text, '=')))->Ok_0;
        assert(is_difference_of(a, left, right));
        assert(is_difference_of(b, left, right));
        if a.len() < b.len() {
            assert(left.dom().contains((b.len() - 1) as nat) || right.dom().contains(
                (b.len() - 1) as nat,
            ));
        }
        if b.len() < a.len() {
            assert(left.dom().contains((a.len() - 1) as nat) || right.dom().contains(
                (a.len() - 1) as nat,
            ));
        }
        assert(a =~= b);
    }
}

} // verus!
