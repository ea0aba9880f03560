use vstd::prelude::*;
use crate::errors::{ParseError, ParseFailure, SolveError};
use crate::math_tools::fixed_point::fixed_point::{FixedPoint, all_normalized, views};
use crate::parser::grammar::is_parse_of;
use crate::parser::input_parser::parse_input;
use crate::solvers::linear::{linear_solution, solve_linear};
use crate::solvers::quadratic::{discriminant, discriminant_of, quadratic_roots, roots_of};

verus! {

/// A polynomial equation `c0 + c1 * X + c2 * X^2 + ... = 0`, and what solving
/// it has found.
///
/// `solutions` is `None` where no finite set of solutions was computed: before
/// the equation is solved, and after it where the degree is zero. It is
/// `Some` of no number where the equation is of degree two and has no real
/// root.
#[derive(Debug)]
pub struct Polynomial {
    pub degree: usize,
    pub coefficients: Vec<FixedPoint>,
    pub discriminant: Option<FixedPoint>,
    pub solutions: Option<Vec<FixedPoint>>,
}

/// The degree of a polynomial from the views of its coefficients: the highest
/// power whose coefficient is not zero, and zero where there is none.
pub open spec fn degree_of(coefficients: Seq<int>) -> nat
    decreases coefficients.len(),
{
    if coefficients.len() <= 1 {
        0
    } else if coefficients.last() != 0 {
        (coefficients.len() - 1) as nat
    } else {
        degree_of(coefficients.drop_last())
    }
}

/// The degree is a power that the coefficients hold.
pub proof fn lemma_degree_of_bound(coefficients: Seq<int>)
    requires
        coefficients.len() >= 1,
    ensures
        degree_of(coefficients) < coefficients.len(),
        degree_of(coefficients) > 0 ==> coefficients[degree_of(coefficients) as int] != 0,
        forall|power: int|
            degree_of(coefficients) < power < coefficients.len() ==> coefficients[power] == 0,
    decreases coefficients.len(),
{
    if coefficients.len() > 1 && coefficients.last() == 0 {
        let front = coefficients.drop_last();
        lemma_degree_of_bound(front);
        assert(degree_of(coefficients) > 0 ==> coefficients[degree_of(coefficients) as int]
            == front[degree_of(front) as int]);
        assert forall|power: int|
            degree_of(coefficients) < power < coefficients.len() implies coefficients[power]
            == 0 by {
            if power < front.len() {
                assert(coefficients[power] == front[power]);
            }
        }
    }
}

/// What solving finds for the coefficients of an equation of a given degree:
/// the discriminant, and the solutions.
///
/// Degree zero has no unknown, and nothing is computed. Degree one has the
/// solution of the linear solver. Degree two has the discriminant, and the
/// roots of the quadratic solver, which are no number at all where the
/// discriminant is below zero. A higher degree is not solved.
pub open spec fn solved(degree: nat, coefficients: Seq<FixedPoint>) -> Result<
    (Option<FixedPoint>, Option<Seq<FixedPoint>>),
    SolveError,
> {
    if degree == 0 {
        Ok((None, None))
    } else if degree == 1 {
        match linear_solution(coefficients) {
            Ok(solutions) => Ok((None, solutions)),
            Err(error) => Err(SolveError::Arithmetic(error)),
        }
    } else if degree == 2 {
        match discriminant_of(coefficients[2], coefficients[1], coefficients[0]) {
            Err(error) => Err(SolveError::Arithmetic(error)),
            Ok(delta) => match roots_of(coefficients[2]@, coefficients[1]@, delta@) {
                Err(error) => Err(SolveError::Arithmetic(error)),
                Ok(None) => Ok((Some(delta), Some(Seq::empty()))),
                Ok(Some(roots)) => Ok((Some(delta), Some(roots))),
            },
        }
    } else {
        Err(SolveError::UnsupportedDegree)
    }
}

impl Polynomial {
    /// There is one coefficient for each power up to the degree, each written
    /// canonically, and the coefficient of the highest power is not zero
    /// unless the degree is.
    pub open spec fn well_formed(&self) -> bool {
        &&& self.coefficients@.len() == self.degree + 1
        &&& all_normalized(self.coefficients@)
        &&& self.degree > 0 ==> self.coefficients@[self.degree as int]@ != 0
    }

    /// What solving has found, with a sequence in place of the vector.
    pub open spec fn found(&self) -> (Option<FixedPoint>, Option<Seq<FixedPoint>>) {
        (
            self.discriminant,
            match self.solutions {
                Some(solutions) => Some(solutions@),
                None => None,
            },
        )
    }

    /// Reads the text of an equation and reduces it: the coefficients of
    /// `left - right = 0` by power, without the zeros above the highest power
    /// that is left. Nothing is solved yet.
    pub fn new(equation: &str) -> (r: Result<Polynomial, ParseError>)
        ensures
            match r {
                Ok(polynomial) => {
                    &&& polynomial.well_formed()
                    &&& polynomial.discriminant is None
                    &&& polynomial.solutions is None
                    &&& exists|parsed: Seq<int>|
                        {
                            &&& #[trigger] is_parse_of(
                                Ok::<Seq<int>, ParseFailure>(parsed),
                                equation@,
                            )
                            &&& polynomial.degree == degree_of(parsed)
                            &&& views(polynomial.coefficients@) == parsed.take(
                                degree_of(parsed) as int + 1,
                            )
                        }
                },
                Err(error) => is_parse_of(Err::<Seq<int>, ParseFailure>(error@), equation@),
            },
    {
        let mut coefficients: Vec<FixedPoint> = match parse_input(equation) {
            Ok(parsed) => parsed,
            Err(error) => {
                return Err(error);
            },
        };
        let ghost parsed = views(coefficients@);
        let degree: usize = Self::get_polynomial_degree(&mut coefficients);
        proof {
            lemma_degree_of_bound(parsed);
            assert(views(coefficients@) =~= parsed.take(degree_of(parsed) as int + 1));
            assert(is_parse_of(Ok::<Seq<int>, ParseFailure>(parsed), equation@));
        }
        Ok(Polynomial { degree, coefficients, discriminant: None, solutions: None })
    }

    /// Drops the zero coefficients above the highest power whose coefficient
    /// is not zero, and gives that power; the constant always stays.
    pub fn get_polynomial_degree(coefficients: &mut Vec<FixedPoint>) -> (degree: usize)
        requires
            old(coefficients)@.len() >= 1,
        ensures
            degree == degree_of(views(old(coefficients)@)),
            final(coefficients)@ == old(coefficients)@.take(degree + 1),
    {
        let mut degree: usize = coefficients.len() - 1;
        let ghost all = coefficients@;

        assert(all.take(degree + 1) =~= all);
        while degree > 0
            invariant
                all == old(coefficients)@,
                degree < all.len(),
                coefficients@ == all.take(degree + 1),
                degree_of(views(all)) == degree_of(views(coefficients@)),
            decreases degree,
        {
            let ghost current = views(coefficients@);
            assert(current.last() == coefficients@[degree as int]@);
            if coefficients[degree].to_units() == 0 {
                degree -= 1;
                coefficients.pop();
                assert(coefficients@ =~= all.take(degree + 1));
                assert(views(coefficients@) =~= current.drop_last());
            } else {
                return degree;
            }
        }
        degree
    }

    /// Whether the equation is `0 = 0`, which every number solves. An
    /// equation of degree zero with any other constant has no solution.
    pub fn holds_for_every_number(&self) -> (r: bool)
        requires
            self.well_formed(),
        ensures
            r == (self.degree == 0 && self.coefficients@[0]@ == 0),
    {
        self.degree == 0 && self.coefficients[0].to_units() == 0
    }

    /// Solves the equation by its degree and keeps what was found. Where an
    /// operation fails, nothing is kept.
    pub fn solve(&mut self) -> (r: Result<(), SolveError>)
        requires
            old(self).well_formed(),
        ensures
            final(self).degree == old(self).degree,
            final(self).coefficients == old(self).coefficients,
            match r {
                Ok(()) => solved(old(self).degree as nat, old(self).coefficients@) == Ok::<
                    (Option<FixedPoint>, Option<Seq<FixedPoint>>),
                    SolveError,
                >(final(self).found()),
                Err(error) => {
                    &&& solved(old(self).degree as nat, old(self).coefficients@) == Err::<
                        (Option<FixedPoint>, Option<Seq<FixedPoint>>),
                        SolveError,
                    >(error)
                    &&& *final(self) == *old(self)
                },
            },
    {
        if self.degree == 0 {
            self.discriminant = None;
            self.solutions = None;
            Ok(())
        } else if self.degree == 1 {
            match solve_linear(&self.coefficients) {
                Ok(solutions) => {
                    self.discriminant = None;
                    self.solutions = solutions;
                    Ok(())
                },
                Err(error) => Err(SolveError::Arithmetic(error)),
            }
        } else if self.degree == 2 {
            let a: FixedPoint = self.coefficients[2];
            let b: FixedPoint = self.coefficients[1];
            let c: FixedPoint = self.coefficients[0];
            let delta: FixedPoint = match discriminant(&a, &b, &c) {
                Ok(difference) => difference,
                Err(error) => {
                    return Err(SolveError::Arithmetic(error));
                },
            };
            match quadratic_roots(&a, &b, &delta) {
                Ok(Some(roots)) => {
                    self.discriminant = Some(delta);
                    self.solutions = Some(roots);
                    Ok(())
                },
                Ok(None) => {
                    self.discriminant = Some(delta);
                    self.solutions = Some(Vec::new());
                    Ok(())
                },
                Err(error) => Err(SolveError::Arithmetic(error)),
            }
        } else {
            Err(SolveError::UnsupportedDegree)
        }
    }
}

} // verus!
