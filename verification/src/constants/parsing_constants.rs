use vstd::prelude::*;

verus! {

/// The letter that stands for the unknown of an equation.
pub const UNKNOWN: char = 'X';

/// Separates the two sides of an equation.
pub const EQUALS: char = '=';

/// Opens a term that is added.
pub const PLUS: char = '+';

/// Opens a term that is subtracted.
pub const MINUS: char = '-';

/// Stands between a coefficient and the unknown.
pub const TIMES: char = '*';

/// Stands between the unknown and its power.
pub const CARET: char = '^';

/// Stands between the whole part and the fraction of a literal.
pub const POINT: char = '.';

/// The most digits a literal may have after the point, once its trailing
/// zeros are dropped.
pub const LITERAL_PRECISION_DIGITS: usize = 15;

} // verus!
