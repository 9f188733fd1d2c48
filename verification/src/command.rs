//! The request vocabulary shared with the surrounding read-eval-print
//! front end: one parsed term of a polynomial expression, the operator
//! between terms, and the operation a command asks for.

use vstd::prelude::*;
use crate::polynomial::Polynomial;

verus! {

/// Which operation a parsed command requests.
#[derive(Clone, Copy, Debug, PartialEq, Eq, Structural)]
pub enum CommandType {
    Factor,
    Derivative,
    Integrate,
}

/// The operator between two parsed terms.
#[derive(Clone, Copy, Debug, PartialEq, Eq, Structural)]
pub enum Op {
    Plus,
    Minus,
}

/// One parsed term `coefficient * x^exponent`.
#[derive(Clone, Copy, Debug, PartialEq, Eq, Structural)]
pub struct Term {
    pub coefficient: i32,
    pub exponent: i32,
}

/// A parsed command: the requested operation and its polynomial.
#[derive(Clone, Debug)]
pub struct Command {
    pub command_type: CommandType,
    pub polynomial: Polynomial,
}

impl Term {
    /// The term `coefficient * x^exponent`.
    pub fn new(coefficient: i32, exponent: i32) -> (t: Term)
        ensures
            t.coefficient == coefficient,
            t.exponent == exponent,
    {
        Term { coefficient, exponent }
    }
}

} // verus!
