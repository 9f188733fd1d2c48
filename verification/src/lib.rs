//! An exact-arithmetic polynomial calculator core: polynomials with rational
//! coefficients, evaluation and derivative evaluation at complex rational
//! points, Aberth's simultaneous root iteration with a fixed budget and a
//! bounded working precision, snapping of converged approximations to the
//! simplest nearby fraction, and rendering of the factored form.

pub mod aberth;
pub mod arith;
pub mod command;
pub mod complex;
pub mod polynomial;
pub mod rational;
pub mod render;
pub mod rationalize;
mod random;
