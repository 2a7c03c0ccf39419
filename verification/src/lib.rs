//! A reverse Polish notation calculator core.
//!
//! Lines of text are split into tokens (exact decimal literals and the four
//! arithmetic operator symbols), and a stack evaluator applies the operators
//! to the most recently pushed values.  Arithmetic is exact decimal
//! arithmetic, delegated to the `rust_decimal` crate.

pub mod eval;
pub mod literal;
pub mod token;
pub mod num;
