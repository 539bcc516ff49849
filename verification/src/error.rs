//! The error taxonomy shared by every stage of the evaluator.
//!
//! All failure modes of the pipeline are values of [`EvalError`]; nothing in
//! the library panics on user input.  Positions are 0-based character
//! offsets into the original expression string.

use vstd::prelude::*;

use crate::token::TokenKind;

verus! {

/// What the parser was looking for when it met an unexpected token.
#[derive(Clone, Copy, Debug, PartialEq, Eq, Structural)]
pub enum Expected {
    /// The start of a value: a number, `(` or a unary `-`.
    Primary,
    /// A closing parenthesis matching an earlier `(`.
    CloseParen,
    /// The end of the input after a complete expression.
    End,
}

/// A recoverable failure of tokenizing, parsing or evaluating.
#[derive(Clone, Copy, Debug, PartialEq, Eq, Structural)]
pub enum EvalError {
    /// A character the grammar does not know, at the given offset.
    UnexpectedCharacter(usize, char),
    /// A well-formed token in a place the grammar does not allow it:
    /// its offset, the token found, and what was expected instead.
    UnexpectedToken(usize, TokenKind, Expected),
    /// The input ended in the middle of an expression.
    UnexpectedEndOfInput,
    /// A division whose right-hand side evaluates to exactly zero.
    DivisionByZero,
    /// An intermediate or final value outside the representable range.
    NumericOverflow,
}

} // verus!
