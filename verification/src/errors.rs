//! Typed failures of the two engine halves. Errors are values, never
//! unchecked aborts; every operation reports exactly one kind.

use vstd::prelude::*;

verus! {

/// Failures of the integer expression evaluator.
#[derive(Clone, Copy, PartialEq, Eq, Structural, Debug)]
pub enum EvalError {
    /// The evaluator was used before `init` succeeded.
    StackNotInitialized,
    /// The input held no token.
    EmptyInput,
    /// A division with divisor 0.
    DivisionByZero,
    /// A character that is neither a digit, an operator, a parenthesis
    /// nor a space.
    UnknownOperator,
    /// The token sequence is no well-formed infix expression, or a
    /// number literal does not fit the machine word.
    InvalidExpression,
    /// Evaluation ended with no value to return.
    NoResult,
    /// A parenthesis without its partner.
    MismatchedParentheses,
}

/// Failures of the polynomial engine.
#[derive(Clone, Copy, PartialEq, Eq, Structural, Debug)]
pub enum PolyError {
    /// A slot name outside `a`..`e`.
    InvalidName,
    /// The named slot holds no polynomial.
    NotFound,
    /// A number in the input leaves the machine range, or an exponent
    /// exceeds the degree bound.
    InputFormatInvalid,
    /// The expression held no token.
    EmptyExpression,
    /// The input is no well-formed term list or operand expression.
    ParseError,
    /// A character outside the accepted alphabet.
    InvalidCharacter,
    /// An operator the polynomial engine does not support.
    UnknownOperator,
    /// A parenthesis without its partner.
    MismatchedParentheses,
    /// A coefficient computation left the machine range.
    Overflow,
}

impl EvalError {
    /// A short display name for the boundary layer.
    pub fn describe(&self) -> (r: &'static str)
    {
        match self {
            EvalError::StackNotInitialized => "stack not initialized",
            EvalError::EmptyInput => "empty input",
            EvalError::DivisionByZero => "division by zero",
            EvalError::UnknownOperator => "unknown operator",
            EvalError::InvalidExpression => "invalid expression",
            EvalError::NoResult => "no result",
            EvalError::MismatchedParentheses => "mismatched parentheses",
        }
    }
}

impl PolyError {
    /// A short display name for the boundary layer.
    pub fn describe(&self) -> (r: &'static str)
    {
        match self {
            PolyError::InvalidName => "invalid polynomial name",
            PolyError::NotFound => "polynomial not found",
            PolyError::InputFormatInvalid => "invalid input format",
            PolyError::EmptyExpression => "empty expression",
            PolyError::ParseError => "expression parse error",
            PolyError::InvalidCharacter => "invalid character in expression",
            PolyError::UnknownOperator => "unknown operator",
            PolyError::MismatchedParentheses => "mismatched parentheses",
            PolyError::Overflow => "arithmetic overflow",
        }
    }
}

} // verus!
