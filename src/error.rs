use vstd::prelude::*;
use crate::token::Token;

verus! {

/// A lexical fault: the line it was found on and what was wrong.
#[derive(Debug, Clone)]
pub struct ScannerError {
    pub line: usize,
    pub message: String,
}

/// What the parser expected where a statement went wrong.
#[derive(Debug, Clone, Copy, PartialEq, Eq, Structural)]
pub enum Expected {
    /// An expression.
    Expression,
    /// `)` after a parenthesized expression.
    RightParen,
    /// `;` after an expression or `print` statement.
    Semicolon,
    /// The name after `let`.
    VariableName,
    /// `=` and a value after the name in a `let`.
    Initializer,
    /// `;` after a `let` binding.
    LetSemicolon,
    /// `}` after the statements of a block.
    RightBrace,
}

/// The first problem found in a statement that failed to parse: the token
/// where it was found, and what was expected there.
#[derive(Debug, Clone)]
pub struct SyntaxError {
    pub token: Token,
    pub expected: Expected,
}

/// The signal that at least one statement failed to parse.
#[derive(Debug, Clone, Copy, PartialEq, Eq, Structural)]
pub struct ParserError;

/// A variable was read that no enclosing scope binds; carries its name.
#[derive(Debug, Clone)]
pub struct UnboundVariable(pub String);

/// An operator was applied to operands for which it is not defined.
#[derive(Debug, Clone, Copy, PartialEq, Eq, Structural)]
pub struct TypeError;

/// What stops the evaluation of one statement.
#[derive(Debug, Clone)]
pub enum RuntimeError {
    UnboundVariable(UnboundVariable),
    TypeError(TypeError),
}

/// Any failure of the pipeline, by stage.
#[derive(Debug)]
pub enum LoxError {
    ScannerError(Vec<ScannerError>),
    ParserError(ParserError),
    RuntimeError(RuntimeError),
}

} // verus!
