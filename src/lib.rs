//! A tree-walking interpreter front-end for a small expression and statement
//! language: a scanner from text to tokens, a recursive-descent parser from
//! tokens to statements, and an evaluator over chained lexical scopes.
pub mod environment;
pub mod error;
pub mod eval;
pub mod expr;
pub mod lox;
pub mod parser;
pub mod resync;
pub mod scanner;
pub mod statement;
pub mod text;
pub mod token;
