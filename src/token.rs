use vstd::prelude::*;

verus! {

/// The lexical category of a token.
///
/// Identifier, string and number tokens carry their text in the token's
/// lexeme: the name, the quoted literal, and the numeral as written.
#[derive(Debug, Clone, Copy, PartialEq, Eq, Structural)]
pub enum TokenKind {
    LeftParen,
    RightParen,
    LeftBrace,
    RightBrace,
    Comma,
    Dot,
    Minus,
    Plus,
    Semicolon,
    Slash,
    Star,
    Bang,
    BangEqual,
    Equal,
    EqualEqual,
    Greater,
    GreaterEqual,
    Less,
    LessEqual,
    Identifier,
    String,
    Number,
    And,
    Class,
    Else,
    False,
    Fn,
    For,
    If,
    Let,
    Nil,
    Or,
    Print,
    Return,
    Self_,
    Super,
    True,
    While,
    Eof,
}

impl TokenKind {
    /// Whether two kinds are the same for the parser's dispatch. Identifier
    /// tokens compare alike whatever name they carry, since the name lives in
    /// the lexeme.
    pub fn same_kind(&self, rhs: &Self) -> (r: bool)
        ensures
            r == (*self == *rhs),
    {
        *self == *rhs
    }
}

/// Where a lexeme lies in the source: its first character and its length,
/// both counted in characters.
#[derive(Debug, Clone, Copy, PartialEq, Eq, Structural, Default)]
pub struct Span {
    pub offset: usize,
    pub length: usize,
}

impl Span {
    pub fn new(offset: usize, length: usize) -> (r: Self)
        ensures
            r.offset == offset,
            r.length == length,
    {
        Span { offset, length }
    }
}

/// A scanned token: its kind, the source text it was read from, and where.
#[derive(Debug, Clone)]
pub struct Token {
    pub kind: TokenKind,
    pub lexeme: String,
    pub span: Span,
}

impl Token {
    pub fn new(kind: TokenKind, lexeme: &str, span: Span) -> (r: Self)
        ensures
            r.kind == kind,
            r.lexeme@ == lexeme@,
            r.span == span,
    {
        Token { kind, lexeme: lexeme.to_owned(), span }
    }
}

} // verus!
