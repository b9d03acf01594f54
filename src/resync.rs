use vstd::prelude::*;
use crate::token::{Token, TokenKind};

verus! {

/// The statement keywords from which parsing resumes after an error.
pub open spec fn starts_statement(k: TokenKind) -> bool {
    match k {
        TokenKind::Class | TokenKind::Fn | TokenKind::Let | TokenKind::For | TokenKind::If
        | TokenKind::While | TokenKind::Print | TokenKind::Return => true,
        _ => false,
    }
}

fn statement_start(k: TokenKind) -> (r: bool)
    ensures
        r == starts_statement(k),
{
    match k {
        TokenKind::Class | TokenKind::Fn | TokenKind::Let | TokenKind::For | TokenKind::If
        | TokenKind::While | TokenKind::Print | TokenKind::Return => true,
        _ => false,
    }
}

/// Whether resynchronizing from `at` may pass over the token at `p`: it is
/// not the end of input, no `;` comes just before it, and it starts no
/// statement.
pub open spec fn passed_over(toks: Seq<Token>, p: int) -> bool {
    &&& toks[p].kind != TokenKind::Eof
    &&& toks[p - 1].kind != TokenKind::Semicolon
    &&& !starts_statement(toks[p].kind)
}

/// Where parsing resumes after a failure at `at`: one token further, then on
/// until a `;` has just been passed, a statement keyword is next, or the
/// input ends.
pub fn resume_point(toks: &Vec<Token>, at: usize) -> (r: usize)
    requires
        toks@.len() > 0,
        toks@.last().kind == TokenKind::Eof,
        at < toks@.len(),
    ensures
        at <= r < toks@.len(),
        r > at || toks@[at as int].kind == TokenKind::Eof,
        toks@[at as int].kind == TokenKind::Eof ==> r == at,
        toks@[r as int].kind == TokenKind::Eof || (r > 0 && toks@[r - 1].kind == TokenKind::Semicolon)
            || starts_statement(toks@[r as int].kind),
        forall|p: int| at < p < r ==> #[trigger] passed_over(toks@, p),
{
    let n = toks.len();
    let mut p = at;
    if toks[p].kind != TokenKind::Eof {
        p = p + 1;
    }
    while toks[p].kind != TokenKind::Eof
        invariant
            n == toks@.len(),
            toks@.last().kind == TokenKind::Eof,
            at <= p < n,
            p > at || toks@[at as int].kind == TokenKind::Eof,
            toks@[at as int].kind == TokenKind::Eof ==> p == at,
            forall|x: int| at < x < p ==> #[trigger] passed_over(toks@, x),
        decreases n - p,
    {
        if toks[p - 1].kind == TokenKind::Semicolon {
            return p;
        }
        if statement_start(toks[p].kind) {
            return p;
        }
        p = p + 1;
    }
    p
}

} // verus!
