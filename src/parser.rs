use vstd::prelude::*;
use crate::error::{Expected, ParserError, SyntaxError};
use crate::expr::{show, binary_kind, binary_op_of, unary_kind, unary_op_of, BinaryOp, Expr, Literal, UnaryOp};
use crate::statement::Statement;
use crate::resync::{passed_over, resume_point, starts_statement};
use crate::text::{chars_of, string_of};
use crate::scanner::token_views;
use crate::token::{Token, TokenKind};

verus! {

/// A token as the grammar reads it: its kind and the text it carries (the
/// name of an identifier, the numeral, the contents of a string; nothing for
/// the other kinds).
pub type Mark = (TokenKind, Seq<char>);

/// The contents of a string literal's lexeme, without its quotes.
pub open spec fn unquote(s: Seq<char>) -> Seq<char> {
    if s.len() >= 2 {
        s.subrange(1, s.len() - 1)
    } else {
        Seq::empty()
    }
}

pub open spec fn mark(t: Token) -> Mark {
    match t.kind {
        TokenKind::Identifier | TokenKind::Number => (t.kind, t.lexeme@),
        TokenKind::String => (t.kind, unquote(t.lexeme@)),
        _ => (t.kind, Seq::empty()),
    }
}

/// The marks of `toks[a..b]`.
pub open spec fn marks(toks: Seq<Token>, a: int, b: int) -> Seq<Mark> {
    toks.subrange(a, b).map_values(|t: Token| mark(t))
}

pub open spec fn plain(k: TokenKind) -> Mark {
    (k, Seq::empty())
}

/// The tokens that spell an expression, parenthesized groups included.
pub open spec fn expr_marks(e: Expr) -> Seq<Mark>
    decreases e,
{
    match e {
        Expr::Binary(op, l, r) => expr_marks(*l) + seq![plain(binary_kind(op))] + expr_marks(*r),
        Expr::Grouping(x) => seq![plain(TokenKind::LeftParen)] + expr_marks(*x) + seq![plain(TokenKind::RightParen)],
        Expr::Literal(lit) => seq![
            match lit {
                Literal::Boolean(b) => if b {
                    plain(TokenKind::True)
                } else {
                    plain(TokenKind::False)
                },
                Literal::Number(n) => (TokenKind::Number, n@),
                Literal::String(s) => (TokenKind::String, s@),
                Literal::Nil => plain(TokenKind::Nil),
            },
        ],
        Expr::Unary(op, x) => seq![plain(unary_kind(op))] + expr_marks(*x),
        Expr::Variable(name) => seq![(TokenKind::Identifier, name@)],
    }
}

/// The precedence level of each binary operator: 2 for factors (`/ *`), 3
/// for terms (`- +`), 4 for comparisons, 5 for equality. `and` and `or` have
/// no level in the grammar.
pub open spec fn level_of(op: BinaryOp) -> nat {
    match op {
        BinaryOp::Div | BinaryOp::Mul => 2,
        BinaryOp::Minus | BinaryOp::Plus => 3,
        BinaryOp::Greater | BinaryOp::GreaterEqual | BinaryOp::Less | BinaryOp::LessEqual => 4,
        BinaryOp::NotEqual | BinaryOp::Equal => 5,
        BinaryOp::And | BinaryOp::Or => 6,
    }
}

/// Whether `e` is a tree that the grammar derives at `level` (0 primary, 1
/// unary, 2 to 5 the binary levels): every binary node's operator binds no
/// looser than its level allows, its left operand stands at the same level
/// (left associativity), its right operand one level tighter.
pub open spec fn derives(e: Expr, level: nat) -> bool
    decreases e,
{
    match e {
        Expr::Binary(op, l, r) => {
            &&& level_of(op) <= level
            &&& level_of(op) <= 5
            &&& derives(*l, level_of(op))
            &&& derives(*r, (level_of(op) - 1) as nat)
        },
        Expr::Unary(_, x) => level >= 1 && derives(*x, 1),
        Expr::Grouping(x) => derives(*x, 5),
        Expr::Literal(_) => true,
        Expr::Variable(_) => true,
    }
}

/// Whether a token of kind `k` would continue an expression parsed at `level`.
pub open spec fn continues(k: TokenKind, level: nat) -> bool {
    match binary_op_of(k) {
        Some(op) => 2 <= level_of(op) <= level,
        None => false,
    }
}

/// The tokens that spell a statement.
pub open spec fn stmt_marks(s: Statement) -> Seq<Mark>
    decreases s,
{
    match s {
        Statement::Block(stmts) => seq![plain(TokenKind::LeftBrace)] + stmts_marks(stmts@)
            + seq![plain(TokenKind::RightBrace)],
        Statement::Expr(e) => expr_marks(e) + seq![plain(TokenKind::Semicolon)],
        Statement::Print(e) => seq![plain(TokenKind::Print)] + expr_marks(e) + seq![plain(TokenKind::Semicolon)],
        Statement::Let(name, e) => seq![plain(TokenKind::Let), (TokenKind::Identifier, name@), plain(TokenKind::Equal)]
            + expr_marks(e) + seq![plain(TokenKind::Semicolon)],
    }
}

/// The tokens that spell a sequence of statements, one after the other.
pub open spec fn stmts_marks(ss: Seq<Statement>) -> Seq<Mark>
    decreases ss,
{
    if ss.len() == 0 {
        Seq::empty()
    } else {
        stmts_marks(ss.drop_last()) + stmt_marks(ss.last())
    }
}

/// Whether every expression in the statement is derived at the top level.
pub open spec fn stmt_derived(s: Statement) -> bool
    decreases s,
{
    match s {
        Statement::Block(stmts) => stmts_derived(stmts@),
        Statement::Expr(e) => derives(e, 5),
        Statement::Print(e) => derives(e, 5),
        Statement::Let(_, e) => derives(e, 5),
    }
}

pub open spec fn stmts_derived(ss: Seq<Statement>) -> bool
    decreases ss,
{
    ss.len() > 0 ==> stmts_derived(ss.drop_last()) && stmt_derived(ss.last())
}

proof fn lemma_derives_up(e: Expr, l: nat, m: nat)
    requires
        derives(e, l),
        l <= m,
    ensures
        derives(e, m),
{
}

proof fn lemma_marks_join(toks: Seq<Token>, a: int, b: int, c: int)
    requires
        0 <= a <= b <= c <= toks.len(),
    ensures
        marks(toks, a, b) + marks(toks, b, c) == marks(toks, a, c),
{
    assert(marks(toks, a, b) + marks(toks, b, c) =~= marks(toks, a, c));
}

proof fn lemma_marks_one(toks: Seq<Token>, a: int)
    requires
        0 <= a < toks.len(),
    ensures
        marks(toks, a, a + 1) == seq![mark(toks[a])],
{
    assert(marks(toks, a, a + 1) =~= seq![mark(toks[a])]);
}

/// Whether two trees are the same expression: same shape, operators and
/// literal values, names and texts compared by their characters.
pub open spec fn same(a: Expr, b: Expr) -> bool
    decreases a,
{
    match (a, b) {
        (Expr::Binary(o1, l1, r1), Expr::Binary(o2, l2, r2)) => o1 == o2 && same(*l1, *l2) && same(*r1, *r2),
        (Expr::Grouping(x1), Expr::Grouping(x2)) => same(*x1, *x2),
        (Expr::Literal(l1), Expr::Literal(l2)) => match (l1, l2) {
            (Literal::Boolean(x), Literal::Boolean(y)) => x == y,
            (Literal::Number(x), Literal::Number(y)) => x@ == y@,
            (Literal::String(x), Literal::String(y)) => x@ == y@,
            (Literal::Nil, Literal::Nil) => true,
            _ => false,
        },
        (Expr::Unary(o1, x1), Expr::Unary(o2, x2)) => o1 == o2 && same(*x1, *x2),
        (Expr::Variable(x), Expr::Variable(y)) => x@ == y@,
        _ => false,
    }
}

/// The same expression displays the same.
pub proof fn lemma_same_show(a: Expr, b: Expr)
    requires
        same(a, b),
    ensures
        show(a) == show(b),
    decreases a,
{
    match (a, b) {
        (Expr::Binary(_, l1, r1), Expr::Binary(_, l2, r2)) => {
            lemma_same_show(*l1, *l2);
            lemma_same_show(*r1, *r2);
        },
        (Expr::Grouping(x1), Expr::Grouping(x2)) => lemma_same_show(*x1, *x2),
        (Expr::Unary(_, x1), Expr::Unary(_, x2)) => lemma_same_show(*x1, *x2),
        _ => {},
    }
}

/// The left spine of `e` at `level`: the innermost operand that is not an
/// operator of that level, and the operators of that level with their right
/// operands, innermost first.
pub open spec fn spine(e: Expr, level: nat) -> (Expr, Seq<(BinaryOp, Expr)>)
    decreases e,
{
    match e {
        Expr::Binary(op, l, r) => if level_of(op) == level {
            let (b, s) = spine(*l, level);
            (b, s.push((op, *r)))
        } else {
            (e, seq![])
        },
        _ => (e, seq![]),
    }
}

/// Rebuilds a left-associated chain from its innermost operand.
pub open spec fn fold(b: Expr, s: Seq<(BinaryOp, Expr)>) -> Expr
    decreases s.len(),
{
    if s.len() == 0 {
        b
    } else {
        Expr::Binary(s.last().0, Box::new(fold(b, s.drop_last())), Box::new(s.last().1))
    }
}

/// The tokens that spell the operators and right operands of a chain.
pub open spec fn chain_marks(s: Seq<(BinaryOp, Expr)>) -> Seq<Mark>
    decreases s.len(),
{
    if s.len() == 0 {
        Seq::empty()
    } else {
        chain_marks(s.drop_last()) + seq![plain(binary_kind(s.last().0))] + expr_marks(s.last().1)
    }
}

proof fn lemma_spine(e: Expr, level: nat)
    requires
        derives(e, level),
        2 <= level <= 5,
    ensures
        fold(spine(e, level).0, spine(e, level).1) == e,
        expr_marks(e) == expr_marks(spine(e, level).0) + chain_marks(spine(e, level).1),
        derives(spine(e, level).0, (level - 1) as nat),
        forall|i: int| 0 <= i < spine(e, level).1.len() ==> level_of(#[trigger] spine(e, level).1[i].0) == level
            && derives(spine(e, level).1[i].1, (level - 1) as nat),
    decreases e,
{
    match e {
        Expr::Binary(op, l, r) => {
            if level_of(op) == level {
                lemma_spine(*l, level);
                let (b, s) = spine(*l, level);
                assert(s.push((op, *r)).drop_last() =~= s);
                assert(expr_marks(e) =~= expr_marks(b) + chain_marks(s.push((op, *r))));
            } else {
                assert(expr_marks(e) =~= expr_marks(e) + chain_marks(seq![]));
            }
        },
        _ => {
            assert(expr_marks(e) =~= expr_marks(e) + chain_marks(seq![]));
        },
    }
}

proof fn lemma_chain_prefix(s: Seq<(BinaryOp, Expr)>, k: int)
    requires
        0 <= k <= s.len(),
    ensures
        chain_marks(s.take(k)).len() <= chain_marks(s).len(),
        chain_marks(s).subrange(0, chain_marks(s.take(k)).len() as int) == chain_marks(s.take(k)),
        k < s.len() ==> chain_marks(s.take(k + 1)) == chain_marks(s.take(k)) + seq![plain(binary_kind(s[k].0))]
            + expr_marks(s[k].1),
    decreases s.len() - k,
{
    if k < s.len() {
        assert(s.take(k + 1).drop_last() =~= s.take(k));
        lemma_chain_prefix(s, k + 1);
    } else {
        assert(s.take(k) =~= s);
    }
    assert(chain_marks(s).subrange(0, chain_marks(s.take(k)).len() as int) =~= chain_marks(s.take(k)));
}

proof fn lemma_marks_nonempty(e: Expr)
    ensures
        expr_marks(e).len() >= 1,
    decreases e,
{
    match e {
        Expr::Binary(_, l, _) => lemma_marks_nonempty(*l),
        _ => {},
    }
}

proof fn lemma_marks_sub(toks: Seq<Token>, a: int, b: int, i: int, j: int)
    requires
        0 <= a <= b <= toks.len(),
        0 <= i <= j <= b - a,
    ensures
        marks(toks, a, b).subrange(i, j) == marks(toks, a + i, a + j),
{
    assert(marks(toks, a, b).subrange(i, j) =~= marks(toks, a + i, a + j));
}

/// Whether `toks[pos..end]` spells `e`, derived at `level`, and the token
/// at `end` does not continue it.
pub open spec fn spelled(toks: Seq<Token>, e: Expr, pos: int, end: int, level: nat) -> bool {
    &&& derives(e, level)
    &&& 0 <= pos < end < toks.len()
    &&& expr_marks(e) == marks(toks, pos, end)
    &&& !continues(toks[end].kind, level)
}

/// Where the chain of `e` at `level` has reached after `k` operators, when
/// `e` is spelled from `pos`.
pub open spec fn chain_end(e: Expr, level: nat, pos: int, k: int) -> int {
    pos + expr_marks(spine(e, level).0).len() + chain_marks(spine(e, level).1.take(k)).len()
}

proof fn lemma_chain_start(toks: Seq<Token>, e: Expr, pos: int, end: int, level: nat)
    requires
        spelled(toks, e, pos, end, level),
        2 <= level <= 5,
    ensures
        ({
            let (b, s) = spine(e, level);
            let mb = chain_end(e, level, pos, 0);
            &&& mb == pos + expr_marks(b).len()
            &&& spelled(toks, b, pos, mb, (level - 1) as nat)
            &&& mb <= end
            &&& fold(b, s.take(0)) == b
            &&& s.len() == 0 ==> mb == end && fold(b, s.take(0)) == e
            &&& s.len() > 0 ==> toks[mb].kind == binary_kind(s[0].0)
        }),
{
    let (b, s) = spine(e, level);
    lemma_spine(e, level);
    lemma_marks_nonempty(b);
    lemma_chain_prefix(s, 0);
    assert(s.take(0) =~= Seq::<(BinaryOp, Expr)>::empty());
    let mb = pos + expr_marks(b).len();
    let mm = expr_marks(b) + chain_marks(s);
    assert(marks(toks, pos, end).len() == end - pos);
    lemma_marks_sub(toks, pos, end, 0, expr_marks(b).len() as int);
    assert(mm.subrange(0, expr_marks(b).len() as int) =~= expr_marks(b));
    if s.len() > 0 {
        lemma_chain_prefix(s, 1);
        assert(s.take(1).drop_last() =~= s.take(0));
        let c1 = chain_marks(s.take(1));
        assert(c1 == chain_marks(s.take(0)) + seq![plain(binary_kind(s[0].0))] + expr_marks(s[0].1));
        assert(c1[0] == plain(binary_kind(s[0].0)));
        assert(chain_marks(s)[0] == chain_marks(s).subrange(0, c1.len() as int)[0]);
        assert(mm[expr_marks(b).len() as int] == chain_marks(s)[0]);
        assert(marks(toks, pos, end)[mb - pos] == mark(toks[mb]));
    } else {
        assert(chain_marks(s) =~= Seq::<Mark>::empty());
        assert(s.take(0) =~= s);
    }
}

/// Facts about the chain of `e` at `level` used on each operator: where it
/// has reached, and how the marks of its first `k + 1` links continue those
/// of its first `k`.
proof fn lemma_chain_marks(e: Expr, level: nat, k: int)
    requires
        derives(e, level),
        2 <= level <= 5,
        0 <= k < spine(e, level).1.len(),
    ensures
        ({
            let (b, s) = spine(e, level);
            let ck = chain_marks(s.take(k));
            let ck1 = chain_marks(s.take(k + 1));
            &&& expr_marks(e) == expr_marks(b) + chain_marks(s)
            &&& ck1 == ck + seq![plain(binary_kind(s[k].0))] + expr_marks(s[k].1)
            &&& ck1.len() <= chain_marks(s).len()
            &&& chain_marks(s).subrange(0, ck1.len() as int) == ck1
            &&& expr_marks(s[k].1).len() >= 1
            &&& level_of(s[k].0) == level
            &&& derives(s[k].1, (level - 1) as nat)
            &&& fold(b, s.take(k + 1)) == Expr::Binary(s[k].0, Box::new(fold(b, s.take(k))), Box::new(s[k].1))
        }),
{
    let (b, s) = spine(e, level);
    lemma_spine(e, level);
    lemma_marks_nonempty(s[k].1);
    lemma_chain_prefix(s, k);
    lemma_chain_prefix(s, k + 1);
    assert(s.take(k + 1).drop_last() =~= s.take(k));
}

/// Where the token at `at` in `toks` is, given that `toks[pos..end]` spells
/// `m` and `at` lies inside it.
proof fn lemma_mark_at(toks: Seq<Token>, pos: int, end: int, m: Seq<Mark>, at: int)
    requires
        0 <= pos <= at < end <= toks.len(),
        marks(toks, pos, end) == m,
    ensures
        mark(toks[at]) == m[at - pos],
{
    assert(marks(toks, pos, end)[at - pos] == mark(toks[at]));
}

#[verifier::rlimit(40)]
proof fn lemma_chain_step(toks: Seq<Token>, e: Expr, pos: int, end: int, level: nat, k: int)
    requires
        spelled(toks, e, pos, end, level),
        2 <= level <= 5,
        0 <= k < spine(e, level).1.len(),
    ensures
        ({
            let (b, s) = spine(e, level);
            let cur = chain_end(e, level, pos, k);
            let after = chain_end(e, level, pos, k + 1);
            &&& cur < end
            &&& toks[cur].kind == binary_kind(s[k].0)
            &&& binary_op_of(toks[cur].kind) == Some(s[k].0)
            &&& level_of(s[k].0) == level
            &&& after == cur + 1 + expr_marks(s[k].1).len()
            &&& spelled(toks, s[k].1, cur + 1, after, (level - 1) as nat)
            &&& fold(b, s.take(k + 1)) == Expr::Binary(s[k].0, Box::new(fold(b, s.take(k))), Box::new(s[k].1))
        }),
{
    let (b, s) = spine(e, level);
    lemma_chain_marks(e, level, k);
    let rk = s[k].1;
    let ck = chain_marks(s.take(k));
    let ck1 = chain_marks(s.take(k + 1));
    let mb = expr_marks(b);
    let mm = mb + chain_marks(s);
    let cur = chain_end(e, level, pos, k);
    let after = chain_end(e, level, pos, k + 1);
    assert(marks(toks, pos, end).len() == end - pos);
    assert(mm.subrange(0, (mb.len() + ck1.len()) as int) == mb + ck1) by {
        assert(mm.subrange(0, (mb.len() + ck1.len()) as int) =~= mb + chain_marks(s).subrange(0, ck1.len() as int));
    }
    assert(mm[cur - pos] == plain(binary_kind(s[k].0))) by {
        assert(mm[cur - pos] == (mb + ck1)[cur - pos]);
    }
    lemma_mark_at(toks, pos, end, mm, cur);
    assert(marks(toks, cur + 1, after) == expr_marks(rk)) by {
        lemma_marks_sub(toks, pos, end, cur + 1 - pos, after - pos);
        assert(mm.subrange(cur + 1 - pos, after - pos) =~= (mb + ck1).subrange(cur + 1 - pos, after - pos));
        assert((mb + ck1).subrange(cur + 1 - pos, after - pos) =~= expr_marks(rk));
    }
    if k + 1 < s.len() {
        lemma_chain_marks(e, level, k + 1);
        let ck2 = chain_marks(s.take(k + 2));
        assert(mm.subrange(0, (mb.len() + ck2.len()) as int) == mb + ck2) by {
            assert(mm.subrange(0, (mb.len() + ck2.len()) as int) =~= mb + chain_marks(s).subrange(0, ck2.len() as int));
        }
        assert(mm[after - pos] == plain(binary_kind(s[k + 1].0))) by {
            assert(mm[after - pos] == (mb + ck2)[after - pos]);
        }
        lemma_mark_at(toks, pos, end, mm, after);
    } else {
        assert(s.take(k + 1) =~= s);
    }
}

proof fn lemma_chain_done(toks: Seq<Token>, e: Expr, pos: int, end: int, level: nat)
    requires
        spelled(toks, e, pos, end, level),
        2 <= level <= 5,
    ensures
        chain_end(e, level, pos, spine(e, level).1.len() as int) == end,
        fold(spine(e, level).0, spine(e, level).1.take(spine(e, level).1.len() as int)) == e,
{
    let (b, s) = spine(e, level);
    lemma_spine(e, level);
    assert(s.take(s.len() as int) =~= s);
    assert(marks(toks, pos, end).len() == end - pos);
}

/// The token kinds an expression can start with.
pub open spec fn starts_expression(k: TokenKind) -> bool {
    match k {
        TokenKind::True | TokenKind::False | TokenKind::Nil | TokenKind::Number | TokenKind::String
        | TokenKind::Identifier | TokenKind::LeftParen | TokenKind::Bang | TokenKind::Minus => true,
        _ => false,
    }
}

proof fn lemma_expr_first(e: Expr)
    ensures
        expr_marks(e).len() >= 1,
        starts_expression(expr_marks(e)[0].0),
    decreases e,
{
    match e {
        Expr::Binary(_, l, r) => {
            lemma_expr_first(*l);
            assert((expr_marks(*l) + seq![plain(binary_kind(e->Binary_0))] + expr_marks(*r))[0] == expr_marks(*l)[0]);
        },
        Expr::Unary(op, x) => {},
        _ => {},
    }
}

proof fn lemma_stmt_first(s: Statement)
    ensures
        stmt_marks(s).len() >= 2,
        stmt_marks(s)[0].0 == TokenKind::Print <==> s is Print,
        stmt_marks(s)[0].0 == TokenKind::Let <==> s is Let,
        stmt_marks(s)[0].0 == TokenKind::LeftBrace <==> s is Block,
        stmt_marks(s)[0].0 != TokenKind::RightBrace,
        stmt_marks(s)[0].0 != TokenKind::Eof,
{
    match s {
        Statement::Expr(e) => {
            lemma_expr_first(e);
            assert((expr_marks(e) + seq![plain(TokenKind::Semicolon)])[0] == expr_marks(e)[0]);
        },
        _ => {},
    }
}

proof fn lemma_stmts_prefix(ss: Seq<Statement>, k: int)
    requires
        0 <= k <= ss.len(),
    ensures
        stmts_marks(ss.take(k)).len() <= stmts_marks(ss).len(),
        stmts_marks(ss).subrange(0, stmts_marks(ss.take(k)).len() as int) == stmts_marks(ss.take(k)),
        k < ss.len() ==> stmts_marks(ss.take(k + 1)) == stmts_marks(ss.take(k)) + stmt_marks(ss[k]),
        stmts_derived(ss) && k < ss.len() ==> stmt_derived(ss[k]),
    decreases ss.len() - k,
{
    if k < ss.len() {
        assert(ss.take(k + 1).drop_last() =~= ss.take(k));
        lemma_stmts_prefix(ss, k + 1);
        if stmts_derived(ss) {
            lemma_stmts_derived_at(ss, k);
        }
    } else {
        assert(ss.take(k) =~= ss);
    }
    assert(stmts_marks(ss).subrange(0, stmts_marks(ss.take(k)).len() as int) =~= stmts_marks(ss.take(k)));
}

proof fn lemma_stmts_derived_at(ss: Seq<Statement>, k: int)
    requires
        stmts_derived(ss),
        0 <= k < ss.len(),
    ensures
        stmt_derived(ss[k]),
    decreases ss.len(),
{
    if k < ss.len() - 1 {
        assert(ss.drop_last()[k] == ss[k]);
        lemma_stmts_derived_at(ss.drop_last(), k);
    }
}

/// Whether `toks[pos..end]` spells a sequence of statements, and `end` is
/// the end of input.
pub open spec fn program_spelled(toks: Seq<Token>, ss: Seq<Statement>, pos: int, end: int) -> bool {
    &&& stmts_derived(ss)
    &&& 0 <= pos <= end < toks.len()
    &&& toks[end].kind == TokenKind::Eof
    &&& stmts_marks(ss) == marks(toks, pos, end)
}

/// Whether `toks[pos..end]` spells the statement `s`.
pub open spec fn stmt_spelled(toks: Seq<Token>, s: Statement, pos: int, end: int) -> bool {
    &&& stmt_derived(s)
    &&& 0 <= pos < end < toks.len()
    &&& stmt_marks(s) == marks(toks, pos, end)
}

/// Where the `k`-th of the statements `ss` starts, when they are spelled
/// from `pos`.
pub open spec fn stmt_start(ss: Seq<Statement>, pos: int, k: int) -> int {
    pos + stmts_marks(ss.take(k)).len()
}

/// Facts for stepping through statements `ss` spelled at `toks[pos..end]`:
/// the `k`-th is spelled where it starts, and it starts with its own first
/// token; after the last comes `end`.
proof fn lemma_stmts_step(toks: Seq<Token>, ss: Seq<Statement>, pos: int, end: int, k: int)
    requires
        stmts_derived(ss),
        0 <= pos <= end < toks.len(),
        stmts_marks(ss) == marks(toks, pos, end),
        0 <= k <= ss.len(),
    ensures
        stmt_start(ss, pos, k) <= end,
        k == ss.len() ==> stmt_start(ss, pos, k) == end,
        k < ss.len() ==> {
            let q = stmt_start(ss, pos, k);
            &&& stmt_spelled(toks, ss[k], q, stmt_start(ss, pos, k + 1))
            &&& mark(toks[q]) == stmt_marks(ss[k])[0]
        },
{
    lemma_stmts_prefix(ss, k);
    assert(marks(toks, pos, end).len() == end - pos);
    if k < ss.len() {
        let q = stmt_start(ss, pos, k);
        let q1 = stmt_start(ss, pos, k + 1);
        let ck = stmts_marks(ss.take(k));
        let ck1 = stmts_marks(ss.take(k + 1));
        lemma_stmts_prefix(ss, k + 1);
        lemma_stmt_first(ss[k]);
        lemma_marks_sub(toks, pos, end, q - pos, q1 - pos);
        assert(stmts_marks(ss).subrange(q - pos, q1 - pos) =~= ck1.subrange(q - pos, q1 - pos));
        assert(ck1.subrange(q - pos, q1 - pos) =~= stmt_marks(ss[k]));
        assert(marks(toks, q, q1)[0] == mark(toks[q]));
    } else {
        assert(ss.take(k) =~= ss);
    }
}

/// Tokens with the same views spell the same marks.
pub proof fn lemma_marks_same_views(t1: Seq<Token>, t2: Seq<Token>, a: int, b: int)
    requires
        token_views(t1) == token_views(t2),
        0 <= a <= b <= t1.len(),
    ensures
        marks(t1, a, b) == marks(t2, a, b),
        t1.len() == t2.len(),
{
    assert(t1.len() == token_views(t1).len());
    assert forall|i: int| 0 <= i < b - a implies #[trigger] marks(t1, a, b)[i] == marks(t2, a, b)[i] by {
        assert(token_views(t1)[a + i] == token_views(t2)[a + i]);
    }
    assert(marks(t1, a, b) =~= marks(t2, a, b));
}

/// How a statement failed: where it stopped, the token where the problem
/// was found, and what was expected there. `synced` tells that the statement
/// already consumed its terminating `;`, so that parsing resumes right at
/// `resume`; otherwise it resumes by resynchronizing from `resume`.
#[derive(Debug, Clone, Copy)]
pub struct Failure {
    pub resume: usize,
    pub at: usize,
    pub expected: Expected,
    pub synced: bool,
}

impl Failure {
    /// A failure found at `at`, where the statement also stopped.
    pub fn at(at: usize, expected: Expected) -> (r: Failure)
        ensures
            r.resume == at,
            r.at == at,
            r.expected == expected,
            !r.synced,
    {
        Failure { resume: at, at, expected, synced: false }
    }
}

/// How a `let` at `pos` fails, where the statement stopped (`stop`), whether
/// it consumed the `;` that ends it (`synced`), where the problem was found
/// and what was expected there. Wherever a `;` stands just where the name,
/// or the `=`, or the value ended, the `let` consumes it before it reports a
/// missing name or value, and parsing resumes just past it; it stops short of
/// a `;` only where none stands. A missing name is what it reports first.
pub open spec fn let_fails(toks: Seq<Token>, pos: int, stop: int, synced: bool, at: int, expected: Expected) -> bool {
    let named = toks[pos + 1].kind == TokenKind::Identifier;
    let p1 = if named { pos + 2 } else { pos + 1 };
    &&& synced ==> pos + 1 < stop && toks[stop - 1].kind == TokenKind::Semicolon
    &&& !synced ==> toks[stop].kind != TokenKind::Semicolon
    &&& !named ==> at == pos + 1 && expected == Expected::VariableName
    &&& toks[p1].kind == TokenKind::Semicolon ==> {
        &&& synced
        &&& stop == p1 + 1
        &&& named ==> at == p1 && expected == Expected::Initializer
    }
    &&& toks[p1].kind != TokenKind::Semicolon && toks[p1].kind != TokenKind::Equal ==> {
        &&& !synced
        &&& stop == p1
        &&& named ==> at == p1 && expected == Expected::LetSemicolon
    }
    &&& toks[p1].kind == TokenKind::Equal && !starts_expression(toks[p1 + 1].kind) ==> {
        &&& toks[p1 + 1].kind == TokenKind::Semicolon ==> synced && stop == p1 + 2
        &&& toks[p1 + 1].kind != TokenKind::Semicolon ==> !synced && stop == p1 + 1
        &&& named ==> at == p1 + 1 && expected == Expected::Expression
    }
    &&& toks[p1].kind == TokenKind::Equal ==> forall|e: Expr, end: int| #[trigger] spelled(toks, e, p1 + 1, end, 5) ==> {
        &&& toks[end].kind == TokenKind::Semicolon ==> synced && stop == end + 1
        &&& toks[end].kind != TokenKind::Semicolon ==> {
            &&& !synced
            &&& stop == end
            &&& named ==> at == end && expected == Expected::Semicolon
        }
    }
}

/// How a `let` at `pos` fails; see [`let_fails`].
pub open spec fn let_failure(toks: Seq<Token>, pos: int, f: Failure) -> bool {
    let_fails(toks, pos, f.resume as int, f.synced, f.at as int, f.expected)
}

/// One statement's turn in [`Parser::parse_all`]: where it started, where
/// parsing went on, whether it parsed, and, when it did not, the token where
/// the problem was found, what was expected there, where the statement
/// stopped and whether it had consumed its `;` there.
pub struct Step {
    pub start: int,
    pub next: int,
    pub parsed: bool,
    pub at: int,
    pub expected: Expected,
    pub stop: int,
    pub synced: bool,
}

pub open spec fn count_if(b: bool) -> nat {
    if b {
        1
    } else {
        0
    }
}

/// How many of the turns parsed.
pub open spec fn parsed_count(st: Seq<Step>) -> nat
    decreases st.len(),
{
    if st.len() == 0 {
        0
    } else {
        parsed_count(st.drop_last()) + count_if(st.last().parsed)
    }
}

/// Where a failed `let` turn stops; see [`let_fails`].
pub open spec fn let_step(toks: Seq<Token>, s: Step) -> bool {
    let_fails(toks, s.start, s.stop, s.synced, s.at, s.expected)
}

/// What the `i`-th turn of a run of `parse_all` did. A turn starts where the
/// one before went on. A turn parses exactly when a statement is spelled
/// where it starts, and that statement is returned, in order with the
/// others. A turn that fails is reported, in order. Parsing then goes on
/// right where the statement stopped if it consumed its `;` there; else it
/// goes on at the first token after the stop that follows a `;`, starts a
/// statement, or ends the input (at the stop itself if that ends the input).
pub open spec fn step_ok(toks: Seq<Token>, stmts: Seq<Statement>, fails: Seq<SyntaxError>, st: Seq<Step>, i: int) -> bool {
    let s = st[i];
    let pc = parsed_count(st.take(i)) as int;
    &&& 0 <= s.start < s.next < toks.len()
    &&& toks[s.start].kind != TokenKind::Eof
    &&& i + 1 < st.len() ==> st[i + 1].start == s.next
    &&& s.parsed ==> pc < stmts.len() && stmt_spelled(toks, stmts[pc], s.start, s.next)
    &&& !s.parsed ==> {
        &&& 0 <= i - pc < fails.len()
        &&& fails[i - pc].expected == s.expected
        &&& fails[i - pc].token@ == toks[s.at]@
        &&& forall|x: Statement, b: int| !#[trigger] stmt_spelled(toks, x, s.start, b)
        &&& toks[s.next - 1].kind == TokenKind::Semicolon || starts_statement(toks[s.next].kind)
            || toks[s.next].kind == TokenKind::Eof
        &&& s.start <= s.stop < toks.len()
        &&& s.synced ==> s.next == s.stop
        &&& !s.synced ==> {
            &&& toks[s.stop].kind == TokenKind::Eof ==> s.next == s.stop
            &&& toks[s.stop].kind != TokenKind::Eof ==> s.stop < s.next
            &&& forall|x: int| s.stop < x < s.next ==> #[trigger] passed_over(toks, x)
        }
        &&& toks[s.start].kind == TokenKind::Let ==> let_step(toks, s)
    }
}

/// What a run of `parse_all` over all of `toks`, from the first token, gave:
/// its turns `st`, the statements that parsed and the failures reported.
pub open spec fn parse_report(toks: Seq<Token>, stmts: Seq<Statement>, fails: Seq<SyntaxError>, st: Seq<Step>) -> bool {
    &&& st.len() == stmts.len() + fails.len()
    &&& parsed_count(st) == stmts.len()
    &&& st.len() > 0 ==> st[0].start == 0 && toks[st.last().next].kind == TokenKind::Eof
    &&& forall|i: int| 0 <= i < st.len() ==> #[trigger] step_ok(toks, stmts, fails, st, i)
}

/// Adding a turn keeps the turns before it as they were.
proof fn lemma_trace_push(
    toks: Seq<Token>,
    stmts0: Seq<Statement>,
    fails0: Seq<SyntaxError>,
    stmts1: Seq<Statement>,
    fails1: Seq<SyntaxError>,
    st: Seq<Step>,
    step: Step,
)
    requires
        forall|i: int| 0 <= i < st.len() ==> #[trigger] step_ok(toks, stmts0, fails0, st, i),
        st.len() == stmts0.len() + fails0.len(),
        parsed_count(st) == stmts0.len(),
        st.len() > 0 ==> st.last().next == step.start,
        stmts0.len() <= stmts1.len(),
        fails0.len() <= fails1.len(),
        forall|j: int| 0 <= j < stmts0.len() ==> stmts1[j] == stmts0[j],
        forall|j: int| 0 <= j < fails0.len() ==> fails1[j] == fails0[j],
        step.parsed ==> stmts1.len() == stmts0.len() + 1 && fails1.len() == fails0.len(),
        !step.parsed ==> stmts1.len() == stmts0.len() && fails1.len() == fails0.len() + 1,
        step_ok(toks, stmts1, fails1, st.push(step), st.len() as int),
    ensures
        forall|i: int| 0 <= i < st.len() + 1 ==> #[trigger] step_ok(toks, stmts1, fails1, st.push(step), i),
        parsed_count(st.push(step)) == stmts1.len(),
        st.push(step).len() == stmts1.len() + fails1.len(),
{
    let st1 = st.push(step);
    assert(st1.drop_last() =~= st);
    assert forall|i: int| 0 <= i < st.len() + 1 implies #[trigger] step_ok(toks, stmts1, fails1, st1, i) by {
        if i < st.len() {
            assert(step_ok(toks, stmts0, fails0, st, i));
            assert(st1.take(i) =~= st.take(i));
            assert(st1[i] == st[i]);
            if i + 1 < st.len() {
                assert(st1[i + 1] == st[i + 1]);
            } else {
                assert(st1[i + 1] == step);
                assert(st.last() == st[i]);
            }
        }
    }
}

/// A recursive-descent parser over a token sequence that ends with the
/// end-of-input token.
pub struct Parser {
    tokens: Vec<Token>,
    current: usize,
    steps: Ghost<Seq<Step>>,
}

impl Parser {
    pub closed spec fn tokens(&self) -> Seq<Token> {
        self.tokens@
    }

    pub closed spec fn current(&self) -> nat {
        self.current as nat
    }

    /// The turns of the last run of [`Parser::parse_all`].
    pub closed spec fn steps(&self) -> Seq<Step> {
        self.steps@
    }

    /// The token sequence ends with the end-of-input token, and the cursor
    /// stands on a token.
    pub open spec fn well_formed(&self) -> bool {
        &&& self.tokens().len() > 0
        &&& self.tokens().last().kind == TokenKind::Eof
        &&& self.current() < self.tokens().len()
    }

    spec fn at_eof(&self, pos: int) -> bool {
        self.tokens@[pos].kind == TokenKind::Eof
    }

    spec fn ends_well(&self) -> bool {
        &&& self.tokens@.len() > 0
        &&& self.tokens@.last().kind == TokenKind::Eof
    }

    proof fn lemma_not_last(&self, pos: int)
        requires
            self.ends_well(),
            0 <= pos < self.tokens@.len(),
            !self.at_eof(pos),
        ensures
            pos + 1 < self.tokens@.len() <= usize::MAX,
    {
        assert(self.tokens@.len() == self.tokens.len());
    }

    pub fn new(tokens: Vec<Token>) -> (r: Self)
        requires
            tokens@.len() > 0,
            tokens@.last().kind == TokenKind::Eof,
        ensures
            r.tokens() == tokens@,
            r.current() == 0,
            r.well_formed(),
    {
        Parser { tokens, current: 0, steps: Ghost(Seq::empty()) }
    }

    fn eof(&self, pos: usize) -> (r: bool)
        requires
            pos < self.tokens@.len(),
        ensures
            r == self.at_eof(pos as int),
    {
        self.tokens[pos].kind == TokenKind::Eof
    }

    /// Whether the token at `pos` has kind `kind`; never at the end of input.
    fn check(&self, pos: usize, kind: TokenKind) -> (r: bool)
        requires
            pos < self.tokens@.len(),
        ensures
            r == (!self.at_eof(pos as int) && self.tokens@[pos as int].kind == kind),
    {
        if self.eof(pos) {
            false
        } else {
            self.tokens[pos].kind.same_kind(&kind)
        }
    }

    /// The binary operator of `level` at `pos`, if one stands there.
    fn operator_at(&self, pos: usize, level: u8) -> (r: Option<BinaryOp>)
        requires
            pos < self.tokens@.len(),
            2 <= level <= 5,
        ensures
            match r {
                Some(op) => binary_op_of(self.tokens@[pos as int].kind) == Some(op) && level_of(op) == level
                    && !self.at_eof(pos as int),
                None => !(binary_op_of(self.tokens@[pos as int].kind) matches Some(op) && level_of(op) == level),
            },
    {
        let kind = self.tokens[pos].kind;
        let op = match kind {
            TokenKind::Slash => BinaryOp::Div,
            TokenKind::Star => BinaryOp::Mul,
            TokenKind::Minus => BinaryOp::Minus,
            TokenKind::Plus => BinaryOp::Plus,
            TokenKind::Greater => BinaryOp::Greater,
            TokenKind::GreaterEqual => BinaryOp::GreaterEqual,
            TokenKind::Less => BinaryOp::Less,
            TokenKind::LessEqual => BinaryOp::LessEqual,
            TokenKind::BangEqual => BinaryOp::NotEqual,
            TokenKind::EqualEqual => BinaryOp::Equal,
            _ => return None,
        };
        let op_level: u8 = match op {
            BinaryOp::Div | BinaryOp::Mul => 2,
            BinaryOp::Minus | BinaryOp::Plus => 3,
            BinaryOp::NotEqual | BinaryOp::Equal => 5,
            _ => 4,
        };
        if op_level == level {
            Some(BinaryOp::from_kind(&kind))
        } else {
            None
        }
    }

    /// Whether `toks[pos..end]` spells `e`, derived at `level`, and the token
    /// at `end` does not continue it.
    pub open spec fn spells(&self, e: Expr, pos: int, end: int, level: nat) -> bool {
        spelled(self.tokens(), e, pos, end, level)
    }

    /// expression := equality
    ///
    /// Whatever expression the tokens at `pos` spell, the parser finds that
    /// very expression, and where it ends.
    fn expression(&self, pos: usize) -> (r: Result<(Expr, usize), Failure>)
        requires
            self.ends_well(),
            pos < self.tokens@.len(),
        ensures
            match r {
                Ok((e, end)) => self.spells(e, pos as int, end as int, 5),
                Err(f) => pos <= f.resume < self.tokens@.len() && f.at < self.tokens@.len() && !f.synced
                    && f.resume == f.at,
            },
            !starts_expression(self.tokens@[pos as int].kind) ==> (r matches Err(f) && f.at == pos
                && f.expected == Expected::Expression),
            forall|e: Expr, end: int| #[trigger] self.spells(e, pos as int, end, 5)
                ==> (r matches Ok((e2, end2)) && end2 == end && same(e2, e)),
        decreases self.tokens@.len() - pos, 6nat,
    {
        self.binary(pos, 5)
    }

    /// One binary level, left associative:
    /// `level := tighter (op-of-level tighter)*`, where the level below 2 is
    /// `unary`.
    fn binary(&self, pos: usize, level: u8) -> (r: Result<(Expr, usize), Failure>)
        requires
            self.ends_well(),
            pos < self.tokens@.len(),
            2 <= level <= 5,
        ensures
            match r {
                Ok((e, end)) => self.spells(e, pos as int, end as int, level as nat),
                Err(f) => pos <= f.resume < self.tokens@.len() && f.at < self.tokens@.len() && !f.synced
                    && f.resume == f.at,
            },
            !starts_expression(self.tokens@[pos as int].kind) ==> (r matches Err(f) && f.at == pos
                && f.expected == Expected::Expression),
            forall|e: Expr, end: int| #[trigger] self.spells(e, pos as int, end, level as nat)
                ==> (r matches Ok((e2, end2)) && end2 == end && same(e2, e)),
        decreases self.tokens@.len() - pos, level as nat,
    {
        let ghost toks = self.tokens@;
        let ghost lv = level as nat;
        let first = if level == 2 {
            self.unary(pos)
        } else {
            self.binary(pos, level - 1)
        };
        proof {
            // Each expression spelled here starts with its innermost operand,
            // which the first call finds.
            assert forall|e: Expr, e_end: int| #[trigger] self.spells(e, pos as int, e_end, lv) implies ({
                let (b, s) = spine(e, lv);
                &&& (first matches Ok((x, xe)) && xe == chain_end(e, lv, pos as int, 0) && same(x, b))
            }) by {
                lemma_chain_start(toks, e, pos as int, e_end, lv);
                assert(self.spells(spine(e, lv).0, pos as int, chain_end(e, lv, pos as int, 0), (lv - 1) as nat));
            }
        }
        let (mut expr, mut end) = match first {
            Ok(x) => x,
            Err(f) => return Err(f),
        };
        proof {
            lemma_derives_up(expr, (level - 1) as nat, level as nat);
            assert forall|e: Expr, e_end: int| #[trigger] self.spells(e, pos as int, e_end, lv) implies {
                &&& 0 <= spine(e, lv).1.len()
                &&& same(expr, fold(spine(e, lv).0, spine(e, lv).1.take(0)))
                &&& end == chain_end(e, lv, pos as int, 0)
            } by {
                lemma_chain_start(toks, e, pos as int, e_end, lv);
            }
        }
        let ghost mut k: int = 0;
        loop
            invariant
                self.ends_well(),
                toks == self.tokens@,
                2 <= level <= 5,
                lv == level as nat,
                pos < end < self.tokens@.len(),
                derives(expr, level as nat),
                expr_marks(expr) == marks(self.tokens@, pos as int, end as int),
                !continues(self.tokens@[end as int].kind, (level - 1) as nat),
                starts_expression(self.tokens@[pos as int].kind),
                0 <= k,
                forall|e: Expr, e_end: int| #[trigger] self.spells(e, pos as int, e_end, lv) ==> {
                    &&& k <= spine(e, lv).1.len()
                    &&& same(expr, fold(spine(e, lv).0, spine(e, lv).1.take(k)))
                    &&& end == chain_end(e, lv, pos as int, k)
                },
            ensures
                pos < end < self.tokens@.len(),
                derives(expr, level as nat),
                expr_marks(expr) == marks(self.tokens@, pos as int, end as int),
                !continues(self.tokens@[end as int].kind, level as nat),
                forall|e: Expr, e_end: int| #[trigger] self.spells(e, pos as int, e_end, lv)
                    ==> end == e_end && same(expr, e),
            decreases self.tokens@.len() - end,
        {
            let found = self.operator_at(end, level);
            proof {
                assert forall|e: Expr, e_end: int| #[trigger] self.spells(e, pos as int, e_end, lv) implies
                    (k < spine(e, lv).1.len() <==> found is Some) by {
                    if k < spine(e, lv).1.len() {
                        lemma_chain_step(toks, e, pos as int, e_end, lv, k);
                    } else {
                        lemma_chain_done(toks, e, pos as int, e_end, lv);
                    }
                }
            }
            let op = match found {
                Some(op) => op,
                None => {
                    proof {
                        assert forall|e: Expr, e_end: int| #[trigger] self.spells(e, pos as int, e_end, lv) implies
                            end == e_end && same(expr, e) by {
                            lemma_chain_done(toks, e, pos as int, e_end, lv);
                        }
                    }
                    break;
                },
            };
            proof {
                self.lemma_not_last(end as int);
            }
            let right = if level == 2 {
                self.unary(end + 1)
            } else {
                self.binary(end + 1, level - 1)
            };
            proof {
                assert forall|e: Expr, e_end: int| #[trigger] self.spells(e, pos as int, e_end, lv) implies ({
                    let s = spine(e, lv).1;
                    &&& op == s[k].0
                    &&& (right matches Ok((x, xe)) && xe == chain_end(e, lv, pos as int, k + 1) && same(x, s[k].1))
                }) by {
                    lemma_chain_step(toks, e, pos as int, e_end, lv, k);
                    let s = spine(e, lv).1;
                    assert(self.spells(s[k].1, end + 1, chain_end(e, lv, pos as int, k + 1), (lv - 1) as nat));
                }
            }
            let (rhs, next) = match right {
                Ok(x) => x,
                Err(f) => return Err(f),
            };
            proof {
                lemma_marks_one(self.tokens@, end as int);
                lemma_marks_join(self.tokens@, pos as int, end as int, end + 1);
                lemma_marks_join(self.tokens@, pos as int, end + 1, next as int);
                assert(mark(self.tokens@[end as int]) == plain(binary_kind(op)));
            }
            let ghost old_expr = expr;
            expr = Expr::Binary(op, Box::new(expr), Box::new(rhs));
            end = next;
            proof {
                assert forall|e: Expr, e_end: int| #[trigger] self.spells(e, pos as int, e_end, lv) implies {
                    &&& k + 1 <= spine(e, lv).1.len()
                    &&& same(expr, fold(spine(e, lv).0, spine(e, lv).1.take(k + 1)))
                    &&& end == chain_end(e, lv, pos as int, k + 1)
                } by {
                    lemma_chain_step(toks, e, pos as int, e_end, lv, k);
                }
                k = k + 1;
            }
        }
        Ok((expr, end))
    }

    /// unary := ("!" | "-") unary | primary
    fn unary(&self, pos: usize) -> (r: Result<(Expr, usize), Failure>)
        requires
            self.ends_well(),
            pos < self.tokens@.len(),
        ensures
            match r {
                Ok((e, end)) => self.spells(e, pos as int, end as int, 1),
                Err(f) => pos <= f.resume < self.tokens@.len() && f.at < self.tokens@.len() && !f.synced
                    && f.resume == f.at,
            },
            !starts_expression(self.tokens@[pos as int].kind) ==> (r matches Err(f) && f.at == pos
                && f.expected == Expected::Expression),
            forall|e: Expr, end: int| #[trigger] self.spells(e, pos as int, end, 1)
                ==> (r matches Ok((e2, end2)) && end2 == end && same(e2, e)),
        decreases self.tokens@.len() - pos, 1nat,
    {
        let ghost toks = self.tokens@;
        if self.check(pos, TokenKind::Bang) || self.check(pos, TokenKind::Minus) {
            let op = UnaryOp::from_kind(&self.tokens[pos].kind);
            proof {
                self.lemma_not_last(pos as int);
            }
            let inner = self.unary(pos + 1);
            proof {
                assert forall|e: Expr, end: int| #[trigger] self.spells(e, pos as int, end, 1) implies ({
                    &&& e is Unary
                    &&& e->Unary_0 == op
                    &&& (inner matches Ok((x, xe)) && xe == end && same(x, *e->Unary_1))
                }) by {
                    assert(marks(toks, pos as int, end)[0] == mark(toks[pos as int]));
                    if let Expr::Unary(o, x) = e {
                        lemma_marks_nonempty(*x);
                        assert(marks(toks, pos as int, end).len() == end - pos);
                        lemma_marks_sub(toks, pos as int, end, 1, end - pos);
                        assert(expr_marks(e).subrange(1, end - pos) =~= expr_marks(*x));
                        assert(self.spells(*x, pos + 1, end, 1));
                    } else {
                        lemma_expr_first(e);
                    }
                }
            }
            match inner {
                Ok((x, end)) => {
                    proof {
                        lemma_marks_one(self.tokens@, pos as int);
                        lemma_marks_join(self.tokens@, pos as int, pos + 1, end as int);
                    }
                    Ok((Expr::Unary(op, Box::new(x)), end))
                },
                Err(f) => Err(f),
            }
        } else {
            let inner = self.primary(pos);
            proof {
                assert forall|e: Expr, end: int| #[trigger] self.spells(e, pos as int, end, 1) implies
                    (inner matches Ok((x, xe)) && xe == end && same(x, e)) by {
                    assert(marks(toks, pos as int, end)[0] == mark(toks[pos as int]));
                    assert(!(e is Unary));
                    assert(self.spells(e, pos as int, end, 0));
                }
            }
            match inner {
                Ok((x, end)) => {
                    proof {
                        lemma_derives_up(x, 0, 1);
                    }
                    Ok((x, end))
                },
                Err(f) => Err(f),
            }
        }
    }

    /// primary := NUMBER | STRING | "true" | "false" | "nil" | IDENT
    ///          | "(" expression ")"
    fn primary(&self, pos: usize) -> (r: Result<(Expr, usize), Failure>)
        requires
            self.ends_well(),
            pos < self.tokens@.len(),
        ensures
            match r {
                Ok((e, end)) => self.spells(e, pos as int, end as int, 0),
                Err(f) => pos <= f.resume < self.tokens@.len() && f.at < self.tokens@.len() && !f.synced
                    && f.resume == f.at,
            },
            !starts_expression(self.tokens@[pos as int].kind) ==> (r matches Err(f) && f.at == pos
                && f.expected == Expected::Expression),
            forall|e: Expr, end: int| #[trigger] self.spells(e, pos as int, end, 0)
                ==> (r matches Ok((e2, end2)) && end2 == end && same(e2, e)),
        decreases self.tokens@.len() - pos, 0nat,
    {
        let ghost toks = self.tokens@;
        let tok = &self.tokens[pos];
        proof {
            assert forall|e: Expr, end: int| #[trigger] self.spells(e, pos as int, end, 0) implies
                mark(toks[pos as int]) == expr_marks(e)[0] && (!(e is Grouping) ==> end == pos + 1) by {
                assert(marks(toks, pos as int, end)[0] == mark(toks[pos as int]));
                assert(marks(toks, pos as int, end).len() == end - pos);
            }
        }
        if tok.kind == TokenKind::Eof {
            return Err(Failure::at(pos, Expected::Expression));
        }
        proof {
            lemma_marks_one(self.tokens@, pos as int);
            self.lemma_not_last(pos as int);
        }
        match tok.kind {
            TokenKind::False => Ok((Expr::Literal(Literal::Boolean(false)), pos + 1)),
            TokenKind::True => Ok((Expr::Literal(Literal::Boolean(true)), pos + 1)),
            TokenKind::Nil => Ok((Expr::Literal(Literal::Nil), pos + 1)),
            TokenKind::Number => Ok((Expr::Literal(Literal::Number(tok.lexeme.clone())), pos + 1)),
            TokenKind::String => {
                let chars = chars_of(tok.lexeme.as_str());
                let contents = if chars.len() >= 2 {
                    string_of(&chars, 1, chars.len() - 1)
                } else {
                    String::new()
                };
                proof {
                    if chars@.len() < 2 {
                        assert(contents@ =~= Seq::<char>::empty());
                    }
                }
                Ok((Expr::Literal(Literal::String(contents)), pos + 1))
            },
            TokenKind::Identifier => Ok((Expr::Variable(tok.lexeme.clone()), pos + 1)),
            TokenKind::LeftParen => {
                let inner = self.expression(pos + 1);
                proof {
                    assert forall|e: Expr, end: int| #[trigger] self.spells(e, pos as int, end, 0) implies ({
                        &&& e is Grouping
                        &&& (inner matches Ok((x, xe)) && xe == end - 1 && same(x, *e->Grouping_0))
                        &&& toks[end - 1].kind == TokenKind::RightParen
                    }) by {
                        if let Expr::Grouping(x) = e {
                            lemma_marks_nonempty(*x);
                            assert(marks(toks, pos as int, end).len() == end - pos);
                            lemma_marks_sub(toks, pos as int, end, 1, end - pos - 1);
                            assert(expr_marks(e).subrange(1, end - pos - 1) =~= expr_marks(*x));
                            assert(marks(toks, pos as int, end)[end - pos - 1] == mark(toks[end - 1]));
                            assert(expr_marks(e)[end - pos - 1] == plain(TokenKind::RightParen));
                            assert(self.spells(*x, pos + 1, end - 1, 5));
                        }
                    }
                }
                let (inner, end) = match inner {
                    Ok(x) => x,
                    Err(f) => return Err(f),
                };
                if !self.check(end, TokenKind::RightParen) {
                    return Err(Failure::at(end, Expected::RightParen));
                }
                proof {
                    self.lemma_not_last(end as int);
                    lemma_marks_one(self.tokens@, end as int);
                    lemma_marks_join(self.tokens@, pos as int, pos + 1, end as int);
                    lemma_marks_join(self.tokens@, pos as int, end as int, end + 1);
                }
                Ok((Expr::Grouping(Box::new(inner)), end + 1))
            },
            _ => Err(Failure::at(pos, Expected::Expression)),
        }
    }

    /// statement := "print" expression ";" | "let" IDENT "=" expression ";"
    ///            | "{" statement* "}" | expression ";"
    ///
    /// `w` names, for the proof, a statement that the tokens at `pos` spell,
    /// if there is one; the parser then gets through exactly those tokens.
    fn statement(&self, pos: usize, w: Ghost<Option<(Statement, int)>>) -> (r: Result<(Statement, usize), Failure>)
        requires
            self.ends_well(),
            pos < self.tokens@.len(),
            w@ matches Some((s, end)) ==> stmt_spelled(self.tokens@, s, pos as int, end),
        ensures
            match r {
                Ok((s, end)) => stmt_spelled(self.tokens@, s, pos as int, end as int),
                Err(f) => pos <= f.resume < self.tokens@.len() && f.at < self.tokens@.len()
                    && (f.synced ==> pos < f.resume && self.tokens@[f.resume - 1].kind == TokenKind::Semicolon)
                    && (self.tokens@[pos as int].kind == TokenKind::Let ==> let_failure(self.tokens@, pos as int, f)),
            },
            self.tokens@[pos as int].kind == TokenKind::Let && (self.tokens@[pos + 1].kind == TokenKind::Semicolon || (
            self.tokens@[pos + 1].kind == TokenKind::Identifier && self.tokens@[pos + 2].kind == TokenKind::Semicolon))
                ==> r is Err,
            w@ matches Some((s, end)) ==> r matches Ok((_, end2)) && end2 == end,
        decreases self.tokens@.len() - pos, 1nat,
    {
        proof {
            if let Some((s, end)) = w@ {
                lemma_stmt_first(s);
                assert(marks(self.tokens@, pos as int, end)[0] == mark(self.tokens@[pos as int]));
            }
        }
        if self.check(pos, TokenKind::Print) {
            self.print_statement(pos, w)
        } else if self.check(pos, TokenKind::Let) {
            self.binding_statement(pos, w)
        } else if self.check(pos, TokenKind::LeftBrace) {
            self.block_statement(pos, w)
        } else {
            let ghost ew: Option<(Expr, int)> = match w@ {
                Some((Statement::Expr(e), end)) => Some((e, end)),
                _ => None,
            };
            self.expression_statement(pos, Ghost(ew))
        }
    }

    /// `expression ";"` at `pos`.
    fn terminated_expression(&self, pos: usize, w: Ghost<Option<(Expr, int)>>) -> (r: Result<(Expr, usize), Failure>)
        requires
            self.ends_well(),
            pos < self.tokens@.len(),
            w@ matches Some((e, end)) ==> derives(e, 5) && pos < end < self.tokens@.len()
                && expr_marks(e) + seq![plain(TokenKind::Semicolon)] == marks(self.tokens@, pos as int, end),
        ensures
            match r {
                Ok((e, end)) => pos < end < self.tokens@.len() && derives(e, 5)
                    && expr_marks(e) + seq![plain(TokenKind::Semicolon)] == marks(self.tokens@, pos as int, end as int),
                Err(f) => pos <= f.resume < self.tokens@.len() && f.at < self.tokens@.len() && !f.synced
                    && f.resume == f.at,
            },
            !starts_expression(self.tokens@[pos as int].kind) ==> (r matches Err(f) && f.at == pos
                && f.expected == Expected::Expression),
            w@ matches Some((e, end)) ==> r matches Ok((_, end2)) && end2 == end,
            forall|e: Expr, end: int| #[trigger] self.spells(e, pos as int, end, 5) ==> {
                &&& self.tokens@[end].kind == TokenKind::Semicolon ==> (r matches Ok((_, end2)) && end2 == end + 1)
                &&& self.tokens@[end].kind != TokenKind::Semicolon ==> (r matches Err(f) && f.at == end
                    && f.expected == Expected::Semicolon)
            },
    {
        let ghost toks = self.tokens@;
        let ghost ew: Option<(Expr, int)> = match w@ {
            Some((e, end)) => Some((e, end - 1)),
            None => None,
        };
        proof {
            if let Some((e, end)) = w@ {
                let m = expr_marks(e) + seq![plain(TokenKind::Semicolon)];
                lemma_expr_first(e);
                assert(marks(toks, pos as int, end).len() == end - pos);
                lemma_marks_sub(toks, pos as int, end, 0, end - 1 - pos);
                assert(m.subrange(0, end - 1 - pos) =~= expr_marks(e));
                lemma_mark_at(toks, pos as int, end, m, end - 1);
            }
        }
        proof {
            if let Some((e, end)) = w@ {
                assert(self.spells(e, pos as int, end - 1, 5));
            }
        }
        let (e, end) = match self.expression(pos) {
            Ok(x) => x,
            Err(f) => return Err(f),
        };
        if !self.check(end, TokenKind::Semicolon) {
            return Err(Failure::at(end, Expected::Semicolon));
        }
        proof {
            self.lemma_not_last(end as int);
            lemma_marks_one(self.tokens@, end as int);
            lemma_marks_join(self.tokens@, pos as int, end as int, end + 1);
        }
        Ok((e, end + 1))
    }

    /// "print" expression ";", with the keyword at `pos`.
    fn print_statement(&self, pos: usize, w: Ghost<Option<(Statement, int)>>) -> (r: Result<(Statement, usize), Failure>)
        requires
            self.ends_well(),
            pos < self.tokens@.len(),
            self.tokens@[pos as int].kind == TokenKind::Print,
            w@ matches Some((s, end)) ==> stmt_spelled(self.tokens@, s, pos as int, end) && s is Print,
        ensures
            match r {
                Ok((s, end)) => stmt_spelled(self.tokens@, s, pos as int, end as int),
                Err(f) => pos <= f.resume < self.tokens@.len() && f.at < self.tokens@.len()
                    && (f.synced ==> pos < f.resume && self.tokens@[f.resume - 1].kind == TokenKind::Semicolon),
            },
            w@ matches Some((s, end)) ==> r matches Ok((_, end2)) && end2 == end,
    {
        let ghost toks = self.tokens@;
        proof {
            self.lemma_not_last(pos as int);
        }
        let ghost ew: Option<(Expr, int)> = match w@ {
            Some((Statement::Print(e), end)) => Some((e, end)),
            _ => None,
        };
        proof {
            if let Some((Statement::Print(e), end)) = w@ {
                let m = seq![plain(TokenKind::Print)] + expr_marks(e) + seq![plain(TokenKind::Semicolon)];
                assert(marks(toks, pos as int, end).len() == end - pos);
                lemma_marks_sub(toks, pos as int, end, 1, end - pos);
                assert(m.subrange(1, end - pos) =~= expr_marks(e) + seq![plain(TokenKind::Semicolon)]);
            }
        }
        match self.terminated_expression(pos + 1, Ghost(ew)) {
            Ok((e, end)) => {
                proof {
                    lemma_marks_one(self.tokens@, pos as int);
                    lemma_marks_join(self.tokens@, pos as int, pos + 1, end as int);
                    assert(seq![plain(TokenKind::Print)] + (expr_marks(e) + seq![plain(TokenKind::Semicolon)])
                        =~= seq![plain(TokenKind::Print)] + expr_marks(e) + seq![plain(TokenKind::Semicolon)]);
                }
                let st = Statement::Print(e);
                assert(stmt_marks(st) == seq![plain(TokenKind::Print)] + expr_marks(e) + seq![plain(TokenKind::Semicolon)]);
                Ok((st, end))
            },
            Err(f) => Err(f),
        }
    }

    /// expression ";" at `pos`.
    fn expression_statement(&self, pos: usize, w: Ghost<Option<(Expr, int)>>) -> (r: Result<(Statement, usize), Failure>)
        requires
            self.ends_well(),
            pos < self.tokens@.len(),
            w@ matches Some((e, end)) ==> stmt_spelled(self.tokens@, Statement::Expr(e), pos as int, end),
        ensures
            match r {
                Ok((s, end)) => stmt_spelled(self.tokens@, s, pos as int, end as int),
                Err(f) => pos <= f.resume < self.tokens@.len() && f.at < self.tokens@.len()
                    && (f.synced ==> pos < f.resume && self.tokens@[f.resume - 1].kind == TokenKind::Semicolon),
            },
            w@ matches Some((e, end)) ==> r matches Ok((_, end2)) && end2 == end,
    {
        match self.terminated_expression(pos, w) {
            Ok((e, end)) => Ok((Statement::Expr(e), end)),
            Err(f) => Err(f),
        }
    }

    /// "let" IDENT "=" expression ";", with the keyword at `pos`. The `;` is
    /// consumed before a missing name or value is reported, and a binding
    /// without `=` and a value fails.
    fn binding_statement(&self, pos: usize, w: Ghost<Option<(Statement, int)>>) -> (r: Result<(Statement, usize), Failure>)
        requires
            self.ends_well(),
            pos < self.tokens@.len(),
            self.tokens@[pos as int].kind == TokenKind::Let,
            w@ matches Some((s, end)) ==> stmt_spelled(self.tokens@, s, pos as int, end) && s is Let,
        ensures
            match r {
                Ok((s, end)) => stmt_spelled(self.tokens@, s, pos as int, end as int),
                Err(f) => pos <= f.resume < self.tokens@.len() && f.at < self.tokens@.len()
                    && let_failure(self.tokens@, pos as int, f),
            },
            self.tokens@[pos + 1].kind == TokenKind::Semicolon || (self.tokens@[pos + 1].kind == TokenKind::Identifier
                && self.tokens@[pos + 2].kind == TokenKind::Semicolon) ==> r is Err,
            w@ matches Some((s, end)) ==> r matches Ok((_, end2)) && end2 == end,
    {
        let ghost toks = self.tokens@;
        proof {
            self.lemma_not_last(pos as int);
        }
        let p = pos + 1;
        let ghost ew: Option<(Expr, int)> = match w@ {
            Some((Statement::Let(_, e), end)) => Some((e, end)),
            _ => None,
        };
        proof {
            if let Some((Statement::Let(n, e), end)) = w@ {
                let m = seq![plain(TokenKind::Let), (TokenKind::Identifier, n@), plain(TokenKind::Equal)]
                    + expr_marks(e) + seq![plain(TokenKind::Semicolon)];
                lemma_expr_first(e);
                assert(marks(toks, pos as int, end).len() == end - pos);
                lemma_mark_at(toks, pos as int, end, m, pos + 1);
                lemma_mark_at(toks, pos as int, end, m, pos + 2);
                lemma_marks_sub(toks, pos as int, end, 3, end - pos);
                assert(m.subrange(3, end - pos) =~= expr_marks(e) + seq![plain(TokenKind::Semicolon)]);
            }
        }
        let named = self.check(p, TokenKind::Identifier);
        if named {
            proof {
                self.lemma_not_last(p as int);
            }
        }
        let p1 = if named { p + 1 } else { p };
        if !self.check(p1, TokenKind::Equal) {
            if self.check(p1, TokenKind::Semicolon) {
                proof {
                    self.lemma_not_last(p1 as int);
                }
                let f = if named {
                    Failure { resume: p1 + 1, at: p1, expected: Expected::Initializer, synced: true }
                } else {
                    Failure { resume: p1 + 1, at: p, expected: Expected::VariableName, synced: true }
                };
                return Err(f);
            }
            let f = if named {
                Failure::at(p1, Expected::LetSemicolon)
            } else {
                Failure { resume: p1, at: p, expected: Expected::VariableName, synced: false }
            };
            return Err(f);
        }
        proof {
            self.lemma_not_last(p1 as int);
        }
        let value = self.terminated_expression(p1 + 1, Ghost(ew));
        proof {
            assert forall|e: Expr, end: int| #[trigger] spelled(toks, e, p1 + 1, end, 5) implies {
                &&& toks[end].kind == TokenKind::Semicolon ==> (value matches Ok((_, end2)) && end2 == end + 1)
                &&& toks[end].kind != TokenKind::Semicolon ==> (value matches Err(f) && f.at == end
                    && f.expected == Expected::Semicolon)
            } by {
                assert(self.spells(e, p1 + 1, end, 5));
            }
        }
        match value {
            Ok((e, end)) => {
                if !named {
                    proof {
                        lemma_expr_first(e);
                        assert(marks(toks, p1 + 1, end as int).len() == end - (p1 + 1));
                        lemma_mark_at(toks, p1 + 1, end as int, expr_marks(e) + seq![plain(TokenKind::Semicolon)], end - 1);
                    }
                    return Err(Failure { resume: end, at: p, expected: Expected::VariableName, synced: true });
                }
                let name = self.tokens[p].lexeme.clone();
                proof {
                    lemma_marks_one(self.tokens@, pos as int);
                    lemma_marks_one(self.tokens@, p as int);
                    lemma_marks_one(self.tokens@, p1 as int);
                    lemma_marks_join(self.tokens@, pos as int, p as int, p1 as int);
                    lemma_marks_join(self.tokens@, pos as int, p1 as int, p1 + 1);
                    lemma_marks_join(self.tokens@, pos as int, p1 + 1, end as int);
                    assert(marks(self.tokens@, pos as int, p1 + 1) =~= seq![
                        plain(TokenKind::Let),
                        (TokenKind::Identifier, name@),
                        plain(TokenKind::Equal),
                    ]);
                    assert(seq![plain(TokenKind::Let), (TokenKind::Identifier, name@), plain(TokenKind::Equal)]
                        + (expr_marks(e) + seq![plain(TokenKind::Semicolon)])
                        =~= seq![plain(TokenKind::Let), (TokenKind::Identifier, name@), plain(TokenKind::Equal)]
                        + expr_marks(e) + seq![plain(TokenKind::Semicolon)]);
                }
                let st = Statement::Let(name, e);
                assert(stmt_marks(st) == seq![plain(TokenKind::Let), (TokenKind::Identifier, name@), plain(TokenKind::Equal)]
                    + expr_marks(e) + seq![plain(TokenKind::Semicolon)]);
                Ok((st, end))
            },
            Err(f) => {
                // The `;` ends the binding even after a bad value; a missing
                // name was found first.
                let synced = self.check(f.resume, TokenKind::Semicolon);
                let resume = if synced {
                    proof {
                        self.lemma_not_last(f.resume as int);
                    }
                    f.resume + 1
                } else {
                    f.resume
                };
                if named {
                    Err(Failure { resume, at: f.at, expected: f.expected, synced })
                } else {
                    Err(Failure { resume, at: p, expected: Expected::VariableName, synced })
                }
            },
        }
    }

    /// "{" statement* "}", with the brace at `pos`.
    fn block_statement(&self, pos: usize, w: Ghost<Option<(Statement, int)>>) -> (r: Result<(Statement, usize), Failure>)
        requires
            self.ends_well(),
            pos < self.tokens@.len(),
            self.tokens@[pos as int].kind == TokenKind::LeftBrace,
            w@ matches Some((s, end)) ==> stmt_spelled(self.tokens@, s, pos as int, end) && s is Block,
        ensures
            match r {
                Ok((s, end)) => stmt_spelled(self.tokens@, s, pos as int, end as int),
                Err(f) => pos <= f.resume < self.tokens@.len() && f.at < self.tokens@.len()
                    && (f.synced ==> pos < f.resume && self.tokens@[f.resume - 1].kind == TokenKind::Semicolon),
            },
            w@ matches Some((s, end)) ==> r matches Ok((_, end2)) && end2 == end,
        decreases self.tokens@.len() - pos, 0nat,
    {
        let ghost toks = self.tokens@;
        proof {
            self.lemma_not_last(pos as int);
        }
        // The witness's inner statements, and where they end.
        let ghost (ss, close) = match w@ {
            Some((Statement::Block(inner), end)) => (inner@, end - 1),
            _ => (Seq::<Statement>::empty(), 0int),
        };
        proof {
            if let Some((Statement::Block(inner), end)) = w@ {
                let m = seq![plain(TokenKind::LeftBrace)] + stmts_marks(ss) + seq![plain(TokenKind::RightBrace)];
                assert(marks(toks, pos as int, end).len() == end - pos);
                lemma_marks_sub(toks, pos as int, end, 1, end - 1 - pos);
                assert(m.subrange(1, end - 1 - pos) =~= stmts_marks(ss));
                lemma_mark_at(toks, pos as int, end, m, end - 1);
            }
        }
        let mut stmts: Vec<Statement> = Vec::new();
        let mut q = pos + 1;
        let ghost mut k: int = 0;
        proof {
            assert(marks(self.tokens@, pos + 1, q as int) =~= Seq::<Mark>::empty());
            assert(ss.take(0) =~= Seq::<Statement>::empty());
        }
        while !self.check(q, TokenKind::RightBrace) && !self.eof(q)
            invariant
                self.ends_well(),
                toks == self.tokens@,
                pos < q < self.tokens@.len(),
                stmts_marks(stmts@) == marks(self.tokens@, pos + 1, q as int),
                stmts_derived(stmts@),
                w@ is Some ==> {
                    &&& stmts_derived(ss)
                    &&& pos + 1 <= close < toks.len()
                    &&& stmts_marks(ss) == marks(toks, pos + 1, close)
                    &&& toks[close].kind == TokenKind::RightBrace
                    &&& 0 <= k <= ss.len()
                    &&& q == stmt_start(ss, pos + 1, k)
                },
            decreases self.tokens@.len() - q,
        {
            let ghost sw: Option<(Statement, int)> = None;
            proof {
                if w@ is Some {
                    lemma_stmts_step(toks, ss, pos + 1, close, k);
                    if k < ss.len() {
                        lemma_stmt_first(ss[k]);
                        sw = Some((ss[k], stmt_start(ss, pos + 1, k + 1)));
                    }
                }
            }
            let (s, end) = match self.statement(q, Ghost(sw)) {
                Ok(x) => x,
                Err(f) => return Err(f),
            };
            proof {
                lemma_marks_join(self.tokens@, pos + 1, q as int, end as int);
                assert(stmts@.push(s).drop_last() =~= stmts@);
                if w@ is Some {
                    k = k + 1;
                }
            }
            stmts.push(s);
            q = end;
        }
        proof {
            if w@ is Some {
                lemma_stmts_step(toks, ss, pos + 1, close, k);
                if k < ss.len() {
                    lemma_stmt_first(ss[k]);
                }
            }
        }
        if !self.check(q, TokenKind::RightBrace) {
            return Err(Failure::at(q, Expected::RightBrace));
        }
        proof {
            self.lemma_not_last(q as int);
            lemma_marks_one(self.tokens@, pos as int);
            lemma_marks_one(self.tokens@, q as int);
            lemma_marks_join(self.tokens@, pos as int, pos + 1, q as int);
            lemma_marks_join(self.tokens@, pos as int, q as int, q + 1);
        }
        let ghost inner = stmts@;
        let block = Statement::Block(stmts);
        assert(stmt_marks(block) == seq![plain(TokenKind::LeftBrace)] + stmts_marks(inner) + seq![plain(TokenKind::RightBrace)]);
        assert(stmt_derived(block));
        Ok((block, q + 1))
    }

    /// Parses statements from the cursor to the end of input. A statement
    /// that fails is reported, and parsing goes on after it: just past the
    /// `;` that a failed `let` consumed, else by resynchronizing. The
    /// statements that parsed are returned with the report of each one that
    /// failed, both in order; [`step_ok`] says, turn by turn, which.
    /// No statement fails when the tokens up to an end-of-input token spell
    /// a sequence of statements; when none fails, the statements spell
    /// exactly the tokens from the cursor to the end-of-input token where
    /// parsing stops.
    pub fn parse_all(&mut self) -> (r: (Vec<Statement>, Vec<SyntaxError>))
        requires
            old(self).well_formed(),
        ensures
            final(self).well_formed(),
            final(self).tokens() == old(self).tokens(),
            old(self).current() <= final(self).current(),
            final(self).tokens()[final(self).current() as int].kind == TokenKind::Eof,
            stmts_derived(r.0@),
            r.1@.len() == 0 ==> stmts_marks(r.0@) == marks(old(self).tokens(), old(self).current() as int, final(self).current() as int),
            (exists|ss: Seq<Statement>, end: int| program_spelled(old(self).tokens(), ss, old(self).current() as int, end))
                ==> r.1@.len() == 0,
            final(self).steps().len() == r.0@.len() + r.1@.len(),
            parsed_count(final(self).steps()) == r.0@.len(),
            final(self).steps().len() == 0 ==> final(self).current() == old(self).current(),
            final(self).steps().len() > 0 ==> final(self).steps()[0].start == old(self).current()
                && final(self).steps().last().next == final(self).current(),
            forall|i: int| 0 <= i < final(self).steps().len() ==> #[trigger] step_ok(
                old(self).tokens(),
                r.0@,
                r.1@,
                final(self).steps(),
                i,
            ),
    {
        let ghost toks = self.tokens@;
        let start = self.current;
        let ghost spelled_any = exists|ss: Seq<Statement>, end: int| program_spelled(toks, ss, start as int, end);
        let ghost (ss, eof_at) = if spelled_any {
            choose|ss: Seq<Statement>, end: int| program_spelled(toks, ss, start as int, end)
        } else {
            (Seq::<Statement>::empty(), 0int)
        };
        let mut cur = self.current;
        let mut stmts: Vec<Statement> = Vec::new();
        let mut failures: Vec<SyntaxError> = Vec::new();
        let ghost mut k: int = 0;
        let ghost mut trace: Seq<Step> = Seq::empty();
        proof {
            assert(marks(self.tokens@, start as int, start as int) =~= Seq::<Mark>::empty());
            assert(ss.take(0) =~= Seq::<Statement>::empty());
        }
        while !self.eof(cur)
            invariant
                self.ends_well(),
                toks == self.tokens@,
                start <= cur < self.tokens@.len(),
                stmts_derived(stmts@),
                failures@.len() == 0 ==> stmts_marks(stmts@) == marks(self.tokens@, start as int, cur as int),
                spelled_any ==> {
                    &&& program_spelled(toks, ss, start as int, eof_at)
                    &&& failures@.len() == 0
                    &&& 0 <= k <= ss.len()
                    &&& cur == stmt_start(ss, start as int, k)
                },
                trace.len() == stmts@.len() + failures@.len(),
                parsed_count(trace) == stmts@.len(),
                trace.len() == 0 ==> cur == start,
                trace.len() > 0 ==> trace[0].start == start && trace.last().next == cur,
                forall|i: int| 0 <= i < trace.len() ==> #[trigger] step_ok(toks, stmts@, failures@, trace, i),
            ensures
                start <= cur < self.tokens@.len(),
                self.at_eof(cur as int),
                stmts_derived(stmts@),
                failures@.len() == 0 ==> stmts_marks(stmts@) == marks(self.tokens@, start as int, cur as int),
                spelled_any ==> failures@.len() == 0,
                trace.len() == stmts@.len() + failures@.len(),
                parsed_count(trace) == stmts@.len(),
                trace.len() == 0 ==> cur == start,
                trace.len() > 0 ==> trace[0].start == start && trace.last().next == cur,
                forall|i: int| 0 <= i < trace.len() ==> #[trigger] step_ok(toks, stmts@, failures@, trace, i),
            decreases self.tokens@.len() - cur,
        {
            let ghost here = exists|x: Statement, b: int| stmt_spelled(toks, x, cur as int, b);
            let ghost sw: Option<(Statement, int)> = None;
            proof {
                if spelled_any {
                    lemma_stmts_step(toks, ss, start as int, eof_at, k);
                    if k < ss.len() {
                        sw = Some((ss[k], stmt_start(ss, start as int, k + 1)));
                    }
                } else if here {
                    let (x, b) = choose|x: Statement, b: int| stmt_spelled(toks, x, cur as int, b);
                    sw = Some((x, b));
                }
            }
            let ghost trace0 = trace;
            let ghost stmts0 = stmts@;
            let ghost failures0 = failures@;
            match self.statement(cur, Ghost(sw)) {
                Ok((s, end)) => {
                    proof {
                        lemma_marks_join(self.tokens@, start as int, cur as int, end as int);
                        assert(stmts@.push(s).drop_last() =~= stmts@);
                        if spelled_any {
                            k = k + 1;
                        }
                    }
                    stmts.push(s);
                    proof {
                        let step = Step {
                            start: cur as int,
                            next: end as int,
                            parsed: true,
                            at: 0,
                            expected: Expected::Expression,
                            stop: end as int,
                            synced: true,
                        };
                        trace = trace0.push(step);
                        assert(trace.take(trace0.len() as int) =~= trace0);
                        assert(step_ok(toks, stmts@, failures@, trace, trace0.len() as int));
                        lemma_trace_push(toks, stmts0, failures0, stmts@, failures@, trace0, step);
                    }
                    cur = end;
                },
                Err(f) => {
                    let token = &self.tokens[f.at];
                    failures.push(SyntaxError {
                        token: Token::new(token.kind, token.lexeme.as_str(), token.span),
                        expected: f.expected,
                    });
                    let next = if f.synced {
                        f.resume
                    } else {
                        resume_point(&self.tokens, f.resume)
                    };
                    proof {
                        assert(forall|x: Statement, b: int| !#[trigger] stmt_spelled(toks, x, cur as int, b));
                        let step = Step {
                            start: cur as int,
                            next: next as int,
                            parsed: false,
                            at: f.at as int,
                            expected: f.expected,
                            stop: f.resume as int,
                            synced: f.synced,
                        };
                        trace = trace0.push(step);
                        assert(trace.take(trace0.len() as int) =~= trace0);
                        assert(failures@[failures0.len() as int].token@ == toks[f.at as int]@);
                        assert(step_ok(toks, stmts@, failures@, trace, trace0.len() as int));
                        lemma_trace_push(toks, stmts0, failures0, stmts@, failures@, trace0, step);
                    }
                    cur = next;
                },
            }
        }
        self.current = cur;
        self.steps = Ghost(trace);
        (stmts, failures)
    }

    /// Parses one expression that runs from the cursor to the end of input.
    /// It succeeds exactly when the tokens there spell an expression of the
    /// grammar; it then returns that expression, which displays as the one
    /// spelled does.
    pub fn parse_expression(&mut self) -> (r: Result<Expr, ParserError>)
        requires
            old(self).well_formed(),
        ensures
            final(self).well_formed(),
            final(self).tokens() == old(self).tokens(),
            r matches Ok(e) ==> old(self).spells(e, old(self).current() as int, final(self).current() as int, 5)
                && final(self).tokens()[final(self).current() as int].kind == TokenKind::Eof,
            forall|e: Expr, end: int| #[trigger] old(self).spells(e, old(self).current() as int, end, 5)
                && old(self).tokens()[end].kind == TokenKind::Eof
                ==> (r matches Ok(e2) && same(e2, e) && show(e2) == show(e)),
            r is Ok <==> exists|e: Expr, end: int| #[trigger] old(self).spells(e, old(self).current() as int, end, 5)
                && old(self).tokens()[end].kind == TokenKind::Eof,
    {
        let start = self.current;
        let parsed = self.expression(start);
        proof {
            assert forall|e: Expr, end: int| #[trigger] self.spells(e, start as int, end, 5)
                && self.tokens@[end].kind == TokenKind::Eof implies (parsed matches Ok((e2, end2))
                && end2 == end && same(e2, e) && show(e2) == show(e)) by {
                if let Ok((e2, _)) = parsed {
                    lemma_same_show(e2, e);
                }
            }
        }
        match parsed {
            Ok((e, end)) => {
                if self.eof(end) {
                    self.current = end;
                    Ok(e)
                } else {
                    Err(ParserError)
                }
            },
            Err(_) => Err(ParserError),
        }
    }

    /// Parses the whole token sequence: `Ok` with the statements when every
    /// statement parsed, else the failure signal. [`Parser::parse_all`] gives
    /// the statements that parsed and the report of each failure as well.
    pub fn parse(&mut self) -> (r: Result<Vec<Statement>, ParserError>)
        requires
            old(self).well_formed(),
        ensures
            final(self).well_formed(),
            final(self).tokens() == old(self).tokens(),
            final(self).tokens()[final(self).current() as int].kind == TokenKind::Eof,
            r matches Ok(stmts) ==> stmts_derived(stmts@)
                && stmts_marks(stmts@) == marks(old(self).tokens(), old(self).current() as int, final(self).current() as int),
            (exists|ss: Seq<Statement>, end: int| program_spelled(old(self).tokens(), ss, old(self).current() as int, end))
                ==> r is Ok,
    {
        let (stmts, failures) = self.parse_all();
        if failures.len() == 0 {
            Ok(stmts)
        } else {
            Err(ParserError)
        }
    }
}

} // verus!
