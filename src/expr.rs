use vstd::prelude::*;
use vstd::string::StringExecFns;
use crate::scanner::run_until;
use crate::text::{chars_of, string_of};
use crate::token::TokenKind;

verus! {

/// An expression tree; each node owns its children.
#[derive(Debug)]
pub enum Expr {
    Binary(BinaryOp, Box<Expr>, Box<Expr>),
    Grouping(Box<Expr>),
    Literal(Literal),
    Unary(UnaryOp, Box<Expr>),
    Variable(String),
}

#[derive(Debug, Clone, Copy, PartialEq, Eq, Structural)]
pub enum BinaryOp {
    Minus,
    Plus,
    Div,
    Mul,
    NotEqual,
    Equal,
    Greater,
    GreaterEqual,
    Less,
    LessEqual,
    And,
    Or,
}

#[derive(Debug, Clone, Copy, PartialEq, Eq, Structural)]
pub enum UnaryOp {
    Minus,
    Not,
}

/// A literal as written in the source. A number keeps its numeral, a string
/// its contents without the quotes.
#[derive(Debug)]
pub enum Literal {
    Boolean(bool),
    Number(String),
    String(String),
    Nil,
}

/// The binary operator that a token kind stands for, if any.
pub open spec fn binary_op_of(k: TokenKind) -> Option<BinaryOp> {
    match k {
        TokenKind::Minus => Some(BinaryOp::Minus),
        TokenKind::Plus => Some(BinaryOp::Plus),
        TokenKind::Slash => Some(BinaryOp::Div),
        TokenKind::Star => Some(BinaryOp::Mul),
        TokenKind::BangEqual => Some(BinaryOp::NotEqual),
        TokenKind::EqualEqual => Some(BinaryOp::Equal),
        TokenKind::Greater => Some(BinaryOp::Greater),
        TokenKind::GreaterEqual => Some(BinaryOp::GreaterEqual),
        TokenKind::Less => Some(BinaryOp::Less),
        TokenKind::LessEqual => Some(BinaryOp::LessEqual),
        TokenKind::And => Some(BinaryOp::And),
        TokenKind::Or => Some(BinaryOp::Or),
        _ => None,
    }
}

/// The unary operator that a token kind stands for, if any.
pub open spec fn unary_op_of(k: TokenKind) -> Option<UnaryOp> {
    match k {
        TokenKind::Minus => Some(UnaryOp::Minus),
        TokenKind::Bang => Some(UnaryOp::Not),
        _ => None,
    }
}

/// The token kind that writes each binary operator.
pub open spec fn binary_kind(op: BinaryOp) -> TokenKind {
    match op {
        BinaryOp::Minus => TokenKind::Minus,
        BinaryOp::Plus => TokenKind::Plus,
        BinaryOp::Div => TokenKind::Slash,
        BinaryOp::Mul => TokenKind::Star,
        BinaryOp::NotEqual => TokenKind::BangEqual,
        BinaryOp::Equal => TokenKind::EqualEqual,
        BinaryOp::Greater => TokenKind::Greater,
        BinaryOp::GreaterEqual => TokenKind::GreaterEqual,
        BinaryOp::Less => TokenKind::Less,
        BinaryOp::LessEqual => TokenKind::LessEqual,
        BinaryOp::And => TokenKind::And,
        BinaryOp::Or => TokenKind::Or,
    }
}

/// The token kind that writes each unary operator.
pub open spec fn unary_kind(op: UnaryOp) -> TokenKind {
    match op {
        UnaryOp::Minus => TokenKind::Minus,
        UnaryOp::Not => TokenKind::Bang,
    }
}

pub open spec fn binary_symbol(op: BinaryOp) -> Seq<char> {
    match op {
        BinaryOp::Minus => "-"@,
        BinaryOp::Plus => "+"@,
        BinaryOp::Div => "/"@,
        BinaryOp::Mul => "*"@,
        BinaryOp::NotEqual => "!="@,
        BinaryOp::Equal => "="@,
        BinaryOp::Greater => ">"@,
        BinaryOp::GreaterEqual => ">="@,
        BinaryOp::Less => "<"@,
        BinaryOp::LessEqual => "<="@,
        BinaryOp::And => "&"@,
        BinaryOp::Or => "|"@,
    }
}

pub open spec fn unary_symbol(op: UnaryOp) -> Seq<char> {
    match op {
        UnaryOp::Minus => "-"@,
        UnaryOp::Not => "!"@,
    }
}

pub open spec fn show_literal(lit: Literal) -> Seq<char> {
    match lit {
        Literal::Boolean(b) => if b {
            "true"@
        } else {
            "false"@
        },
        Literal::Number(n) => canonical_numeral(n@),
        Literal::String(s) => s@,
        Literal::Nil => "nil"@,
    }
}

/// Where the integer part of a numeral starts once its superfluous leading
/// zeros are dropped; one digit always stays before the `.` at `dot`.
pub open spec fn skip_zeros(s: Seq<char>, i: int, dot: int) -> int
    decreases dot - i,
{
    if 0 <= i && i + 1 < dot && s[i] == '0' {
        skip_zeros(s, i + 1, dot)
    } else {
        i
    }
}

/// Where the fraction of a numeral ends once its trailing zeros are dropped.
pub open spec fn trim_zeros(s: Seq<char>, j: int, lo: int) -> int
    decreases j - lo,
{
    if lo < j && j <= s.len() && s[j - 1] == '0' {
        trim_zeros(s, j - 1, lo)
    } else {
        j
    }
}

/// A numeral in canonical decimal form: no leading zeros but the one before
/// the point, no trailing zeros after it, no point without a fraction
/// (`007.50` is `7.5`, `1.0` is `1`). This is how a double displays only
/// while the numeral has no more digits than a double holds: a longer one,
/// such as `0.10000000000000000001`, keeps its digits here, where the double
/// it denotes displays as `0.1`.
pub open spec fn canonical_numeral(s: Seq<char>) -> Seq<char> {
    let dot = run_until(s, 0, '.') as int;
    let a = skip_zeros(s, 0, dot);
    let b = if dot < s.len() {
        trim_zeros(s, s.len() as int, dot + 1)
    } else {
        dot + 1
    };
    if b > dot + 1 {
        s.subrange(a, dot) + "."@ + s.subrange(dot + 1, b)
    } else {
        s.subrange(a, dot)
    }
}

/// The numeral `n` in canonical form.
pub fn canonical(n: &String) -> (r: String)
    ensures
        r@ == canonical_numeral(n@),
{
    let chars = chars_of(n.as_str());
    let len = chars.len();
    let mut dot: usize = 0;
    while dot < len && chars[dot] != '.'
        invariant
            len == chars@.len(),
            chars@ == n@,
            dot <= len,
            run_until(chars@, 0, '.') == dot + run_until(chars@, dot as int, '.'),
        decreases len - dot,
    {
        dot = dot + 1;
    }
    let mut a: usize = 0;
    while a < dot && a + 1 < dot && chars[a] == '0'
        invariant
            dot <= len == chars@.len(),
            a <= dot,
            skip_zeros(chars@, 0, dot as int) == skip_zeros(chars@, a as int, dot as int),
        decreases dot - a,
    {
        a = a + 1;
    }
    let mut out = string_of(&chars, a, dot);
    if dot < len {
        let mut b: usize = len;
        while b > dot + 1 && chars[b - 1] == '0'
            invariant
                dot < len == chars@.len(),
                dot + 1 <= b <= len,
                trim_zeros(chars@, len as int, dot + 1) == trim_zeros(chars@, b as int, dot + 1),
            decreases b,
        {
            b = b - 1;
        }
        if b > dot + 1 {
            out.append(".");
            let frac = string_of(&chars, dot + 1, b);
            out.append(frac.as_str());
        }
    }
    out
}

/// The fully parenthesized prefix form of an expression: `(op left right)`,
/// `(op operand)`, `(group inner)`, literals and names as they are.
pub open spec fn show(e: Expr) -> Seq<char>
    decreases e,
{
    match e {
        Expr::Binary(op, l, r) => "("@ + binary_symbol(op) + " "@ + show(*l) + " "@ + show(*r) + ")"@,
        Expr::Grouping(x) => "(group "@ + show(*x) + ")"@,
        Expr::Literal(lit) => show_literal(lit),
        Expr::Unary(op, x) => "("@ + unary_symbol(op) + " "@ + show(*x) + ")"@,
        Expr::Variable(name) => name@,
    }
}

impl BinaryOp {
    /// The operator a token kind stands for; only operator kinds are allowed.
    pub fn from_kind(kind: &TokenKind) -> (r: BinaryOp)
        requires
            binary_op_of(*kind) is Some,
        ensures
            binary_op_of(*kind) == Some(r),
    {
        match kind {
            TokenKind::Minus => BinaryOp::Minus,
            TokenKind::Plus => BinaryOp::Plus,
            TokenKind::Slash => BinaryOp::Div,
            TokenKind::Star => BinaryOp::Mul,
            TokenKind::BangEqual => BinaryOp::NotEqual,
            TokenKind::EqualEqual => BinaryOp::Equal,
            TokenKind::Greater => BinaryOp::Greater,
            TokenKind::GreaterEqual => BinaryOp::GreaterEqual,
            TokenKind::Less => BinaryOp::Less,
            TokenKind::LessEqual => BinaryOp::LessEqual,
            TokenKind::And => BinaryOp::And,
            _ => BinaryOp::Or,
        }
    }

    /// The operator's symbol in the prefix form.
    pub fn symbol(&self) -> (r: &'static str)
        ensures
            r@ == binary_symbol(*self),
    {
        match self {
            BinaryOp::Minus => "-",
            BinaryOp::Plus => "+",
            BinaryOp::Div => "/",
            BinaryOp::Mul => "*",
            BinaryOp::NotEqual => "!=",
            BinaryOp::Equal => "=",
            BinaryOp::Greater => ">",
            BinaryOp::GreaterEqual => ">=",
            BinaryOp::Less => "<",
            BinaryOp::LessEqual => "<=",
            BinaryOp::And => "&",
            BinaryOp::Or => "|",
        }
    }
}

impl UnaryOp {
    /// The operator a token kind stands for; only `-` and `!` are allowed.
    pub fn from_kind(kind: &TokenKind) -> (r: UnaryOp)
        requires
            unary_op_of(*kind) is Some,
        ensures
            unary_op_of(*kind) == Some(r),
    {
        match kind {
            TokenKind::Minus => UnaryOp::Minus,
            _ => UnaryOp::Not,
        }
    }

    /// The operator's symbol in the prefix form.
    pub fn symbol(&self) -> (r: &'static str)
        ensures
            r@ == unary_symbol(*self),
    {
        match self {
            UnaryOp::Minus => "-",
            UnaryOp::Not => "!",
        }
    }
}

impl Literal {
    /// The literal as the prefix form writes it.
    pub fn display(&self) -> (r: String)
        ensures
            r@ == show_literal(*self),
    {
        match self {
            Literal::Boolean(b) => if *b {
                String::from_str("true")
            } else {
                String::from_str("false")
            },
            Literal::Number(n) => canonical(n),
            Literal::String(s) => s.clone(),
            Literal::Nil => String::from_str("nil"),
        }
    }
}

impl Expr {
    /// The fully parenthesized prefix form of the expression.
    pub fn display(&self) -> (r: String)
        ensures
            r@ == show(*self),
        decreases self,
    {
        match self {
            Expr::Binary(op, l, r) => {
                let mut s = String::from_str("(");
                s.append(op.symbol());
                s.append(" ");
                let ls = l.display();
                s.append(ls.as_str());
                s.append(" ");
                let rs = r.display();
                s.append(rs.as_str());
                s.append(")");
                s
            },
            Expr::Grouping(x) => {
                let mut s = String::from_str("(group ");
                let xs = x.display();
                s.append(xs.as_str());
                s.append(")");
                s
            },
            Expr::Literal(lit) => lit.display(),
            Expr::Unary(op, x) => {
                let mut s = String::from_str("(");
                s.append(op.symbol());
                s.append(" ");
                let xs = x.display();
                s.append(xs.as_str());
                s.append(")");
                s
            },
            Expr::Variable(name) => name.clone(),
        }
    }
}

} // verus!
