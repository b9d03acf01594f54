use vstd::prelude::*;
use vstd::string::StringExecFns;
use crate::environment::{lookup, scope_get, Environment, ScopeView};
use crate::error::{RuntimeError, TypeError, UnboundVariable};
use crate::expr::{BinaryOp, Expr, Literal, UnaryOp};

verus! {

/// A runtime value. A number is an IEEE 754 double, held here as its bit
/// pattern; what arithmetic does to it is up to the host's [`Arithmetic`].
#[derive(Debug, Clone)]
pub enum Value {
    Boolean(bool),
    Number(u64),
    String(String),
    Nil,
}

/// What is known of a value. Everything is known of a value at hand; of the
/// result of an evaluation, all but what floating-point arithmetic decides.
pub enum Shape {
    Boolean(Option<bool>),
    Number(Option<u64>),
    String(Seq<char>),
    Nil,
}

impl View for Value {
    type V = Shape;

    open spec fn view(&self) -> Shape {
        match self {
            Value::Boolean(b) => Shape::Boolean(Some(*b)),
            Value::Number(n) => Shape::Number(Some(*n)),
            Value::String(s) => Shape::String(s@),
            Value::Nil => Shape::Nil,
        }
    }
}

/// Whether a value agrees with all that a shape knows of it.
pub open spec fn fits(v: Shape, s: Shape) -> bool {
    match (v, s) {
        (Shape::Boolean(x), Shape::Boolean(y)) => y is None || x == y,
        (Shape::Number(x), Shape::Number(y)) => y is None || x == y,
        (Shape::String(x), Shape::String(y)) => x == y,
        (Shape::Nil, Shape::Nil) => true,
        _ => false,
    }
}

/// Why the evaluation of a statement stopped.
pub enum Fault {
    Unbound(Seq<char>),
    Type,
}

impl View for RuntimeError {
    type V = Fault;

    open spec fn view(&self) -> Fault {
        match self {
            RuntimeError::UnboundVariable(u) => Fault::Unbound(u.0@),
            RuntimeError::TypeError(_) => Fault::Type,
        }
    }
}

/// The number semantics of the language, supplied by the host: the value of
/// a numeral, and IEEE 754 double arithmetic and comparison on bit patterns.
pub trait Arithmetic {
    /// The number a numeral denotes.
    fn numeral(&self, text: &str) -> u64;

    /// `x op y` for `-`, `+`, `/` and `*`.
    fn arithmetic(&self, op: BinaryOp, x: u64, y: u64) -> u64;

    /// `x op y` for `==`, `!=`, `<`, `<=`, `>` and `>=`.
    fn compare(&self, op: BinaryOp, x: u64, y: u64) -> bool;

    /// `-x`.
    fn negate(&self, x: u64) -> u64;
}

pub open spec fn both_known(x: Option<bool>, y: Option<bool>) -> bool {
    x is Some && y is Some
}

/// The operator table for unary operators: `-` on numbers, `!` on booleans.
pub open spec fn unary_shape(op: UnaryOp, x: Shape) -> Result<Shape, Fault> {
    match (op, x) {
        (UnaryOp::Minus, Shape::Number(_)) => Ok(Shape::Number(None)),
        (UnaryOp::Not, Shape::Boolean(b)) => Ok(
            Shape::Boolean(
                match b {
                    Some(v) => Some(!v),
                    None => None,
                },
            ),
        ),
        _ => Err(Fault::Type),
    }
}

/// Equality across kinds: values of the same kind compare by content, `nil`
/// equals `nil`, and values of different kinds are never equal. Equality of
/// two numbers is the host's.
pub open spec fn equal_shape(x: Shape, y: Shape) -> Option<bool> {
    match (x, y) {
        (Shape::Boolean(a), Shape::Boolean(b)) => if both_known(a, b) {
            Some(a->0 == b->0)
        } else {
            None
        },
        (Shape::Number(_), Shape::Number(_)) => None,
        (Shape::String(a), Shape::String(b)) => Some(a == b),
        (Shape::Nil, Shape::Nil) => Some(true),
        _ => Some(false),
    }
}

/// The operator table for binary operators; every pairing not listed is a
/// type error.
pub open spec fn binary_shape(op: BinaryOp, x: Shape, y: Shape) -> Result<Shape, Fault> {
    match op {
        BinaryOp::Minus | BinaryOp::Div | BinaryOp::Mul => match (x, y) {
            (Shape::Number(_), Shape::Number(_)) => Ok(Shape::Number(None)),
            _ => Err(Fault::Type),
        },
        BinaryOp::Plus => match (x, y) {
            (Shape::Number(_), Shape::Number(_)) => Ok(Shape::Number(None)),
            (Shape::String(a), Shape::String(b)) => Ok(Shape::String(a + b)),
            _ => Err(Fault::Type),
        },
        BinaryOp::Equal => Ok(Shape::Boolean(equal_shape(x, y))),
        BinaryOp::NotEqual => Ok(
            Shape::Boolean(
                match equal_shape(x, y) {
                    Some(b) => Some(!b),
                    None => None,
                },
            ),
        ),
        BinaryOp::Greater | BinaryOp::GreaterEqual | BinaryOp::Less | BinaryOp::LessEqual => match (
            x,
            y,
        ) {
            (Shape::Number(_), Shape::Number(_)) => Ok(Shape::Boolean(None)),
            _ => Err(Fault::Type),
        },
        BinaryOp::And | BinaryOp::Or => match (x, y) {
            (Shape::Boolean(a), Shape::Boolean(b)) => Ok(
                Shape::Boolean(
                    if both_known(a, b) {
                        Some(
                            if op == BinaryOp::And {
                                a->0 && b->0
                            } else {
                                a->0 || b->0
                            },
                        )
                    } else {
                        None
                    },
                ),
            ),
            _ => Err(Fault::Type),
        },
    }
}

pub open spec fn literal_shape(lit: Literal) -> Shape {
    match lit {
        Literal::Boolean(b) => Shape::Boolean(Some(b)),
        Literal::Number(_) => Shape::Number(None),
        Literal::String(s) => Shape::String(s@),
        Literal::Nil => Shape::Nil,
    }
}

/// The outcome of evaluating `e` in a chain of scopes: both
/// operands are evaluated, left first, and the first fault wins.
pub open spec fn eval_shape(e: Expr, scopes: Seq<ScopeView>) -> Result<Shape, Fault>
    decreases e,
{
    match e {
        Expr::Binary(op, l, r) => match eval_shape(*l, scopes) {
            Err(f) => Err(f),
            Ok(x) => match eval_shape(*r, scopes) {
                Err(f) => Err(f),
                Ok(y) => binary_shape(op, x, y),
            },
        },
        Expr::Grouping(x) => eval_shape(*x, scopes),
        Expr::Literal(lit) => Ok(literal_shape(lit)),
        Expr::Unary(op, x) => match eval_shape(*x, scopes) {
            Err(f) => Err(f),
            Ok(v) => unary_shape(op, v),
        },
        Expr::Variable(name) => match lookup(scopes, name@) {
            Some(v) => Ok(v),
            None => Err(Fault::Unbound(name@)),
        },
    }
}

/// Whether an evaluation's result agrees with its expected outcome.
pub open spec fn outcome_fits<E: View<V = Fault>>(r: Result<Value, E>, s: Result<Shape, Fault>) -> bool {
    match (r, s) {
        (Ok(v), Ok(x)) => fits(v@, x),
        (Err(e), Err(f)) => e@ == f,
        _ => false,
    }
}

/// Whether one outcome knows at least what another does and agrees with it.
pub open spec fn outcome_refines(c: Result<Shape, Fault>, a: Result<Shape, Fault>) -> bool {
    match (c, a) {
        (Ok(x), Ok(y)) => fits(x, y),
        (Err(f), Err(g)) => f == g,
        _ => false,
    }
}

/// Whether a chain of scopes knows at least what another does: the same
/// scopes, the same names in the same order, values that fit.
pub open spec fn scopes_fit(c: Seq<ScopeView>, a: Seq<ScopeView>) -> bool {
    &&& c.len() == a.len()
    &&& forall|i: int| 0 <= i < c.len() ==> #[trigger] scope_fits(c[i], a[i])
}

pub open spec fn scope_fits(c: ScopeView, a: ScopeView) -> bool {
    &&& c.len() == a.len()
    &&& forall|j: int| 0 <= j < c.len() ==> (#[trigger] c[j]).0 == a[j].0 && fits(c[j].1, a[j].1)
}

pub proof fn lemma_fits_trans(x: Shape, y: Shape, z: Shape)
    requires
        fits(x, y),
        fits(y, z),
    ensures
        fits(x, z),
{
}

proof fn lemma_scope_get_fits(c: ScopeView, a: ScopeView, name: Seq<char>)
    requires
        scope_fits(c, a),
    ensures
        scope_get(c, name) is Some <==> scope_get(a, name) is Some,
        scope_get(c, name) is Some ==> fits(scope_get(c, name)->0, scope_get(a, name)->0),
    decreases c.len(),
{
    if c.len() > 0 {
        assert(c.last() == c[c.len() - 1]);
        assert(scope_fits(c.drop_last(), a.drop_last())) by {
            assert forall|j: int| 0 <= j < c.drop_last().len() implies (#[trigger] c.drop_last()[j]).0
                == a.drop_last()[j].0 && fits(c.drop_last()[j].1, a.drop_last()[j].1) by {
                assert(c.drop_last()[j] == c[j]);
                assert(a.drop_last()[j] == a[j]);
            }
        }
        lemma_scope_get_fits(c.drop_last(), a.drop_last(), name);
    }
}

proof fn lemma_lookup_fits(c: Seq<ScopeView>, a: Seq<ScopeView>, name: Seq<char>)
    requires
        scopes_fit(c, a),
    ensures
        lookup(c, name) is Some <==> lookup(a, name) is Some,
        lookup(c, name) is Some ==> fits(lookup(c, name)->0, lookup(a, name)->0),
    decreases c.len(),
{
    if c.len() > 0 {
        assert(scope_fits(c[c.len() - 1], a[a.len() - 1]));
        lemma_scope_get_fits(c.last(), a.last(), name);
        assert(scopes_fit(c.drop_last(), a.drop_last())) by {
            assert forall|i: int| 0 <= i < c.drop_last().len() implies #[trigger] scope_fits(
                c.drop_last()[i],
                a.drop_last()[i],
            ) by {
                assert(c.drop_last()[i] == c[i]);
                assert(a.drop_last()[i] == a[i]);
            }
        }
        lemma_lookup_fits(c.drop_last(), a.drop_last(), name);
    }
}

/// Evaluating in a chain of scopes that knows more gives an outcome that
/// knows more, with the same fault if any.
pub proof fn lemma_eval_fits(e: Expr, c: Seq<ScopeView>, a: Seq<ScopeView>)
    requires
        scopes_fit(c, a),
    ensures
        outcome_refines(eval_shape(e, c), eval_shape(e, a)),
    decreases e,
{
    match e {
        Expr::Binary(op, l, r) => {
            lemma_eval_fits(*l, c, a);
            lemma_eval_fits(*r, c, a);
        },
        Expr::Grouping(x) => lemma_eval_fits(*x, c, a),
        Expr::Unary(op, x) => lemma_eval_fits(*x, c, a),
        Expr::Variable(name) => lemma_lookup_fits(c, a, name@),
        Expr::Literal(_) => {},
    }
}

/// Whether two values are of the same kind.
pub open spec fn same_kind(x: Shape, y: Shape) -> bool {
    match (x, y) {
        (Shape::Boolean(_), Shape::Boolean(_)) => true,
        (Shape::Number(_), Shape::Number(_)) => true,
        (Shape::String(_), Shape::String(_)) => true,
        (Shape::Nil, Shape::Nil) => true,
        _ => false,
    }
}

/// Equality is total: values of different kinds are unequal, never a type
/// error.
pub proof fn mismatched_kinds_are_unequal(x: Shape, y: Shape)
    requires
        !same_kind(x, y),
    ensures
        binary_shape(BinaryOp::Equal, x, y) == Ok::<Shape, Fault>(Shape::Boolean(Some(false))),
        binary_shape(BinaryOp::NotEqual, x, y) == Ok::<Shape, Fault>(Shape::Boolean(Some(true))),
{
}

/// `+` joins two strings and adds two numbers; on a string and a number, in
/// either order, it is a type error.
pub proof fn plus_on_strings_and_numbers(a: Seq<char>, b: Seq<char>, n: Option<u64>)
    ensures
        binary_shape(BinaryOp::Plus, Shape::String(a), Shape::String(b)) == Ok::<Shape, Fault>(Shape::String(a + b)),
        binary_shape(BinaryOp::Plus, Shape::String(a), Shape::Number(n)) == Err::<Shape, Fault>(Fault::Type),
        binary_shape(BinaryOp::Plus, Shape::Number(n), Shape::String(a)) == Err::<Shape, Fault>(Fault::Type),
{
}

impl View for TypeError {
    type V = Fault;

    open spec fn view(&self) -> Fault {
        Fault::Type
    }
}

impl Value {
    /// A copy of the value.
    pub fn copy(&self) -> (r: Value)
        ensures
            r@ == self@,
    {
        match self {
            Value::Boolean(b) => Value::Boolean(*b),
            Value::Number(n) => Value::Number(*n),
            Value::String(s) => Value::String(s.clone()),
            Value::Nil => Value::Nil,
        }
    }

    /// Whether the value is of the same kind as `other` and equal to it.
    fn equals<A: Arithmetic>(&self, other: &Value, arith: &A) -> (r: bool)
        ensures
            match equal_shape(self@, other@) {
                Some(b) => r == b,
                None => true,
            },
    {
        match (self, other) {
            (Value::Boolean(x), Value::Boolean(y)) => *x == *y,
            (Value::Number(x), Value::Number(y)) => arith.compare(BinaryOp::Equal, *x, *y),
            (Value::String(x), Value::String(y)) => *x == *y,
            (Value::Nil, Value::Nil) => true,
            _ => false,
        }
    }
}

impl UnaryOp {
    /// Applies the operator; see [`unary_shape`] for the table.
    pub fn eval<A: Arithmetic>(self, x: Value, arith: &A) -> (r: Result<Value, TypeError>)
        ensures
            outcome_fits(r, unary_shape(self, x@)),
    {
        match (self, x) {
            (UnaryOp::Minus, Value::Number(n)) => Ok(Value::Number(arith.negate(n))),
            (UnaryOp::Not, Value::Boolean(b)) => Ok(Value::Boolean(!b)),
            _ => Err(TypeError),
        }
    }
}

impl BinaryOp {
    /// Applies the operator; see [`binary_shape`] for the table.
    pub fn eval<A: Arithmetic>(self, x: Value, y: Value, arith: &A) -> (r: Result<Value, TypeError>)
        ensures
            outcome_fits(r, binary_shape(self, x@, y@)),
    {
        match self {
            BinaryOp::Minus | BinaryOp::Div | BinaryOp::Mul => match (x, y) {
                (Value::Number(a), Value::Number(b)) => Ok(Value::Number(arith.arithmetic(self, a, b))),
                _ => Err(TypeError),
            },
            BinaryOp::Plus => match (x, y) {
                (Value::Number(a), Value::Number(b)) => Ok(Value::Number(arith.arithmetic(self, a, b))),
                (Value::String(a), Value::String(b)) => Ok(Value::String(a.concat(b.as_str()))),
                _ => Err(TypeError),
            },
            BinaryOp::Equal => Ok(Value::Boolean(x.equals(&y, arith))),
            BinaryOp::NotEqual => Ok(Value::Boolean(!x.equals(&y, arith))),
            BinaryOp::Greater | BinaryOp::GreaterEqual | BinaryOp::Less | BinaryOp::LessEqual => match (x, y) {
                (Value::Number(a), Value::Number(b)) => Ok(Value::Boolean(arith.compare(self, a, b))),
                _ => Err(TypeError),
            },
            BinaryOp::And => match (x, y) {
                (Value::Boolean(a), Value::Boolean(b)) => Ok(Value::Boolean(a && b)),
                _ => Err(TypeError),
            },
            BinaryOp::Or => match (x, y) {
                (Value::Boolean(a), Value::Boolean(b)) => Ok(Value::Boolean(a || b)),
                _ => Err(TypeError),
            },
        }
    }
}

impl Expr {
    /// Evaluates the expression against `env`; see [`eval_shape`].
    pub fn eval<A: Arithmetic>(&self, env: &Environment, arith: &A) -> (r: Result<Value, RuntimeError>)
        ensures
            outcome_fits(r, eval_shape(*self, env.view_scopes())),
        decreases self,
    {
        match self {
            Expr::Binary(op, l, r) => {
                let x = match l.eval(env, arith) {
                    Ok(x) => x,
                    Err(e) => return Err(e),
                };
                let y = match r.eval(env, arith) {
                    Ok(y) => y,
                    Err(e) => return Err(e),
                };
                match op.eval(x, y, arith) {
                    Ok(v) => Ok(v),
                    Err(t) => Err(RuntimeError::TypeError(t)),
                }
            },
            Expr::Grouping(x) => x.eval(env, arith),
            Expr::Literal(lit) => Ok(
                match lit {
                    Literal::Boolean(b) => Value::Boolean(*b),
                    Literal::Number(n) => Value::Number(arith.numeral(n.as_str())),
                    Literal::String(s) => Value::String(s.clone()),
                    Literal::Nil => Value::Nil,
                },
            ),
            Expr::Unary(op, x) => {
                let v = match x.eval(env, arith) {
                    Ok(v) => v,
                    Err(e) => return Err(e),
                };
                match op.eval(v, arith) {
                    Ok(v) => Ok(v),
                    Err(t) => Err(RuntimeError::TypeError(t)),
                }
            },
            Expr::Variable(name) => match env.get(name) {
                Ok(v) => Ok(v),
                Err(u) => Err(RuntimeError::UnboundVariable(u)),
            },
        }
    }
}

} // verus!
