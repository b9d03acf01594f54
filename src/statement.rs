use vstd::prelude::*;
use crate::environment::{last_index, lemma_last_index, lookup, rebind, Environment, ScopeView};
use crate::error::RuntimeError;
use crate::eval::{eval_shape, fits, lemma_eval_fits, lemma_fits_trans, scope_fits, scopes_fit, Arithmetic, Fault, Shape, Value};
use crate::expr::Expr;

verus! {

/// A statement; each owns its expressions and inner statements.
#[derive(Debug)]
pub enum Statement {
    Block(Vec<Statement>),
    Expr(Expr),
    Print(Expr),
    Let(String, Expr),
}

/// What a run of statements has produced so far: the fault that stopped it,
/// if any, the chain of scopes, and what `print` has written.
pub type RunState = (Option<Fault>, Seq<ScopeView>, Seq<Shape>);

pub open spec fn output_view(out: Seq<Value>) -> Seq<Shape> {
    out.map_values(|v: Value| v@)
}

/// Whether an output knows at least what another does.
pub open spec fn output_fits(c: Seq<Shape>, a: Seq<Shape>) -> bool {
    &&& c.len() == a.len()
    &&& forall|i: int| 0 <= i < c.len() ==> fits(#[trigger] c[i], a[i])
}

/// Whether a run state knows at least what another does, with the same fault.
pub open spec fn state_fits(c: RunState, a: RunState) -> bool {
    &&& c.0 == a.0
    &&& scopes_fit(c.1, a.1)
    &&& output_fits(c.2, a.2)
}

/// Executing a statement: an expression statement evaluates, `print`
/// appends its value to the output, `let` binds in the innermost scope, a
/// block runs its statements in a fresh innermost scope that it closes
/// again. A fault stops the statement and leaves scopes and output as the
/// statement found them, but for what a block's earlier statements did.
pub open spec fn exec(s: Statement, env: Seq<ScopeView>, out: Seq<Shape>) -> RunState
    decreases s,
{
    match s {
        Statement::Expr(e) => match eval_shape(e, env) {
            Ok(_) => (None, env, out),
            Err(f) => (Some(f), env, out),
        },
        Statement::Print(e) => match eval_shape(e, env) {
            Ok(v) => (None, env, out.push(v)),
            Err(f) => (Some(f), env, out),
        },
        Statement::Let(name, e) => match eval_shape(e, env) {
            Ok(v) => (None, env.drop_last().push(rebind(env.last(), name@, v)), out),
            Err(f) => (Some(f), env, out),
        },
        Statement::Block(stmts) => {
            let r = exec_all(stmts@, env.push(Seq::empty()), out);
            (r.0, r.1.drop_last(), r.2)
        },
    }
}

/// Executing statements in order, up to the first fault.
pub open spec fn exec_all(ss: Seq<Statement>, env: Seq<ScopeView>, out: Seq<Shape>) -> RunState
    decreases ss,
{
    if ss.len() == 0 {
        (None, env, out)
    } else {
        let r = exec_all(ss.drop_last(), env, out);
        if r.0 is Some {
            r
        } else {
            exec(ss.last(), r.1, r.2)
        }
    }
}

proof fn lemma_scopes_fit_refl(c: Seq<ScopeView>)
    ensures
        scopes_fit(c, c),
{
}

proof fn lemma_scopes_fit_trans(x: Seq<ScopeView>, y: Seq<ScopeView>, z: Seq<ScopeView>)
    requires
        scopes_fit(x, y),
        scopes_fit(y, z),
    ensures
        scopes_fit(x, z),
{
    assert forall|i: int| 0 <= i < x.len() implies #[trigger] scope_fits(x[i], z[i]) by {
        assert(scope_fits(x[i], y[i]));
        assert(scope_fits(y[i], z[i]));
        assert forall|j: int| 0 <= j < x[i].len() implies (#[trigger] x[i][j]).0 == z[i][j].0 && fits(
            x[i][j].1,
            z[i][j].1,
        ) by {
            lemma_fits_trans(x[i][j].1, y[i][j].1, z[i][j].1);
        }
    }
}

pub(crate) proof fn lemma_state_fits_trans(x: RunState, y: RunState, z: RunState)
    requires
        state_fits(x, y),
        state_fits(y, z),
    ensures
        state_fits(x, z),
{
    lemma_scopes_fit_trans(x.1, y.1, z.1);
    assert forall|i: int| 0 <= i < x.2.len() implies fits(#[trigger] x.2[i], z.2[i]) by {
        lemma_fits_trans(x.2[i], y.2[i], z.2[i]);
    }
}

proof fn lemma_scopes_fit_push(c: Seq<ScopeView>, a: Seq<ScopeView>, sc: ScopeView, sa: ScopeView)
    requires
        scopes_fit(c, a),
        scope_fits(sc, sa),
    ensures
        scopes_fit(c.push(sc), a.push(sa)),
{
    assert forall|i: int| 0 <= i < c.push(sc).len() implies #[trigger] scope_fits(c.push(sc)[i], a.push(sa)[i]) by {
        if i < c.len() {
            assert(c.push(sc)[i] == c[i]);
            assert(a.push(sa)[i] == a[i]);
        }
    }
}

/// Binding values that fit in scopes that fit gives scopes that fit.
proof fn lemma_rebind_fits(c: ScopeView, a: ScopeView, name: Seq<char>, v: Shape, w: Shape)
    requires
        scope_fits(c, a),
        fits(v, w),
    ensures
        scope_fits(rebind(c, name, v), rebind(a, name, w)),
{
    lemma_last_index_same(c, a, name);
    let rc = rebind(c, name, v);
    let ra = rebind(a, name, w);
    match last_index(c, name) {
        Some(k) => {
            lemma_last_index(c, name);
            assert(rc == c.update(k, (name, v)));
            assert(ra == a.update(k, (name, w)));
            assert forall|j: int| 0 <= j < rc.len() implies (#[trigger] rc[j]).0 == ra[j].0 && fits(rc[j].1, ra[j].1) by {
                if j != k {
                    assert(c[j].0 == a[j].0 && fits(c[j].1, a[j].1));
                }
            }
        },
        None => {
            assert(rc == c.push((name, v)));
            assert(ra == a.push((name, w)));
            assert forall|j: int| 0 <= j < rc.len() implies (#[trigger] rc[j]).0 == ra[j].0 && fits(rc[j].1, ra[j].1) by {
                if j < c.len() {
                    assert(c[j].0 == a[j].0 && fits(c[j].1, a[j].1));
                }
            }
        },
    }
}

proof fn lemma_last_index_same(c: ScopeView, a: ScopeView, name: Seq<char>)
    requires
        scope_fits(c, a),
    ensures
        last_index(c, name) == last_index(a, name),
    decreases c.len(),
{
    if c.len() > 0 {
        assert(c.last() == c[c.len() - 1]);
        assert(a.last() == a[a.len() - 1]);
        assert(c[c.len() - 1].0 == a[a.len() - 1].0);
        assert(scope_fits(c.drop_last(), a.drop_last())) by {
            assert forall|j: int| 0 <= j < c.drop_last().len() implies (#[trigger] c.drop_last()[j]).0
                == a.drop_last()[j].0 && fits(c.drop_last()[j].1, a.drop_last()[j].1) by {
                assert(c.drop_last()[j] == c[j]);
                assert(a.drop_last()[j] == a[j]);
            }
        }
        lemma_last_index_same(c.drop_last(), a.drop_last(), name);
    }
}

proof fn lemma_scopes_fit_drop_last(c: Seq<ScopeView>, a: Seq<ScopeView>)
    requires
        scopes_fit(c, a),
        c.len() > 0,
    ensures
        scopes_fit(c.drop_last(), a.drop_last()),
        scope_fits(c.last(), a.last()),
{
    assert(scope_fits(c[c.len() - 1], a[a.len() - 1]));
    assert forall|i: int| 0 <= i < c.drop_last().len() implies #[trigger] scope_fits(c.drop_last()[i], a.drop_last()[i]) by {
        assert(c.drop_last()[i] == c[i]);
        assert(a.drop_last()[i] == a[i]);
    }
}

/// Executing from a state that knows more gives a state that knows more,
/// with the same fault.
pub proof fn lemma_exec_fits(s: Statement, c: Seq<ScopeView>, a: Seq<ScopeView>, co: Seq<Shape>, ao: Seq<Shape>)
    requires
        scopes_fit(c, a),
        output_fits(co, ao),
        c.len() > 0,
    ensures
        state_fits(exec(s, c, co), exec(s, a, ao)),
    decreases s,
{
    match s {
        Statement::Expr(e) => lemma_eval_fits(e, c, a),
        Statement::Print(e) => {
            lemma_eval_fits(e, c, a);
            if let Ok(v) = eval_shape(e, c) {
                assert forall|i: int| 0 <= i < co.push(v).len() implies fits(
                    #[trigger] co.push(v)[i],
                    ao.push(eval_shape(e, a)->Ok_0)[i],
                ) by {
                    if i < co.len() {
                        assert(co.push(v)[i] == co[i]);
                    }
                }
            }
        },
        Statement::Let(name, e) => {
            lemma_eval_fits(e, c, a);
            lemma_scopes_fit_drop_last(c, a);
            if let Ok(v) = eval_shape(e, c) {
                let w = eval_shape(e, a)->Ok_0;
                lemma_rebind_fits(c.last(), a.last(), name@, v, w);
                lemma_scopes_fit_push(c.drop_last(), a.drop_last(), rebind(c.last(), name@, v), rebind(a.last(), name@, w));
            }
        },
        Statement::Block(stmts) => {
            lemma_scopes_fit_push(c, a, Seq::empty(), Seq::empty());
            lemma_exec_all_fits(stmts@, c.push(Seq::empty()), a.push(Seq::empty()), co, ao);
            let rc = exec_all(stmts@, c.push(Seq::empty()), co);
            lemma_exec_all_keeps_outer(stmts@, c.push(Seq::empty()), co);
            lemma_scopes_fit_drop_last(rc.1, exec_all(stmts@, a.push(Seq::empty()), ao).1);
        },
    }
}

pub proof fn lemma_exec_all_fits(ss: Seq<Statement>, c: Seq<ScopeView>, a: Seq<ScopeView>, co: Seq<Shape>, ao: Seq<Shape>)
    requires
        scopes_fit(c, a),
        output_fits(co, ao),
        c.len() > 0,
    ensures
        state_fits(exec_all(ss, c, co), exec_all(ss, a, ao)),
    decreases ss,
{
    if ss.len() > 0 {
        lemma_exec_all_fits(ss.drop_last(), c, a, co, ao);
        let rc = exec_all(ss.drop_last(), c, co);
        let ra = exec_all(ss.drop_last(), a, ao);
        if rc.0 is None {
            lemma_exec_all_keeps_outer(ss.drop_last(), c, co);
            lemma_exec_fits(ss.last(), rc.1, ra.1, rc.2, ra.2);
        }
    }
}

/// Executing changes no scope but the innermost, and a block not even that.
pub(crate) proof fn lemma_exec_keeps_outer(s: Statement, env: Seq<ScopeView>, out: Seq<Shape>)
    requires
        env.len() > 0,
    ensures
        exec(s, env, out).1.len() == env.len(),
        exec(s, env, out).1.drop_last() == env.drop_last(),
        s is Block ==> exec(s, env, out).1 == env,
    decreases s,
{
    match s {
        Statement::Block(stmts) => {
            let inner = env.push(Seq::empty());
            lemma_exec_all_keeps_outer(stmts@, inner, out);
            assert(inner.drop_last() =~= env);
            assert(exec_all(stmts@, inner, out).1.drop_last() =~= env);
        },
        Statement::Let(name, e) => {
            if let Ok(v) = eval_shape(e, env) {
                assert(env.drop_last().push(rebind(env.last(), name@, v)).drop_last() =~= env.drop_last());
            }
        },
        _ => {},
    }
}

proof fn lemma_exec_all_keeps_outer(ss: Seq<Statement>, env: Seq<ScopeView>, out: Seq<Shape>)
    requires
        env.len() > 0,
    ensures
        exec_all(ss, env, out).1.len() == env.len(),
        exec_all(ss, env, out).1.drop_last() == env.drop_last(),
    decreases ss,
{
    if ss.len() > 0 {
        lemma_exec_all_keeps_outer(ss.drop_last(), env, out);
        let r = exec_all(ss.drop_last(), env, out);
        if r.0 is None {
            lemma_exec_keeps_outer(ss.last(), r.1, r.2);
        }
    }
}

/// A block leaves the chain of scopes exactly as it found it, whether or not
/// it failed: what it binds, shadowing included, goes with its scope.
pub proof fn block_leaves_scopes_as_found(s: Statement, env: Seq<ScopeView>, out: Seq<Shape>)
    requires
        s is Block,
        env.len() > 0,
    ensures
        exec(s, env, out).1 == env,
{
    lemma_exec_keeps_outer(s, env, out);
}

/// Printing a variable that no scope binds fails with that variable's name,
/// and prints and binds nothing.
pub proof fn print_of_unbound_variable_fails(s: Statement, env: Seq<ScopeView>, out: Seq<Shape>)
    requires
        s matches Statement::Print(Expr::Variable(name)) && lookup(env, name@) is None,
    ensures
        exec(s, env, out) == (Some(Fault::Unbound(s->Print_0->Variable_0@)), env, out),
{
}

pub open spec fn fault_of(r: Result<(), RuntimeError>) -> Option<Fault> {
    match r {
        Ok(_) => None,
        Err(x) => Some(x@),
    }
}

/// Once a run has stopped on a fault, the statements after it change nothing.
proof fn lemma_exec_all_stops(ss: Seq<Statement>, k: int, env: Seq<ScopeView>, out: Seq<Shape>)
    requires
        0 <= k <= ss.len(),
        exec_all(ss.take(k), env, out).0 is Some,
    ensures
        exec_all(ss, env, out) == exec_all(ss.take(k), env, out),
    decreases ss.len() - k,
{
    if k < ss.len() {
        assert(ss.take(k + 1).drop_last() =~= ss.take(k));
        lemma_exec_all_stops(ss, k + 1, env, out);
    } else {
        assert(ss.take(k) =~= ss);
    }
}

impl Statement {
    /// Executes the statement against `env`; see [`exec`]. What `print`
    /// writes is appended to `out`. The outcome is the one [`exec`] gives,
    /// with the same fault if any, except that the values of floating-point
    /// arithmetic are the host's. A block closes its scope again whether or
    /// not it failed, so it leaves the scopes as it found them; nothing else
    /// touches any scope but the innermost one.
    pub fn eval<A: Arithmetic>(&self, env: &mut Environment, arith: &A, out: &mut Vec<Value>) -> (r: Result<(), RuntimeError>)
        requires
            old(env).depth() > 0,
        ensures
            state_fits(
                (fault_of(r), final(env).view_scopes(), output_view(final(out)@)),
                exec(*self, old(env).view_scopes(), output_view(old(out)@)),
            ),
            final(env).depth() == old(env).depth(),
            final(env).view_scopes().drop_last() == old(env).view_scopes().drop_last(),
            old(out)@.len() <= final(out)@.len(),
            final(out)@.subrange(0, old(out)@.len() as int) == old(out)@,
            r is Err ==> final(out)@ == old(out)@ || self is Block,
            self is Block ==> final(env).view_scopes() == old(env).view_scopes(),
            r is Err ==> final(env).view_scopes() == old(env).view_scopes(),
            !(self is Let) ==> final(env).view_scopes() == old(env).view_scopes(),
            match *self {
                Statement::Let(name, e) => {
                    &&& forall|m: Seq<char>| m != name@ ==> #[trigger] final(env).lookup(m) == old(env).lookup(m)
                    &&& r is Ok ==> match (final(env).lookup(name@), eval_shape(e, old(env).view_scopes())) {
                        (Some(v), Ok(w)) => fits(v, w),
                        _ => false,
                    }
                },
                _ => true,
            },
        decreases self,
    {
        let ghost env0 = env.view_scopes();
        let ghost out0 = output_view(out@);
        proof {
            lemma_scopes_fit_refl(env0);
        }
        match self {
            Statement::Block(stmts) => {
                let ghost scopes0 = env.view_scopes();
                let ghost outv0 = out@;
                let ghost inner0 = scopes0.push(Seq::<(Seq<char>, Shape)>::empty());
                env.push();
                proof {
                    lemma_scopes_fit_refl(inner0);
                    assert(stmts@.take(0) =~= Seq::<Statement>::empty());
                }
                let mut i: usize = 0;
                while i < stmts.len()
                    invariant
                        *self is Block,
                        self->Block_0 == *stmts,
                        scopes0 == old(env).view_scopes(),
                        inner0 == scopes0.push(Seq::<(Seq<char>, Shape)>::empty()),
                        outv0 == old(out)@,
                        out0 == output_view(outv0),
                        scopes0.len() > 0,
                        i <= stmts@.len(),
                        env.depth() == scopes0.len() + 1,
                        env.view_scopes().drop_last() == scopes0,
                        outv0.len() <= out@.len(),
                        out@.subrange(0, outv0.len() as int) == outv0,
                        exec_all(stmts@.take(i as int), inner0, out0).0 is None,
                        scopes_fit(env.view_scopes(), exec_all(stmts@.take(i as int), inner0, out0).1),
                        output_fits(output_view(out@), exec_all(stmts@.take(i as int), inner0, out0).2),
                    decreases stmts.len() - i,
                {
                    let ghost out1 = out@;
                    let ghost e1 = env.view_scopes();
                    let ghost a = exec_all(stmts@.take(i as int), inner0, out0);
                    proof {
                        assert(decreases_to!(*self => self->Block_0));
                        assert(decreases_to!(*stmts => stmts[i as int]));
                    }
                    let res = stmts[i].eval(env, arith, out);
                    proof {
                        assert(out@.subrange(0, outv0.len() as int) =~= out1.subrange(0, outv0.len() as int));
                        assert(stmts@.take(i + 1).drop_last() =~= stmts@.take(i as int));
                        assert(stmts@.take(i + 1).last() == stmts@[i as int]);
                        lemma_exec_all_keeps_outer(stmts@.take(i as int), inner0, out0);
                        lemma_exec_fits(stmts@[i as int], e1, a.1, output_view(out1), a.2);
                        lemma_state_fits_trans(
                            (fault_of(res), env.view_scopes(), output_view(out@)),
                            exec(stmts@[i as int], e1, output_view(out1)),
                            exec(stmts@[i as int], a.1, a.2),
                        );
                    }
                    if let Err(e) = res {
                        let ghost e2 = env.view_scopes();
                        env.pop();
                        proof {
                            lemma_exec_all_stops(stmts@, i + 1, inner0, out0);
                            lemma_scopes_fit_drop_last(e2, exec_all(stmts@, inner0, out0).1);
                        }
                        return Err(e);
                    }
                    i = i + 1;
                }
                let ghost e2 = env.view_scopes();
                env.pop();
                proof {
                    assert(stmts@.take(i as int) =~= stmts@);
                    lemma_scopes_fit_drop_last(e2, exec_all(stmts@, inner0, out0).1);
                }
                Ok(())
            },
            Statement::Expr(e) => {
                match e.eval(env, arith) {
                    Ok(_) => Ok(()),
                    Err(x) => Err(x),
                }
            },
            Statement::Print(e) => {
                match e.eval(env, arith) {
                    Ok(v) => {
                        let ghost outv = out@;
                        out.push(v);
                        proof {
                            let w = eval_shape(*e, env0)->Ok_0;
                            assert(output_view(out@) =~= out0.push(v@));
                            assert forall|i: int| 0 <= i < out0.push(v@).len() implies fits(
                                #[trigger] out0.push(v@)[i],
                                out0.push(w)[i],
                            ) by {}
                        }
                        Ok(())
                    },
                    Err(x) => Err(x),
                }
            },
            Statement::Let(name, e) => {
                match e.eval(env, arith) {
                    Ok(v) => {
                        let ghost vv = v@;
                        env.bind(name.clone(), v);
                        proof {
                            let w = eval_shape(*e, env0)->Ok_0;
                            let cs = rebind(env0.last(), name@, vv);
                            let as_ = rebind(env0.last(), name@, w);
                            assert(env.view_scopes() =~= env0.drop_last().push(cs));
                            lemma_scopes_fit_refl(env0);
                            lemma_scopes_fit_drop_last(env0, env0);
                            lemma_rebind_fits(env0.last(), env0.last(), name@, vv, w);
                            lemma_scopes_fit_refl(env0.drop_last());
                            lemma_scopes_fit_push(env0.drop_last(), env0.drop_last(), cs, as_);
                        }
                        Ok(())
                    },
                    Err(x) => Err(x),
                }
            },
        }
    }
}

} // verus!
