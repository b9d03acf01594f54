use vstd::prelude::*;
use crate::error::UnboundVariable;
use crate::eval::{Shape, Value};

verus! {

/// One scope as the contracts see it: its bindings in the order made.
pub type ScopeView = Seq<(Seq<char>, Shape)>;

/// What a scope binds `name` to: its latest binding there, if any.
pub open spec fn scope_get(scope: ScopeView, name: Seq<char>) -> Option<Shape>
    decreases scope.len(),
{
    if scope.len() == 0 {
        None
    } else if scope.last().0 == name {
        Some(scope.last().1)
    } else {
        scope_get(scope.drop_last(), name)
    }
}

/// Where a scope binds `name` last, if it does.
pub open spec fn last_index(scope: ScopeView, name: Seq<char>) -> Option<int>
    decreases scope.len(),
{
    if scope.len() == 0 {
        None
    } else if scope.last().0 == name {
        Some(scope.len() - 1)
    } else {
        last_index(scope.drop_last(), name)
    }
}

/// A scope after binding `name` to `v` in it: an earlier binding of `name`
/// there takes the new value in its place, else the binding comes last.
pub open spec fn rebind(scope: ScopeView, name: Seq<char>, v: Shape) -> ScopeView {
    match last_index(scope, name) {
        Some(j) => scope.update(j, (name, v)),
        None => scope.push((name, v)),
    }
}

pub proof fn lemma_last_index(scope: ScopeView, name: Seq<char>)
    ensures
        match last_index(scope, name) {
            Some(j) => 0 <= j < scope.len() && scope[j].0 == name && forall|x: int|
                j < x < scope.len() ==> #[trigger] scope[x].0 != name,
            None => forall|x: int| 0 <= x < scope.len() ==> #[trigger] scope[x].0 != name,
        },
        scope_get(scope, name) is Some <==> last_index(scope, name) is Some,
    decreases scope.len(),
{
    if scope.len() > 0 {
        lemma_last_index(scope.drop_last(), name);
        assert(scope.last() == scope[scope.len() - 1]);
        assert forall|x: int| 0 <= x < scope.len() - 1 implies scope.drop_last()[x] == #[trigger] scope[x] by {}
    }
}

proof fn lemma_last_index_found(scope: ScopeView, name: Seq<char>, j: int)
    requires
        0 <= j < scope.len(),
        scope[j].0 == name,
        forall|x: int| j < x < scope.len() ==> #[trigger] scope[x].0 != name,
    ensures
        last_index(scope, name) == Some(j),
    decreases scope.len(),
{
    if j < scope.len() - 1 {
        assert(scope.last() == scope[scope.len() - 1]);
        assert forall|x: int| j < x < scope.len() - 1 implies #[trigger] scope.drop_last()[x].0 != name by {
            assert(scope.drop_last()[x] == scope[x]);
        }
        lemma_last_index_found(scope.drop_last(), name, j);
    }
}

proof fn lemma_last_index_none(scope: ScopeView, name: Seq<char>)
    requires
        forall|x: int| 0 <= x < scope.len() ==> #[trigger] scope[x].0 != name,
    ensures
        last_index(scope, name) is None,
    decreases scope.len(),
{
    if scope.len() > 0 {
        assert(scope.last() == scope[scope.len() - 1]);
        assert forall|x: int| 0 <= x < scope.len() - 1 implies #[trigger] scope.drop_last()[x].0 != name by {
            assert(scope.drop_last()[x] == scope[x]);
        }
        lemma_last_index_none(scope.drop_last(), name);
    }
}

/// After binding `name`, the scope gives its new value for it and what it
/// gave before for every other name.
pub proof fn lemma_rebind_get(scope: ScopeView, name: Seq<char>, v: Shape, k: Seq<char>)
    ensures
        scope_get(rebind(scope, name, v), k) == if k == name {
            Some(v)
        } else {
            scope_get(scope, k)
        },
    decreases scope.len(),
{
    let r = rebind(scope, name, v);
    match last_index(scope, name) {
        Some(j) => {
            lemma_last_index(scope, name);
            if j == scope.len() - 1 {
                assert(r.drop_last() =~= scope.drop_last());
                assert(r.last() == (name, v));
            } else {
                assert(scope.last() == scope[scope.len() - 1]);
                assert(last_index(scope.drop_last(), name) == Some(j));
                lemma_rebind_get(scope.drop_last(), name, v, k);
                assert(r.drop_last() =~= rebind(scope.drop_last(), name, v));
                assert(r.last() == scope.last());
            }
        },
        None => {
            assert(r.drop_last() =~= scope);
            assert(r.last() == (name, v));
        },
    }
}

proof fn lemma_bind_lookup(before: Seq<ScopeView>, after: Seq<ScopeView>, name: Seq<char>, v: Shape)
    requires
        before.len() > 0,
        after == before.drop_last().push(rebind(before.last(), name, v)),
    ensures
        forall|k: Seq<char>| #[trigger] lookup(after, k) == if k == name {
            Some(v)
        } else {
            lookup(before, k)
        },
{
    assert forall|k: Seq<char>| #[trigger] lookup(after, k) == if k == name {
        Some(v)
    } else {
        lookup(before, k)
    } by {
        lemma_rebind_get(before.last(), name, v, k);
        assert(after.drop_last() =~= before.drop_last());
        assert(after.last() == rebind(before.last(), name, v));
    }
}

/// What a chain of scopes, innermost last, binds `name` to: the innermost
/// scope that binds it decides.
pub open spec fn lookup(scopes: Seq<ScopeView>, name: Seq<char>) -> Option<Shape>
    decreases scopes.len(),
{
    if scopes.len() == 0 {
        None
    } else {
        match scope_get(scopes.last(), name) {
            Some(v) => Some(v),
            None => lookup(scopes.drop_last(), name),
        }
    }
}

pub open spec fn scope_view(s: Vec<(String, Value)>) -> ScopeView {
    s@.map_values(|p: (String, Value)| (p.0@, p.1@))
}

/// A chain of lexical scopes. The innermost scope is the last; lookups go
/// from it outward, bindings go into it alone. There is always at least one
/// scope, the outermost.
pub struct Environment {
    scopes: Vec<Vec<(String, Value)>>,
}

impl Environment {
    /// The scopes, outermost first.
    pub closed spec fn view_scopes(&self) -> Seq<ScopeView> {
        self.scopes@.map_values(|s: Vec<(String, Value)>| scope_view(s))
    }

    pub open spec fn depth(&self) -> nat {
        self.view_scopes().len()
    }

    /// What the environment binds `name` to, seen from the innermost scope.
    pub open spec fn lookup(&self, name: Seq<char>) -> Option<Shape> {
        lookup(self.view_scopes(), name)
    }

    /// An environment with one empty scope.
    pub fn new() -> (r: Self)
        ensures
            r.view_scopes() == seq![Seq::<(Seq<char>, Shape)>::empty()],
    {
        let mut scopes: Vec<Vec<(String, Value)>> = Vec::new();
        scopes.push(Vec::new());
        let r = Environment { scopes };
        assert(r.view_scopes() =~= seq![Seq::<(Seq<char>, Shape)>::empty()]) by {
            assert(scope_view(r.scopes@[0]) =~= Seq::<(Seq<char>, Shape)>::empty());
        }
        r
    }

    /// Opens a new, empty innermost scope.
    pub fn push(&mut self)
        ensures
            final(self).view_scopes() == old(self).view_scopes().push(Seq::<(Seq<char>, Shape)>::empty()),
    {
        let ghost before = self.view_scopes();
        let empty: Vec<(String, Value)> = Vec::new();
        assert(scope_view(empty) =~= Seq::<(Seq<char>, Shape)>::empty());
        self.scopes.push(empty);
        assert(self.view_scopes() =~= before.push(Seq::<(Seq<char>, Shape)>::empty()));
    }

    /// Closes the innermost scope, which must not be the outermost one.
    pub fn pop(&mut self)
        requires
            old(self).depth() > 1,
        ensures
            final(self).view_scopes() == old(self).view_scopes().drop_last(),
    {
        let ghost before = self.view_scopes();
        self.scopes.pop();
        assert(self.view_scopes() =~= before.drop_last());
    }

    /// Binds `name` to `value` in the innermost scope, in place of an earlier
    /// binding of it there; outer scopes are untouched.
    pub fn bind(&mut self, name: String, value: Value)
        requires
            old(self).depth() > 0,
        ensures
            final(self).depth() == old(self).depth(),
            final(self).view_scopes().drop_last() == old(self).view_scopes().drop_last(),
            final(self).view_scopes().last() == rebind(old(self).view_scopes().last(), name@, value@),
            forall|k: Seq<char>| #[trigger] final(self).lookup(k) == if k == name@ {
                Some(value@)
            } else {
                old(self).lookup(k)
            },
    {
        let ghost before = self.view_scopes();
        let ghost pair = (name@, value@);
        let mut top = self.scopes.pop().unwrap();
        let ghost top0 = scope_view(top);
        assert(before.last() == top0);
        assert(self.view_scopes() =~= before.drop_last());
        let mut j = top.len();
        while j > 0
            invariant
                j <= top@.len(),
                top0 == scope_view(top),
                pair == (name@, value@),
                before == old(self).view_scopes(),
                before.len() > 0,
                before.last() == top0,
                self.view_scopes() == before.drop_last(),
                forall|x: int| j <= x < top0.len() ==> #[trigger] top0[x].0 != name@,
            decreases j,
        {
            if top[j - 1].0 == name {
                proof {
                    lemma_last_index_found(top0, name@, j - 1);
                }
                let ghost old_top = top@;
                top.set(j - 1, (name, value));
                assert(top@ == old_top.update(j - 1, (name, value)));
                assert(scope_view(top) =~= top0.update(j - 1, pair));
                self.scopes.push(top);
                assert(self.view_scopes() =~= before.drop_last().push(top0.update(j - 1, pair)));
                proof {
                    lemma_bind_lookup(before, self.view_scopes(), name@, value@);
                }
                return;
            }
            j = j - 1;
        }
        proof {
            lemma_last_index_none(top0, name@);
        }
        top.push((name, value));
        assert(scope_view(top) =~= top0.push(pair));
        self.scopes.push(top);
        assert(self.view_scopes() =~= before.drop_last().push(top0.push(pair)));
        proof {
            lemma_bind_lookup(before, self.view_scopes(), name@, value@);
        }
    }

    /// The value `name` is bound to, from the innermost scope outward.
    pub fn get(&self, name: &String) -> (r: Result<Value, UnboundVariable>)
        ensures
            match self.lookup(name@) {
                Some(v) => r matches Ok(x) && x@ == v,
                None => r matches Err(e) && e.0@ == name@,
            },
    {
        let ghost all = self.view_scopes();
        let mut i = self.scopes.len();
        assert(all.subrange(0, i as int) =~= all);
        while i > 0
            invariant
                i <= self.scopes@.len(),
                all == self.view_scopes(),
                lookup(all, name@) == lookup(all.subrange(0, i as int), name@),
            decreases i,
        {
            let scope = &self.scopes[i - 1];
            let ghost sv = scope_view(*scope);
            assert(all[i - 1] == sv);
            assert(all.subrange(0, i as int).last() == sv);
            assert(all.subrange(0, i as int).drop_last() =~= all.subrange(0, i - 1));
            let mut j = scope.len();
            assert(sv.subrange(0, j as int) =~= sv);
            while j > 0
                invariant
                    j <= scope@.len(),
                    sv == scope_view(*scope),
                    0 < i <= self.scopes@.len(),
                    all == self.view_scopes(),
                    lookup(all, name@) == lookup(all.subrange(0, i as int), name@),
                    all.subrange(0, i as int).last() == sv,
                    all.subrange(0, i as int).drop_last() == all.subrange(0, i - 1),
                    scope_get(sv, name@) == scope_get(sv.subrange(0, j as int), name@),
                decreases j,
            {
                let entry = &scope[j - 1];
                proof {
                    assert(sv.subrange(0, j as int).drop_last() =~= sv.subrange(0, j - 1));
                }
                assert(sv[j - 1] == (entry.0@, entry.1@));
                if entry.0 == *name {
                    let v = entry.1.copy();
                    assert(sv.subrange(0, j as int).last() == sv[j - 1]);
                    return Ok(v);
                }
                j = j - 1;
            }
            assert(sv.subrange(0, 0) =~= Seq::<(Seq<char>, Shape)>::empty());
            i = i - 1;
        }
        assert(all.subrange(0, 0) =~= Seq::<ScopeView>::empty());
        Err(UnboundVariable(name.clone()))
    }
}

impl Default for Environment {
    /// An environment with one empty scope.
    fn default() -> (r: Self)
        ensures
            r.view_scopes() == seq![Seq::<(Seq<char>, Shape)>::empty()],
    {
        Environment::new()
    }
}

} // verus!
