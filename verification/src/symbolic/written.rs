//! Laws of how expressions are written: operators, constants and names mean what they say.

use super::expr::{
    bound_by, bounds_view, declared, expr_view, named_in, within, BoundVar, BoundVarId, BoundView,
    ExprView, ScopesView, SymExpr, SymSort,
};
use super::meaning::{fit, given, meaning, number, sorts_of, truth, Assignment, Model, Value};
use vstd::prelude::*;
use vstd::std_specs::ops::{AddSpec, DivSpec, MulSpec, RemSpec, SubSpec};

verus! {

/// Truth values and numbers mean themselves, and the connectives and comparisons what their
/// names say of what their operands mean.
pub proof fn law_conditions_mean_what_is_written(
    a: SymExpr,
    b: SymExpr,
    t: bool,
    n: i64,
    x: Assignment,
    m: Model,
    env: Map<BoundVarId, Value>,
)
    ensures
        ({
            let p = meaning(a@, x, m, env);
            let q = meaning(b@, x, m, env);
            let one = Box::new(a);
            let two = Box::new(b);
            &&& meaning(SymExpr::Bool(t)@, x, m, env) == Value::Bool(t)
            &&& meaning(SymExpr::Int(n)@, x, m, env) == Value::Int(n as int)
            &&& meaning(SymExpr::Not(one)@, x, m, env) == Value::Bool(!truth(p))
            &&& meaning(SymExpr::And(one, two)@, x, m, env) == Value::Bool(truth(p) && truth(q))
            &&& meaning(SymExpr::Or(one, two)@, x, m, env) == Value::Bool(truth(p) || truth(q))
            &&& meaning(SymExpr::Implies(one, two)@, x, m, env) == Value::Bool(
                !truth(p) || truth(q),
            )
            &&& meaning(SymExpr::Eq(one, two)@, x, m, env) == Value::Bool(p == q)
            &&& meaning(SymExpr::Gt(one, two)@, x, m, env) == Value::Bool(number(p) > number(q))
            &&& meaning(SymExpr::Ge(one, two)@, x, m, env) == Value::Bool(number(p) >= number(q))
            &&& meaning(SymExpr::Lt(one, two)@, x, m, env) == Value::Bool(number(p) < number(q))
            &&& meaning(SymExpr::Le(one, two)@, x, m, env) == Value::Bool(number(p) <= number(q))
        }),
{
}

/// The arithmetic operators mean what they say, between expressions and with a number on
/// either side.
pub proof fn law_arithmetic_means_what_is_written(
    a: SymExpr,
    b: SymExpr,
    n: i64,
    x: Assignment,
    m: Model,
    env: Map<BoundVarId, Value>,
)
    ensures
        ({
            let p = number(meaning(a@, x, m, env));
            let q = number(meaning(b@, x, m, env));
            &&& meaning(a.add_spec(b)@, x, m, env) == Value::Int(p + q)
            &&& meaning(a.add_spec(n)@, x, m, env) == Value::Int(p + n)
            &&& meaning(n.add_spec(b)@, x, m, env) == Value::Int(n + q)
            &&& meaning(a.sub_spec(b)@, x, m, env) == Value::Int(p - q)
            &&& meaning(a.sub_spec(n)@, x, m, env) == Value::Int(p - n)
            &&& meaning(n.sub_spec(b)@, x, m, env) == Value::Int(n - q)
            &&& meaning(a.mul_spec(b)@, x, m, env) == Value::Int(p * q)
            &&& meaning(a.mul_spec(n)@, x, m, env) == Value::Int(p * n)
            &&& meaning(n.mul_spec(b)@, x, m, env) == Value::Int(n * q)
            &&& meaning(a.div_spec(b)@, x, m, env) == Value::Int(p / q)
            &&& meaning(a.div_spec(n)@, x, m, env) == Value::Int(p / (n as int))
            &&& meaning(n.div_spec(b)@, x, m, env) == Value::Int((n as int) / q)
            &&& meaning(a.rem_spec(b)@, x, m, env) == Value::Int(p % q)
            &&& meaning(a.rem_spec(n)@, x, m, env) == Value::Int(p % (n as int))
            &&& meaning(n.rem_spec(b)@, x, m, env) == Value::Int((n as int) % q)
        }),
{
    reveal_with_fuel(meaning, 3);
    reveal_with_fuel(expr_view, 3);
}

/// An expression for all values of its variables is true when its body is for all of them,
/// and one for some values when its body is for some.
pub proof fn law_quantifiers_mean_what_is_written(
    vars: Vec<BoundVar>,
    body: SymExpr,
    x: Assignment,
    m: Model,
    env: Map<BoundVarId, Value>,
)
    ensures
        ({
            let bound = bounds_view(vars@);
            &&& meaning(SymExpr::Forall { vars, body: Box::new(body) }@, x, m, env) == Value::Bool(
                forall|values: Seq<Value>| #[trigger]
                    fit(values, sorts_of(bound)) ==> truth(
                        meaning(body@, x, m, given(env, bound, values, bound.len())),
                    ),
            )
            &&& meaning(SymExpr::Exists { vars, body: Box::new(body) }@, x, m, env) == Value::Bool(
                exists|values: Seq<Value>| #[trigger]
                    fit(values, sorts_of(bound)) && truth(
                        meaning(body@, x, m, given(env, bound, values, bound.len())),
                    ),
            )
        }),
{
    let bound = bounds_view(vars@);
    let all = SymExpr::Forall { vars, body: Box::new(body) };
    let some = SymExpr::Exists { vars, body: Box::new(body) };
    let inner = Box::new(body@);
    assert(all@ == ExprView::Quantified { is_forall: true, vars: bound, body: inner });
    assert(some@ == ExprView::Quantified { is_forall: false, vars: bound, body: inner });
    lemma_quantified(bound, body@, x, m, env);
}

proof fn lemma_quantified(
    vars: Seq<BoundView>,
    body: ExprView,
    x: Assignment,
    m: Model,
    env: Map<BoundVarId, Value>,
)
    ensures
        meaning(
            (ExprView::Quantified { is_forall: true, vars, body: Box::new(body) }),
            x,
            m,
            env,
        ) == Value::Bool(
            forall|values: Seq<Value>| #[trigger]
                fit(values, sorts_of(vars)) ==> truth(
                    meaning(body, x, m, given(env, vars, values, vars.len())),
                ),
        ),
        meaning(
            (ExprView::Quantified { is_forall: false, vars, body: Box::new(body) }),
            x,
            m,
            env,
        ) == Value::Bool(
            exists|values: Seq<Value>| #[trigger]
                fit(values, sorts_of(vars)) && truth(
                    meaning(body, x, m, given(env, vars, values, vars.len())),
                ),
        ),
{
}

proof fn lemma_named_in(vars: Seq<BoundView>, name: Seq<char>, n: nat)
    requires
        n <= vars.len(),
    ensures
        match named_in(vars, name, n) {
            None => forall|i: int| 0 <= i < n ==> (#[trigger] vars[i]).name != name,
            Some(v) => exists|i: int|
                0 <= i < n && #[trigger] vars[i] == v && v.name == name && forall|j: int|
                    0 <= j < i ==> (#[trigger] vars[j]).name != name,
        },
    decreases n,
{
    if n > 0 {
        lemma_named_in(vars, name, (n - 1) as nat);
        if named_in(vars, name, (n - 1) as nat) is None && vars[n - 1].name == name {
            assert(vars[n - 1] == vars[n - 1]);
        }
    }
}

proof fn lemma_bound_outside(
    first: Seq<BoundView>,
    scopes: Seq<Seq<BoundView>>,
    name: Seq<char>,
    n: nat,
)
    requires
        n <= scopes.len(),
    ensures
        bound_by(seq![first] + scopes, name, n + 1) == (match named_in(first, name, first.len()) {
            Some(v) => Some(v),
            None => bound_by(scopes, name, n),
        }),
    decreases n,
{
    let all = seq![first] + scopes;
    if n == 0 {
        assert(bound_by(all, name, 0) is None);
        assert(all[0] == first);
    } else {
        lemma_bound_outside(first, scopes, name, (n - 1) as nat);
        assert(all[n as int] == scopes[n - 1]);
    }
}

/// Within a quantifier a name stands for the variable that the quantifier declares under it,
/// with its sort; a name that the quantifier does not declare stands for what it stood for
/// around it.
pub proof fn law_names_stand_for_the_innermost_variable(
    outer: ScopesView,
    vars: Seq<(String, SymSort)>,
    i: int,
    name: Seq<char>,
)
    ensures
        ({
            let inner = within(outer, vars);
            &&& 0 <= i < vars.len() && vars[i].0@ == name && (forall|j: int|
                0 <= j < i ==> (#[trigger] vars[j]).0@ != name) ==> (bound_by(
                inner.scopes,
                name,
                inner.scopes.len(),
            ) matches Some(v) && v.name == name && v.sort == vars[i].1@ && v.id == (BoundVarId {
                scope: outer.next_scope,
                index: i as usize,
            }))
            &&& (forall|j: int| 0 <= j < vars.len() ==> (#[trigger] vars[j]).0@ != name)
                ==> bound_by(inner.scopes, name, inner.scopes.len()) == bound_by(
                outer.scopes,
                name,
                outer.scopes.len(),
            )
        }),
{
    let own = declared(outer.next_scope, vars);
    lemma_bound_outside(own, outer.scopes, name, outer.scopes.len());
    lemma_named_in(own, name, own.len());
    if 0 <= i < vars.len() && vars[i].0@ == name && (forall|j: int|
        0 <= j < i ==> (#[trigger] vars[j]).0@ != name) {
        assert(own[i].name == name);
        let v = named_in(own, name, own.len())->Some_0;
        let k = choose|k: int|
            0 <= k < own.len() && #[trigger] own[k] == v && v.name == name && forall|j: int|
                0 <= j < k ==> (#[trigger] own[j]).name != name;
        if k < i {
            assert(vars[k].0@ != name);
        }
        if i < k {
            assert(own[i].name != name);
        }
    }
    if forall|j: int| 0 <= j < vars.len() ==> (#[trigger] vars[j]).0@ != name {
        if let Some(v) = named_in(own, name, own.len()) {
            let k = choose|k: int|
                0 <= k < own.len() && #[trigger] own[k] == v && v.name == name && forall|j: int|
                    0 <= j < k ==> (#[trigger] own[j]).name != name;
            assert(vars[k].0@ != name);
        }
    }
}

} // verus!
