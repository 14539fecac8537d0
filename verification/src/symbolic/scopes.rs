//! Which quantifier binds which variable.

use super::expr::{binary_view, declared, BinOp, BoundVarId, BoundView, ExprView, FuncView, SymSort};
use crate::layout::bumped;
use vstd::prelude::*;

verus! {

/// The variables that the quantifiers of an expression bind, from the outside in and from
/// left to right.
pub open spec fn bound_ids(e: ExprView) -> Seq<BoundVarId>
    decreases e, 1nat, 0nat,
{
    match e {
        ExprView::Quantified { vars, body, .. } => ids_of(vars) + bound_ids(*body),
        ExprView::Not(a) => bound_ids(*a),
        ExprView::Binary(_, a, b) => bound_ids(*a) + bound_ids(*b),
        ExprView::App { args, .. } => arg_ids(e, args.len()),
        _ => Seq::empty(),
    }
}

/// The variables that are bound in the first `n` arguments of an application.
pub open spec fn arg_ids(e: ExprView, n: nat) -> Seq<BoundVarId>
    decreases e, 0nat, n,
{
    match e {
        ExprView::App { args, .. } => if n == 0 || n > args.len() {
            Seq::empty()
        } else {
            arg_ids(e, (n - 1) as nat) + bound_ids(args[n - 1])
        },
        _ => Seq::empty(),
    }
}

/// The identities of the variables that one quantifier binds.
pub open spec fn ids_of(vars: Seq<BoundView>) -> Seq<BoundVarId> {
    Seq::new(vars.len(), |i: int| vars[i].id)
}

/// Whether the listed variables differ and belong to quantifiers numbered from `from` on
/// and below `to`.
pub open spec fn numbered_ids(ids: Seq<BoundVarId>, from: usize, to: usize) -> bool {
    &&& from <= to
    &&& ids.no_duplicates()
    &&& forall|i: int| 0 <= i < ids.len() ==> from <= (#[trigger] ids[i]).scope < to
}

/// Whether the quantifiers of an expression are numbered from `from` on and below `to`, so
/// that no two of them bind the same variable.
pub open spec fn numbered(e: ExprView, from: usize, to: usize) -> bool {
    numbered_ids(bound_ids(e), from, to)
}

/// Numbers that follow each other stay apart.
proof fn lemma_joined(a: Seq<BoundVarId>, b: Seq<BoundVarId>, from: usize, mid: usize, to: usize)
    requires
        numbered_ids(a, from, mid),
        numbered_ids(b, mid, to),
    ensures
        numbered_ids(a + b, from, to),
{
    let all = a + b;
    assert forall|i: int, j: int| 0 <= i < all.len() && 0 <= j < all.len() && i != j implies all[i]
        != all[j] by {
        if i < a.len() {
            assert(all[i] == a[i]);
        } else {
            assert(all[i] == b[i - a.len()]);
        }
        if j < a.len() {
            assert(all[j] == a[j]);
        } else {
            assert(all[j] == b[j - a.len()]);
        }
    }
    assert forall|i: int| 0 <= i < all.len() implies from <= (#[trigger] all[i]).scope < to by {
        if i < a.len() {
            assert(all[i] == a[i]);
        } else {
            assert(all[i] == b[i - a.len()]);
        }
    }
}

/// A quantifier whose number precedes those in its body binds variables of its own.
pub proof fn law_quantifiers_bind_variables_of_their_own(
    is_forall: bool,
    vars: Seq<(String, SymSort)>,
    body: ExprView,
    scope: usize,
    to: usize,
)
    requires
        scope < usize::MAX,
        vars.len() <= usize::MAX,
        numbered(body, bumped(scope), to),
    ensures
        numbered(
            (ExprView::Quantified { is_forall, vars: declared(scope, vars), body: Box::new(body) }),
            scope,
            to,
        ),
{
    let own = ids_of(declared(scope, vars));
    assert(numbered_ids(own, scope, bumped(scope))) by {
        assert forall|i: int, j: int|
            0 <= i < own.len() && 0 <= j < own.len() && i != j implies own[i] != own[j] by {
            assert(own[i].index == i as usize);
            assert(own[j].index == j as usize);
        }
    }
    lemma_joined(own, bound_ids(body), scope, bumped(scope), to);
}

/// How a formula is put together under one outermost quantifier: quantifiers are made
/// within those around them, one after the other, and each is used once.
pub enum Formula {
    /// An expression without quantifiers.
    Plain(ExprView),
    Quantified { is_forall: bool, vars: Seq<(String, SymSort)>, body: Box<Formula> },
    Not(Box<Formula>),
    Binary(BinOp, Box<Formula>, Box<Formula>),
    App { func: FuncView, args: Seq<Formula> },
}

/// The formula that is put together where the next quantifier gets the number `next`, and
/// the number after it.
pub open spec fn built(f: Formula, next: usize) -> (ExprView, usize)
    decreases f, 1nat, 0nat,
{
    match f {
        Formula::Plain(e) => (e, next),
        Formula::Quantified { is_forall, vars, body } => {
            let (b, after) = built(*body, bumped(next));
            (
                ExprView::Quantified { is_forall, vars: declared(next, vars), body: Box::new(b) },
                after,
            )
        },
        Formula::Not(a) => {
            let (x, after) = built(*a, next);
            (ExprView::Not(Box::new(x)), after)
        },
        Formula::Binary(op, a, b) => {
            let (x, mid) = built(*a, next);
            let (y, after) = built(*b, mid);
            (binary_view(op, x, y), after)
        },
        Formula::App { func, args } => {
            let (list, after) = args_built(f, next, args.len());
            (ExprView::App { func, args: list }, after)
        },
    }
}

/// The first `n` arguments of an application, put together one after the other.
pub open spec fn args_built(f: Formula, next: usize, n: nat) -> (Seq<ExprView>, usize)
    decreases f, 0nat, n,
{
    match f {
        Formula::App { args, .. } => if n == 0 || n > args.len() {
            (Seq::empty(), next)
        } else {
            let (list, mid) = args_built(f, next, (n - 1) as nat);
            let (x, after) = built(args[n - 1], mid);
            (list.push(x), after)
        },
        _ => (Seq::empty(), next),
    }
}

/// Whether what is called plain has no quantifiers, and quantifiers bind no more variables
/// than can be numbered.
pub open spec fn formula_ok(f: Formula) -> bool
    decreases f,
{
    match f {
        Formula::Plain(e) => bound_ids(e).len() == 0,
        Formula::Quantified { vars, body, .. } => vars.len() <= usize::MAX && formula_ok(*body),
        Formula::Not(a) => formula_ok(*a),
        Formula::Binary(_, a, b) => formula_ok(*a) && formula_ok(*b),
        Formula::App { args, .. } => forall|i: int|
            0 <= i < args.len() ==> formula_ok(#[trigger] args[i]),
    }
}

/// Numbers are given out upwards.
proof fn lemma_numbers_rise(f: Formula, next: usize)
    ensures
        next <= built(f, next).1,
    decreases f, 1nat, 0nat,
{
    match f {
        Formula::Plain(_) => {},
        Formula::Quantified { body, .. } => {
            lemma_numbers_rise(*body, bumped(next));
        },
        Formula::Not(a) => {
            lemma_numbers_rise(*a, next);
        },
        Formula::Binary(_, a, b) => {
            lemma_numbers_rise(*a, next);
            lemma_numbers_rise(*b, built(*a, next).1);
        },
        Formula::App { args, .. } => {
            lemma_arg_numbers_rise(f, next, args.len());
        },
    }
}

proof fn lemma_arg_numbers_rise(f: Formula, next: usize, n: nat)
    ensures
        next <= args_built(f, next, n).1,
    decreases f, 0nat, n,
{
    if let Formula::App { args, .. } = f {
        if 0 < n <= args.len() {
            lemma_arg_numbers_rise(f, next, (n - 1) as nat);
            lemma_numbers_rise(args[n - 1], args_built(f, next, (n - 1) as nat).1);
        }
    }
}

/// The arguments bind what each of them binds, one after the other.
proof fn lemma_arg_ids(func: FuncView, list: Seq<ExprView>, more: Seq<ExprView>, n: nat)
    requires
        n <= list.len() <= more.len(),
        forall|i: int| 0 <= i < list.len() ==> more[i] == #[trigger] list[i],
    ensures
        arg_ids((ExprView::App { func, args: more }), n) == arg_ids(
            (ExprView::App { func, args: list }),
            n,
        ),
    decreases n,
{
    if n > 0 {
        lemma_arg_ids(func, list, more, (n - 1) as nat);
        assert(more[n - 1] == list[n - 1]);
    }
}

/// Under one outermost quantifier all quantifiers have numbers of their own, those side by
/// side and those with the same variable names included: each variable is bound by
/// exactly one quantifier, so none is captured. The numbers must not run out.
pub proof fn law_variables_are_bound_once(f: Formula, next: usize)
    requires
        formula_ok(f),
        built(f, next).1 < usize::MAX,
    ensures
        numbered(built(f, next).0, next, built(f, next).1),
        bound_ids(built(f, next).0).no_duplicates(),
    decreases f, 1nat, 0nat,
{
    match f {
        Formula::Plain(_) => {},
        Formula::Quantified { is_forall, vars, body } => {
            lemma_numbers_rise(*body, bumped(next));
            law_variables_are_bound_once(*body, bumped(next));
            let (b, after) = built(*body, bumped(next));
            law_quantifiers_bind_variables_of_their_own(is_forall, vars, b, next, after);
        },
        Formula::Not(a) => {
            law_variables_are_bound_once(*a, next);
        },
        Formula::Binary(_, a, b) => {
            let (x, mid) = built(*a, next);
            let (y, after) = built(*b, mid);
            lemma_numbers_rise(*b, mid);
            law_variables_are_bound_once(*a, next);
            law_variables_are_bound_once(*b, mid);
            lemma_joined(bound_ids(x), bound_ids(y), next, mid, after);
        },
        Formula::App { func, args } => {
            lemma_args_bound_once(f, next, args.len());
        },
    }
}

proof fn lemma_args_bound_once(f: Formula, next: usize, n: nat)
    requires
        formula_ok(f),
        f matches Formula::App { args, .. } && n <= args.len(),
        args_built(f, next, n).1 < usize::MAX,
    ensures
        args_built(f, next, n).0.len() == n,
        numbered(
            (ExprView::App { func: f->func, args: args_built(f, next, n).0 }),
            next,
            args_built(f, next, n).1,
        ),
    decreases f, 0nat, n,
{
    let func = f->func;
    if let Formula::App { args, .. } = f {
        let (list, after) = args_built(f, next, n);
        let e = ExprView::App { func, args: list };
        if n > 0 {
            let (before, mid) = args_built(f, next, (n - 1) as nat);
            let (x, _) = built(args[n - 1], mid);
            lemma_numbers_rise(args[n - 1], mid);
            lemma_args_bound_once(f, next, (n - 1) as nat);
            law_variables_are_bound_once(args[n - 1], mid);
            lemma_arg_ids(func, before, list, (n - 1) as nat);
            let shorter = ExprView::App { func, args: before };
            assert(bound_ids(e) == arg_ids(e, n));
            assert(list[n - 1] == x);
            assert(arg_ids(e, n) == arg_ids(e, (n - 1) as nat) + bound_ids(x));
            assert(bound_ids(shorter) == arg_ids(shorter, (n - 1) as nat));
            lemma_joined(bound_ids(shorter), bound_ids(x), next, mid, after);
        } else {
            assert(bound_ids(e) == arg_ids(e, 0));
            assert(arg_ids(e, 0) =~= Seq::<BoundVarId>::empty());
        }
    }
}

} // verus!
