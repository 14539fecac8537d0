//! Terms of the constraint solver.

use super::expr::{BinOp, FuncView, SortView};
use vstd::prelude::*;
use vstd::string::*;

verus! {

/// A term of the solver, as the contracts see it. A constant is the application of a
/// function without parameters.
pub enum TermView {
    Bool(bool),
    Int(i64),
    App { func: FuncView, args: Seq<TermView> },
    Quantified { is_forall: bool, vars: Seq<TermView>, body: Box<TermView> },
    Not(Box<TermView>),
    Binary(BinOp, Box<TermView>, Box<TermView>),
}

/// The constant `name` of sort `sort`.
pub open spec fn constant_term(name: Seq<char>, sort: SortView) -> TermView {
    TermView::App {
        func: FuncView { name, domain: Seq::empty(), range: sort },
        args: Seq::empty(),
    }
}

/// Whether a term is a constant.
pub open spec fn is_constant(t: TermView) -> bool {
    t matches TermView::App { func, args } && func.domain.len() == 0 && args.len() == 0
}

/// The sort of what an operator gives.
pub open spec fn result_sort(op: BinOp) -> SortView {
    match op {
        BinOp::Add | BinOp::Sub | BinOp::Mul | BinOp::Div | BinOp::Rem => SortView::Int,
        _ => SortView::Bool,
    }
}

/// The sort of a term.
pub open spec fn term_sort(t: TermView) -> SortView {
    match t {
        TermView::Bool(_) => SortView::Bool,
        TermView::Int(_) => SortView::Int,
        TermView::App { func, .. } => func.range,
        TermView::Quantified { .. } => SortView::Bool,
        TermView::Not(_) => SortView::Bool,
        TermView::Binary(op, _, _) => result_sort(op),
    }
}

/// Whether `text` holds the character with which C strings end.
pub open spec fn has_nul(text: Seq<char>) -> bool {
    exists|i: int| 0 <= i < text.len() && #[trigger] text[i] == '\0'
}

#[verifier::external_type_specification]
#[verifier::external_body]
pub struct ExSort(z3::Sort);

#[verifier::external_type_specification]
#[verifier::external_body]
pub struct ExFuncDecl(z3::FuncDecl);

#[verifier::external_type_specification]
#[verifier::external_body]
pub struct ExDynamic(z3::ast::Dynamic);

#[verifier::external_type_specification]
#[verifier::external_body]
pub struct ExSolver(z3::Solver);

/// The sort that a `z3::Sort` stands for.
pub uninterp spec fn sort_content(s: z3::Sort) -> SortView;

/// The function that a `z3::FuncDecl` declares.
pub uninterp spec fn decl_content(d: z3::FuncDecl) -> FuncView;

/// The term that a `z3::ast::Dynamic` holds.
pub uninterp spec fn term_content(t: z3::ast::Dynamic) -> TermView;

/// What a `z3::Solver` has been told, one list for each backtracking point.
pub uninterp spec fn solver_content(s: z3::Solver) -> Seq<Seq<TermView>>;

/// Whether there is a model of all the assertions, as `z3::Solver::check` decides it.
pub uninterp spec fn consistent(assertions: Seq<TermView>) -> bool;

/// What `z3::Solver::check` answers.
#[derive(Clone, Copy, Debug, PartialEq, Eq, Structural)]
pub enum Verdict {
    Sat,
    Unsat,
    Unknown,
}

/// `z3::Sort::bool` is the sort of the truth values.
#[verifier::external_body]
pub(crate) fn bool_sort() -> (s: z3::Sort)
    ensures
        sort_content(s) == SortView::Bool,
{
    z3::Sort::bool()
}

/// `z3::Sort::int` is the sort of the integers.
#[verifier::external_body]
pub(crate) fn int_sort() -> (s: z3::Sort)
    ensures
        sort_content(s) == SortView::Int,
{
    z3::Sort::int()
}

/// `z3::Sort::uninterpreted` is the sort of the given name, which is not empty. It
/// panics on a name that holds a NUL character.
#[verifier::external_body]
pub(crate) fn named_sort(name: &str) -> (s: z3::Sort)
    requires
        name@.len() > 0,
        !has_nul(name@),
    ensures
        sort_content(s) == SortView::Uninterpreted(name@),
{
    z3::Sort::uninterpreted(z3::Symbol::String(name.to_string()))
}

/// `z3::FuncDecl::new` declares the function with the given name, which is not empty,
/// and sorts. It panics on a name that holds a NUL character and on more parameters than a `u32` counts.
#[verifier::external_body]
pub(crate) fn declare_function(name: &str, domain: &Vec<z3::Sort>, range: &z3::Sort) -> (d:
    z3::FuncDecl)
    requires
        name@.len() > 0,
        !has_nul(name@),
        domain@.len() <= u32::MAX,
    ensures
        decl_content(d).name == name@,
        decl_content(d).domain == Seq::new(domain@.len(), |i: int| sort_content(domain@[i])),
        decl_content(d).range == sort_content(*range),
{
    let refs: Vec<&z3::Sort> = domain.iter().collect();
    z3::FuncDecl::new(name, &refs, range)
}

/// `z3::FuncDecl::apply` is the application of the function. It panics where the
/// arguments are not of the sorts of the parameters.
#[verifier::external_body]
pub(crate) fn apply_function(d: &z3::FuncDecl, args: &Vec<z3::ast::Dynamic>) -> (t:
    z3::ast::Dynamic)
    requires
        args@.len() == decl_content(*d).domain.len() <= u32::MAX,
        forall|i: int|
            0 <= i < args@.len() ==> term_sort(term_content(#[trigger] args@[i])) == decl_content(
                *d,
            ).domain[i],
    ensures
        term_content(t) == (TermView::App {
            func: decl_content(*d),
            args: Seq::new(args@.len(), |i: int| term_content(args@[i])),
        }),
{
    let refs: Vec<&dyn z3::ast::Ast> = args.iter().map(|a| a as &dyn z3::ast::Ast).collect();
    d.apply(&refs)
}

/// `z3::ast::Dynamic::new_const` is the constant of the given name, which is not empty,
/// and sort. It panics on a name that holds a NUL character.
#[verifier::external_body]
pub(crate) fn new_constant(name: &str, sort: &z3::Sort) -> (t: z3::ast::Dynamic)
    requires
        name@.len() > 0,
        !has_nul(name@),
    ensures
        term_content(t) == constant_term(name@, sort_content(*sort)),
{
    z3::ast::Dynamic::new_const(name, sort)
}

/// The `Clone` of `z3::ast::Dynamic` is the same term.
#[verifier::external_body]
pub(crate) fn copy_term(t: &z3::ast::Dynamic) -> (r: z3::ast::Dynamic)
    ensures
        term_content(r) == term_content(*t),
{
    t.clone()
}

/// `z3::ast::Bool::from_bool` is the given truth value.
#[verifier::external_body]
pub(crate) fn bool_term(value: bool) -> (t: z3::ast::Dynamic)
    ensures
        term_content(t) == TermView::Bool(value),
{
    z3::ast::Dynamic::from_ast(&z3::ast::Bool::from_bool(value))
}

/// `z3::ast::Int::from_i64` is the given integer.
#[verifier::external_body]
pub(crate) fn int_term(value: i64) -> (t: z3::ast::Dynamic)
    ensures
        term_content(t) == TermView::Int(value),
{
    z3::ast::Dynamic::from_ast(&z3::ast::Int::from_i64(value))
}

/// `z3::ast::forall_const` is the universal quantifier over the given constants; over
/// none it is the body.
#[verifier::external_body]
pub(crate) fn forall_term(vars: &Vec<z3::ast::Dynamic>, body: &z3::ast::Dynamic) -> (t:
    z3::ast::Dynamic)
    requires
        vars@.len() <= u32::MAX,
        forall|i: int| 0 <= i < vars@.len() ==> is_constant(term_content(#[trigger] vars@[i])),
        term_sort(term_content(*body)) == SortView::Bool,
    ensures
        vars@.len() == 0 ==> term_content(t) == term_content(*body),
        vars@.len() > 0 ==> term_content(t) == (TermView::Quantified {
            is_forall: true,
            vars: Seq::new(vars@.len(), |i: int| term_content(vars@[i])),
            body: Box::new(term_content(*body)),
        }),
{
    let refs: Vec<&dyn z3::ast::Ast> = vars.iter().map(|a| a as &dyn z3::ast::Ast).collect();
    let inner = body.as_bool().unwrap();
    z3::ast::Dynamic::from_ast(&z3::ast::forall_const(&refs, &[], &inner))
}

/// `z3::ast::exists_const` is the existential quantifier over the given constants; over
/// none it is the body.
#[verifier::external_body]
pub(crate) fn exists_term(vars: &Vec<z3::ast::Dynamic>, body: &z3::ast::Dynamic) -> (t:
    z3::ast::Dynamic)
    requires
        vars@.len() <= u32::MAX,
        forall|i: int| 0 <= i < vars@.len() ==> is_constant(term_content(#[trigger] vars@[i])),
        term_sort(term_content(*body)) == SortView::Bool,
    ensures
        vars@.len() == 0 ==> term_content(t) == term_content(*body),
        vars@.len() > 0 ==> term_content(t) == (TermView::Quantified {
            is_forall: false,
            vars: Seq::new(vars@.len(), |i: int| term_content(vars@[i])),
            body: Box::new(term_content(*body)),
        }),
{
    let refs: Vec<&dyn z3::ast::Ast> = vars.iter().map(|a| a as &dyn z3::ast::Ast).collect();
    let inner = body.as_bool().unwrap();
    z3::ast::Dynamic::from_ast(&z3::ast::exists_const(&refs, &[], &inner))
}

/// `z3::ast::Bool::not` is the negation.
#[verifier::external_body]
pub(crate) fn not_term(a: &z3::ast::Dynamic) -> (t: z3::ast::Dynamic)
    requires
        term_sort(term_content(*a)) == SortView::Bool,
    ensures
        term_content(t) == TermView::Not(Box::new(term_content(*a))),
{
    z3::ast::Dynamic::from_ast(&a.as_bool().unwrap().not())
}

/// `z3::ast::Bool::and` is the conjunction.
#[verifier::external_body]
pub(crate) fn and_term(a: &z3::ast::Dynamic, b: &z3::ast::Dynamic) -> (t: z3::ast::Dynamic)
    requires
        term_sort(term_content(*a)) == SortView::Bool,
        term_sort(term_content(*b)) == SortView::Bool,
    ensures
        term_content(t) == TermView::Binary(
            BinOp::And,
            Box::new(term_content(*a)),
            Box::new(term_content(*b)),
        ),
{
    z3::ast::Dynamic::from_ast(&z3::ast::Bool::and(&[a.as_bool().unwrap(), b.as_bool().unwrap()]))
}

/// `z3::ast::Bool::or` is the disjunction.
#[verifier::external_body]
pub(crate) fn or_term(a: &z3::ast::Dynamic, b: &z3::ast::Dynamic) -> (t: z3::ast::Dynamic)
    requires
        term_sort(term_content(*a)) == SortView::Bool,
        term_sort(term_content(*b)) == SortView::Bool,
    ensures
        term_content(t) == TermView::Binary(
            BinOp::Or,
            Box::new(term_content(*a)),
            Box::new(term_content(*b)),
        ),
{
    z3::ast::Dynamic::from_ast(&z3::ast::Bool::or(&[a.as_bool().unwrap(), b.as_bool().unwrap()]))
}

/// `z3::ast::Bool::implies` is the implication.
#[verifier::external_body]
pub(crate) fn implies_term(a: &z3::ast::Dynamic, b: &z3::ast::Dynamic) -> (t: z3::ast::Dynamic)
    requires
        term_sort(term_content(*a)) == SortView::Bool,
        term_sort(term_content(*b)) == SortView::Bool,
    ensures
        term_content(t) == TermView::Binary(
            BinOp::Implies,
            Box::new(term_content(*a)),
            Box::new(term_content(*b)),
        ),
{
    z3::ast::Dynamic::from_ast(&a.as_bool().unwrap().implies(b.as_bool().unwrap()))
}

/// `z3::ast::Dynamic::eq` is the equation of two terms of one sort; it panics on two sorts.
#[verifier::external_body]
pub(crate) fn eq_term(a: &z3::ast::Dynamic, b: &z3::ast::Dynamic) -> (t: z3::ast::Dynamic)
    requires
        term_sort(term_content(*a)) == term_sort(term_content(*b)),
    ensures
        term_content(t) == TermView::Binary(
            BinOp::Eq,
            Box::new(term_content(*a)),
            Box::new(term_content(*b)),
        ),
{
    z3::ast::Dynamic::from_ast(&a.eq(b))
}

/// `z3::ast::Int::gt` says that the first is greater than the second.
#[verifier::external_body]
pub(crate) fn gt_term(a: &z3::ast::Dynamic, b: &z3::ast::Dynamic) -> (t: z3::ast::Dynamic)
    requires
        term_sort(term_content(*a)) == SortView::Int,
        term_sort(term_content(*b)) == SortView::Int,
    ensures
        term_content(t) == TermView::Binary(
            BinOp::Gt,
            Box::new(term_content(*a)),
            Box::new(term_content(*b)),
        ),
{
    z3::ast::Dynamic::from_ast(&a.as_int().unwrap().gt(b.as_int().unwrap()))
}

/// `z3::ast::Int::ge` says that the first is at least the second.
#[verifier::external_body]
pub(crate) fn ge_term(a: &z3::ast::Dynamic, b: &z3::ast::Dynamic) -> (t: z3::ast::Dynamic)
    requires
        term_sort(term_content(*a)) == SortView::Int,
        term_sort(term_content(*b)) == SortView::Int,
    ensures
        term_content(t) == TermView::Binary(
            BinOp::Ge,
            Box::new(term_content(*a)),
            Box::new(term_content(*b)),
        ),
{
    z3::ast::Dynamic::from_ast(&a.as_int().unwrap().ge(b.as_int().unwrap()))
}

/// `z3::ast::Int::lt` says that the first is less than the second.
#[verifier::external_body]
pub(crate) fn lt_term(a: &z3::ast::Dynamic, b: &z3::ast::Dynamic) -> (t: z3::ast::Dynamic)
    requires
        term_sort(term_content(*a)) == SortView::Int,
        term_sort(term_content(*b)) == SortView::Int,
    ensures
        term_content(t) == TermView::Binary(
            BinOp::Lt,
            Box::new(term_content(*a)),
            Box::new(term_content(*b)),
        ),
{
    z3::ast::Dynamic::from_ast(&a.as_int().unwrap().lt(b.as_int().unwrap()))
}

/// `z3::ast::Int::le` says that the first is at most the second.
#[verifier::external_body]
pub(crate) fn le_term(a: &z3::ast::Dynamic, b: &z3::ast::Dynamic) -> (t: z3::ast::Dynamic)
    requires
        term_sort(term_content(*a)) == SortView::Int,
        term_sort(term_content(*b)) == SortView::Int,
    ensures
        term_content(t) == TermView::Binary(
            BinOp::Le,
            Box::new(term_content(*a)),
            Box::new(term_content(*b)),
        ),
{
    z3::ast::Dynamic::from_ast(&a.as_int().unwrap().le(b.as_int().unwrap()))
}

/// `z3::ast::Int::add` is the sum.
#[verifier::external_body]
pub(crate) fn add_term(a: &z3::ast::Dynamic, b: &z3::ast::Dynamic) -> (t: z3::ast::Dynamic)
    requires
        term_sort(term_content(*a)) == SortView::Int,
        term_sort(term_content(*b)) == SortView::Int,
    ensures
        term_content(t) == TermView::Binary(
            BinOp::Add,
            Box::new(term_content(*a)),
            Box::new(term_content(*b)),
        ),
{
    z3::ast::Dynamic::from_ast(&z3::ast::Int::add(&[a.as_int().unwrap(), b.as_int().unwrap()]))
}

/// `z3::ast::Int::sub` is the difference.
#[verifier::external_body]
pub(crate) fn sub_term(a: &z3::ast::Dynamic, b: &z3::ast::Dynamic) -> (t: z3::ast::Dynamic)
    requires
        term_sort(term_content(*a)) == SortView::Int,
        term_sort(term_content(*b)) == SortView::Int,
    ensures
        term_content(t) == TermView::Binary(
            BinOp::Sub,
            Box::new(term_content(*a)),
            Box::new(term_content(*b)),
        ),
{
    z3::ast::Dynamic::from_ast(&z3::ast::Int::sub(&[a.as_int().unwrap(), b.as_int().unwrap()]))
}

/// `z3::ast::Int::mul` is the product.
#[verifier::external_body]
pub(crate) fn mul_term(a: &z3::ast::Dynamic, b: &z3::ast::Dynamic) -> (t: z3::ast::Dynamic)
    requires
        term_sort(term_content(*a)) == SortView::Int,
        term_sort(term_content(*b)) == SortView::Int,
    ensures
        term_content(t) == TermView::Binary(
            BinOp::Mul,
            Box::new(term_content(*a)),
            Box::new(term_content(*b)),
        ),
{
    z3::ast::Dynamic::from_ast(&z3::ast::Int::mul(&[a.as_int().unwrap(), b.as_int().unwrap()]))
}

/// `z3::ast::Int::div` is the integer quotient.
#[verifier::external_body]
pub(crate) fn div_term(a: &z3::ast::Dynamic, b: &z3::ast::Dynamic) -> (t: z3::ast::Dynamic)
    requires
        term_sort(term_content(*a)) == SortView::Int,
        term_sort(term_content(*b)) == SortView::Int,
    ensures
        term_content(t) == TermView::Binary(
            BinOp::Div,
            Box::new(term_content(*a)),
            Box::new(term_content(*b)),
        ),
{
    z3::ast::Dynamic::from_ast(&a.as_int().unwrap().div(b.as_int().unwrap()))
}

/// `z3::ast::Int::rem` is the remainder.
#[verifier::external_body]
pub(crate) fn rem_term(a: &z3::ast::Dynamic, b: &z3::ast::Dynamic) -> (t: z3::ast::Dynamic)
    requires
        term_sort(term_content(*a)) == SortView::Int,
        term_sort(term_content(*b)) == SortView::Int,
    ensures
        term_content(t) == TermView::Binary(
            BinOp::Rem,
            Box::new(term_content(*a)),
            Box::new(term_content(*b)),
        ),
{
    z3::ast::Dynamic::from_ast(&a.as_int().unwrap().rem(b.as_int().unwrap()))
}

/// `z3::Solver::new` is a solver that has been told nothing.
#[verifier::external_body]
pub(crate) fn new_solver() -> (s: z3::Solver)
    ensures
        solver_content(s) == seq![Seq::<TermView>::empty()],
{
    z3::Solver::new()
}

/// `z3::Solver::assert` adds an assertion to those after the last backtracking point.
#[verifier::external_body]
pub(crate) fn add_assertion(s: &mut z3::Solver, t: &z3::ast::Dynamic)
    requires
        term_sort(term_content(*t)) == SortView::Bool,
        solver_content(*old(s)).len() > 0,
    ensures
        solver_content(*final(s)) == solver_content(*old(s)).drop_last().push(
            solver_content(*old(s)).last().push(term_content(*t)),
        ),
{
    s.assert(&t.as_bool().unwrap());
}

/// `z3::Solver::push` sets a backtracking point.
#[verifier::external_body]
pub(crate) fn push_point(s: &mut z3::Solver)
    ensures
        solver_content(*final(s)) == solver_content(*old(s)).push(Seq::<TermView>::empty()),
{
    s.push();
}

/// `z3::Solver::pop` takes back what was asserted after the last backtracking point,
/// and the point.
#[verifier::external_body]
pub(crate) fn pop_point(s: &mut z3::Solver)
    requires
        solver_content(*old(s)).len() > 1,
    ensures
        solver_content(*final(s)) == solver_content(*old(s)).drop_last(),
{
    s.pop(1);
}

/// `z3::Solver::reset` takes back all assertions and backtracking points.
#[verifier::external_body]
pub(crate) fn forget_assertions(s: &mut z3::Solver)
    ensures
        solver_content(*final(s)) == seq![Seq::<TermView>::empty()],
{
    s.reset();
}

/// `z3::Solver::check` says whether the assertions have a model, where it can tell.
/// When it cannot tell is not stated: that depends on time and on the solver's
/// heuristics.
#[verifier::external_body]
pub(crate) fn check_assertions(s: &z3::Solver) -> (v: Verdict)
    ensures
        v == Verdict::Sat ==> consistent(solver_content(*s).flatten()),
        v == Verdict::Unsat ==> !consistent(solver_content(*s).flatten()),
{
    match s.check() {
        z3::SatResult::Sat => Verdict::Sat,
        z3::SatResult::Unsat => Verdict::Unsat,
        z3::SatResult::Unknown => Verdict::Unknown,
    }
}

} // verus!
