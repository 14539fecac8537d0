//! Symbolic expressions.

use super::scopes::{bound_ids, law_quantifiers_bind_variables_of_their_own, numbered};
use crate::event::Event;
use crate::text::{decimal, decimal_of, thread_name, thread_text};
use std::ops::{Add, Div, Mul, Rem, Sub};
use vstd::prelude::*;
use vstd::std_specs::convert::FromSpecImpl;
use vstd::std_specs::ops::{AddSpecImpl, DivSpecImpl, MulSpecImpl, RemSpecImpl, SubSpecImpl};
use vstd::string::*;

verus! {

/// Where a symbolic variable comes from.
#[derive(Clone, Copy, Debug, PartialEq, Eq, Structural, Hash)]
pub enum SymVarKind {
    /// An event of the execution.
    Execution(Event),
    /// An input of a summary.
    SummaryInput(usize),
    /// A variable local to a summary.
    SummaryLocal(usize),
}

/// The identity of a symbolic variable.
#[derive(Clone, Copy, Debug, PartialEq, Eq, Structural, Hash)]
pub struct SymVarId(pub SymVarKind);

/// The name under which the solver knows a variable.
pub open spec fn solver_text(id: SymVarId) -> Seq<char> {
    match id.0 {
        SymVarKind::Execution(e) => "exec_"@ + thread_text(e.thread) + "_"@ + decimal_of(
            e.index as nat,
        ),
        SymVarKind::SummaryInput(i) => "input_"@ + decimal_of(i as nat),
        SymVarKind::SummaryLocal(i) => "local_"@ + decimal_of(i as nat),
    }
}

impl SymVarId {
    pub fn from_event(pos: Event) -> (id: Self)
        ensures
            id == SymVarId(SymVarKind::Execution(pos)),
    {
        SymVarId(SymVarKind::Execution(pos))
    }

    pub fn summary_input(index: usize) -> (id: Self)
        ensures
            id == SymVarId(SymVarKind::SummaryInput(index)),
    {
        SymVarId(SymVarKind::SummaryInput(index))
    }

    pub fn summary_local(index: usize) -> (id: Self)
        ensures
            id == SymVarId(SymVarKind::SummaryLocal(index)),
    {
        SymVarId(SymVarKind::SummaryLocal(index))
    }

    pub fn input_index(&self) -> (r: Option<usize>)
        ensures
            r == (match self.0 {
                SymVarKind::SummaryInput(i) => Some(i),
                _ => None,
            }),
    {
        match self.0 {
            SymVarKind::SummaryInput(i) => Some(i),
            _ => None,
        }
    }

    pub fn local_index(&self) -> (r: Option<usize>)
        ensures
            r == (match self.0 {
                SymVarKind::SummaryLocal(i) => Some(i),
                _ => None,
            }),
    {
        match self.0 {
            SymVarKind::SummaryLocal(i) => Some(i),
            _ => None,
        }
    }

    /// The name under which the solver knows the variable.
    pub fn solver_name(&self) -> (s: String)
        ensures
            s@ == solver_text(*self),
    {
        match self.0 {
            SymVarKind::Execution(e) => {
                let mut s = String::from_str("exec_");
                s.append(thread_name(e.thread).as_str());
                s.append("_");
                s.append(decimal(e.index as u128).as_str());
                s
            },
            SymVarKind::SummaryInput(i) => {
                let mut s = String::from_str("input_");
                s.append(decimal(i as u128).as_str());
                s
            },
            SymVarKind::SummaryLocal(i) => {
                let mut s = String::from_str("local_");
                s.append(decimal(i as u128).as_str());
                s
            },
        }
    }
}

/// The sort of a symbolic expression.
pub enum SymSort {
    Bool,
    Int,
    Uninterpreted(String),
}

/// A sort as the contracts see it.
pub enum SortView {
    Bool,
    Int,
    Uninterpreted(Seq<char>),
}

impl View for SymSort {
    type V = SortView;

    open spec fn view(&self) -> SortView {
        match *self {
            SymSort::Bool => SortView::Bool,
            SymSort::Int => SortView::Int,
            SymSort::Uninterpreted(name) => SortView::Uninterpreted(name@),
        }
    }
}

impl Clone for SymSort {
    fn clone(&self) -> (r: Self)
        ensures
            r@ == self@,
    {
        match self {
            SymSort::Bool => SymSort::Bool,
            SymSort::Int => SymSort::Int,
            SymSort::Uninterpreted(name) => SymSort::Uninterpreted(name.clone()),
        }
    }
}

impl SymSort {
    /// Whether two sorts are the same.
    pub fn same(&self, other: &SymSort) -> (b: bool)
        ensures
            b == (self@ == other@),
    {
        match (self, other) {
            (SymSort::Bool, SymSort::Bool) => true,
            (SymSort::Int, SymSort::Int) => true,
            (SymSort::Uninterpreted(a), SymSort::Uninterpreted(b)) => *a == *b,
            _ => false,
        }
    }
}

/// The views of a list of sorts.
pub open spec fn sorts_view(sorts: Seq<SymSort>) -> Seq<SortView> {
    Seq::new(sorts.len(), |i: int| sorts[i]@)
}

pub fn copy_sorts(sorts: &Vec<SymSort>) -> (r: Vec<SymSort>)
    ensures
        sorts_view(r@) == sorts_view(sorts@),
{
    let mut r: Vec<SymSort> = Vec::new();
    let mut i: usize = 0;
    while i < sorts.len()
        invariant
            i <= sorts.len(),
            r@.len() == i,
            forall|k: int| 0 <= k < i ==> (#[trigger] r@[k])@ == sorts@[k]@,
        decreases sorts.len() - i,
    {
        r.push(sorts[i].clone());
        i += 1;
    }
    assert(sorts_view(r@) =~= sorts_view(sorts@));
    r
}

/// An uninterpreted function.
pub struct SymFunc {
    name: String,
    domain: Vec<SymSort>,
    range: SymSort,
}

/// A function as the contracts see it.
pub struct FuncView {
    pub name: Seq<char>,
    pub domain: Seq<SortView>,
    pub range: SortView,
}

impl View for SymFunc {
    type V = FuncView;

    closed spec fn view(&self) -> FuncView {
        FuncView { name: self.name@, domain: sorts_view(self.domain@), range: self.range@ }
    }
}

impl Clone for SymFunc {
    fn clone(&self) -> (r: Self)
        ensures
            r@ == self@,
    {
        SymFunc {
            name: self.name.clone(),
            domain: copy_sorts(&self.domain),
            range: self.range.clone(),
        }
    }
}

impl SymFunc {
    pub fn new(name: &str, domain: Vec<SymSort>, range: SymSort) -> (f: Self)
        ensures
            f@ == (FuncView { name: name@, domain: sorts_view(domain@), range: range@ }),
    {
        SymFunc { name: String::from_str(name), domain, range }
    }

    pub fn name(&self) -> (s: &str)
        ensures
            s@ == self@.name,
    {
        self.name.as_str()
    }

    pub fn domain(&self) -> (d: &Vec<SymSort>)
        ensures
            sorts_view(d@) == self@.domain,
    {
        &self.domain
    }

    pub fn range(&self) -> (s: &SymSort)
        ensures
            s@ == self@.range,
    {
        &self.range
    }

    /// The function applied to arguments.
    pub fn apply(&self, args: Vec<SymExpr>) -> (e: SymExpr)
        ensures
            e@ == (ExprView::App { func: self@, args: exprs_view(args@) }),
    {
        let e = SymExpr::App { func: self.clone(), args };
        assert(e@ == expr_view(e));
        assert(e@->args =~= exprs_view(args@));
        e
    }

    /// Whether two functions are the same.
    pub fn same(&self, other: &SymFunc) -> (b: bool)
        ensures
            b == (self@ == other@),
    {
        if self.name != other.name || !self.range.same(&other.range) || self.domain.len()
            != other.domain.len() {
            assert(self@.domain.len() == self.domain@.len());
            assert(other@.domain.len() == other.domain@.len());
            return false;
        }
        let mut i: usize = 0;
        while i < self.domain.len()
            invariant
                i <= self.domain.len(),
                self.domain.len() == other.domain.len(),
                forall|k: int| 0 <= k < i ==> (#[trigger] self.domain@[k])@ == other.domain@[k]@,
            decreases self.domain.len() - i,
        {
            if !self.domain[i].same(&other.domain[i]) {
                proof {
                    assert(self@.domain[i as int] == self.domain@[i as int]@);
                    assert(other@.domain[i as int] == other.domain@[i as int]@);
                }
                return false;
            }
            i += 1;
        }
        assert(self@.domain =~= other@.domain);
        true
    }
}

/// The identity of a bound variable: its quantifier, and its place there.
#[derive(Clone, Copy, Debug, PartialEq, Eq, Structural, Hash)]
pub struct BoundVarId {
    pub scope: usize,
    pub index: usize,
}

impl BoundVarId {
    pub fn scope(&self) -> (s: usize)
        ensures
            s == self.scope,
    {
        self.scope
    }

    pub fn index(&self) -> (i: usize)
        ensures
            i == self.index,
    {
        self.index
    }
}

/// A variable that a quantifier binds.
pub struct BoundVar {
    id: BoundVarId,
    name: String,
    sort: SymSort,
}

/// A bound variable as the contracts see it.
pub struct BoundView {
    pub id: BoundVarId,
    pub name: Seq<char>,
    pub sort: SortView,
}

impl View for BoundVar {
    type V = BoundView;

    closed spec fn view(&self) -> BoundView {
        BoundView { id: self.id, name: self.name@, sort: self.sort@ }
    }
}

impl Clone for BoundVar {
    fn clone(&self) -> (r: Self)
        ensures
            r@ == self@,
    {
        BoundVar { id: self.id, name: self.name.clone(), sort: self.sort.clone() }
    }
}

impl BoundVar {
    pub fn new(id: BoundVarId, name: &str, sort: SymSort) -> (v: Self)
        ensures
            v@ == (BoundView { id, name: name@, sort: sort@ }),
    {
        BoundVar { id, name: String::from_str(name), sort }
    }

    /// The variable as an expression.
    pub fn expr(&self) -> (e: SymExpr)
        ensures
            e@ == (ExprView::BoundVar { id: self@.id, name: self@.name, sort: self@.sort }),
    {
        SymExpr::BoundVar { id: self.id, name: self.name.clone(), sort: self.sort.clone() }
    }

    pub fn id(&self) -> (id: BoundVarId)
        ensures
            id == self@.id,
    {
        self.id
    }

    pub fn name(&self) -> (s: &str)
        ensures
            s@ == self@.name,
    {
        self.name.as_str()
    }

    pub fn sort(&self) -> (s: &SymSort)
        ensures
            s@ == self@.sort,
    {
        &self.sort
    }

    /// Whether two bound variables are the same.
    pub fn same(&self, other: &BoundVar) -> (b: bool)
        ensures
            b == (self@ == other@),
    {
        self.id == other.id && self.name == other.name && self.sort.same(&other.sort)
    }
}

/// The views of a list of bound variables.
pub open spec fn bounds_view(vars: Seq<BoundVar>) -> Seq<BoundView> {
    Seq::new(vars.len(), |i: int| vars[i]@)
}

pub fn copy_bounds(vars: &Vec<BoundVar>) -> (r: Vec<BoundVar>)
    ensures
        bounds_view(r@) == bounds_view(vars@),
{
    let mut r: Vec<BoundVar> = Vec::new();
    let mut i: usize = 0;
    while i < vars.len()
        invariant
            i <= vars.len(),
            r@.len() == i,
            forall|k: int| 0 <= k < i ==> (#[trigger] r@[k])@ == vars@[k]@,
        decreases vars.len() - i,
    {
        r.push(vars[i].clone());
        i += 1;
    }
    assert(bounds_view(r@) =~= bounds_view(vars@));
    r
}

fn bounds_same(a: &Vec<BoundVar>, b: &Vec<BoundVar>) -> (r: bool)
    ensures
        r == (bounds_view(a@) == bounds_view(b@)),
{
    if a.len() != b.len() {
        assert(bounds_view(a@).len() != bounds_view(b@).len());
        return false;
    }
    let mut i: usize = 0;
    while i < a.len()
        invariant
            i <= a.len(),
            a.len() == b.len(),
            forall|k: int| 0 <= k < i ==> (#[trigger] a@[k])@ == b@[k]@,
        decreases a.len() - i,
    {
        if !a[i].same(&b[i]) {
            proof {
                assert(bounds_view(a@)[i as int] == a@[i as int]@);
                assert(bounds_view(b@)[i as int] == b@[i as int]@);
            }
            return false;
        }
        i += 1;
    }
    assert(bounds_view(a@) =~= bounds_view(b@));
    true
}

/// A symbolic expression.
#[allow(inconsistent_fields)]
pub enum SymExpr {
    Var { id: SymVarId, sort: SymSort },
    BoundVar { id: BoundVarId, name: String, sort: SymSort },
    Bool(bool),
    Int(i64),
    App { func: SymFunc, args: Vec<SymExpr> },
    Forall { vars: Vec<BoundVar>, body: Box<SymExpr> },
    Exists { vars: Vec<BoundVar>, body: Box<SymExpr> },
    Not(Box<SymExpr>),
    And(Box<SymExpr>, Box<SymExpr>),
    Or(Box<SymExpr>, Box<SymExpr>),
    Implies(Box<SymExpr>, Box<SymExpr>),
    Eq(Box<SymExpr>, Box<SymExpr>),
    Gt(Box<SymExpr>, Box<SymExpr>),
    Ge(Box<SymExpr>, Box<SymExpr>),
    Lt(Box<SymExpr>, Box<SymExpr>),
    Le(Box<SymExpr>, Box<SymExpr>),
    Add(Box<SymExpr>, Box<SymExpr>),
    Sub(Box<SymExpr>, Box<SymExpr>),
    Mul(Box<SymExpr>, Box<SymExpr>),
    Div(Box<SymExpr>, Box<SymExpr>),
    Rem(Box<SymExpr>, Box<SymExpr>),
}

/// The operators with two operands.
#[derive(Clone, Copy, Debug, PartialEq, Eq, Structural)]
pub enum BinOp {
    And,
    Or,
    Implies,
    Eq,
    Gt,
    Ge,
    Lt,
    Le,
    Add,
    Sub,
    Mul,
    Div,
    Rem,
}

/// An expression as the contracts see it.
#[allow(inconsistent_fields)]
pub enum ExprView {
    Var { id: SymVarId, sort: SortView },
    BoundVar { id: BoundVarId, name: Seq<char>, sort: SortView },
    Bool(bool),
    Int(i64),
    App { func: FuncView, args: Seq<ExprView> },
    Quantified { is_forall: bool, vars: Seq<BoundView>, body: Box<ExprView> },
    Not(Box<ExprView>),
    Binary(BinOp, Box<ExprView>, Box<ExprView>),
}

/// An expression as the contracts see it.
pub open spec fn expr_view(e: SymExpr) -> ExprView
    decreases e,
{
    match e {
        SymExpr::Var { id, sort } => ExprView::Var { id, sort: sort@ },
        SymExpr::BoundVar { id, name, sort } => ExprView::BoundVar { id, name: name@, sort: sort@ },
        SymExpr::Bool(b) => ExprView::Bool(b),
        SymExpr::Int(i) => ExprView::Int(i),
        SymExpr::App { func, args } => ExprView::App {
            func: func@,
            args: Seq::new(
                args@.len(),
                |i: int|
                    if 0 <= i < args@.len() {
                        expr_view(args@[i])
                    } else {
                        arbitrary()
                    },
            ),
        },
        SymExpr::Forall { vars, body } => ExprView::Quantified {
            is_forall: true,
            vars: bounds_view(vars@),
            body: Box::new(expr_view(*body)),
        },
        SymExpr::Exists { vars, body } => ExprView::Quantified {
            is_forall: false,
            vars: bounds_view(vars@),
            body: Box::new(expr_view(*body)),
        },
        SymExpr::Not(a) => ExprView::Not(Box::new(expr_view(*a))),
        SymExpr::And(a, b) => binary_view(BinOp::And, expr_view(*a), expr_view(*b)),
        SymExpr::Or(a, b) => binary_view(BinOp::Or, expr_view(*a), expr_view(*b)),
        SymExpr::Implies(a, b) => binary_view(BinOp::Implies, expr_view(*a), expr_view(*b)),
        SymExpr::Eq(a, b) => binary_view(BinOp::Eq, expr_view(*a), expr_view(*b)),
        SymExpr::Gt(a, b) => binary_view(BinOp::Gt, expr_view(*a), expr_view(*b)),
        SymExpr::Ge(a, b) => binary_view(BinOp::Ge, expr_view(*a), expr_view(*b)),
        SymExpr::Lt(a, b) => binary_view(BinOp::Lt, expr_view(*a), expr_view(*b)),
        SymExpr::Le(a, b) => binary_view(BinOp::Le, expr_view(*a), expr_view(*b)),
        SymExpr::Add(a, b) => binary_view(BinOp::Add, expr_view(*a), expr_view(*b)),
        SymExpr::Sub(a, b) => binary_view(BinOp::Sub, expr_view(*a), expr_view(*b)),
        SymExpr::Mul(a, b) => binary_view(BinOp::Mul, expr_view(*a), expr_view(*b)),
        SymExpr::Div(a, b) => binary_view(BinOp::Div, expr_view(*a), expr_view(*b)),
        SymExpr::Rem(a, b) => binary_view(BinOp::Rem, expr_view(*a), expr_view(*b)),
    }
}

/// An operator applied to two expressions.
pub open spec fn binary_view(op: BinOp, a: ExprView, b: ExprView) -> ExprView {
    ExprView::Binary(op, Box::new(a), Box::new(b))
}

impl View for SymExpr {
    type V = ExprView;

    open spec fn view(&self) -> ExprView {
        expr_view(*self)
    }
}

/// The views of a list of expressions.
pub open spec fn exprs_view(exprs: Seq<SymExpr>) -> Seq<ExprView> {
    Seq::new(exprs.len(), |i: int| exprs[i]@)
}

/// The sort of an expression.
pub open spec fn sort_of(e: ExprView) -> SortView {
    match e {
        ExprView::Var { sort, .. } => sort,
        ExprView::BoundVar { sort, .. } => sort,
        ExprView::Int(_) => SortView::Int,
        ExprView::App { func, .. } => func.range,
        ExprView::Binary(op, _, _) => if op is Add || op is Sub || op is Mul || op is Div
            || op is Rem {
            SortView::Int
        } else {
            SortView::Bool
        },
        _ => SortView::Bool,
    }
}

/// What becomes of the free variables of an expression.
pub trait VarImage {
    /// The expression that takes the place of a variable.
    spec fn image(&self, id: SymVarId, sort: SortView) -> ExprView;

    /// Whether the variable may occur.
    spec fn allows(&self, id: SymVarId, sort: SortView) -> bool;
}

/// How the free variables of an expression are replaced.
pub trait VarRewrite {
    type Image: VarImage;

    spec fn images(&self) -> Self::Image;

    /// The expression that takes the place of a variable, if the variable may occur.
    fn rewrite(&self, id: SymVarId, sort: &SymSort) -> (r: Option<SymExpr>)
        ensures
            r is Some == self.images().allows(id, sort@),
            r matches Some(e) ==> e@ == self.images().image(id, sort@),
    ;
}

/// An expression with each free variable replaced.
pub open spec fn rewritten<R: VarImage>(e: ExprView, r: R) -> ExprView
    decreases e,
{
    match e {
        ExprView::Var { id, sort } => r.image(id, sort),
        ExprView::App { func, args } => ExprView::App {
            func,
            args: Seq::new(
                args.len(),
                |i: int|
                    if 0 <= i < args.len() {
                        rewritten(args[i], r)
                    } else {
                        arbitrary()
                    },
            ),
        },
        ExprView::Quantified { is_forall, vars, body } => ExprView::Quantified {
            is_forall,
            vars,
            body: Box::new(rewritten(*body, r)),
        },
        ExprView::Not(a) => ExprView::Not(Box::new(rewritten(*a, r))),
        ExprView::Binary(op, a, b) => binary_view(op, rewritten(*a, r), rewritten(*b, r)),
        _ => e,
    }
}

/// Whether all free variables of an expression may occur.
pub open spec fn all_allowed<R: VarImage>(e: ExprView, r: R) -> bool
    decreases e,
{
    match e {
        ExprView::Var { id, sort } => r.allows(id, sort),
        ExprView::App { func, args } => forall|i: int|
            0 <= i < args.len() ==> all_allowed(#[trigger] args[i], r),
        ExprView::Quantified { is_forall, vars, body } => all_allowed(*body, r),
        ExprView::Not(a) => all_allowed(*a, r),
        ExprView::Binary(op, a, b) => all_allowed(*a, r) && all_allowed(*b, r),
        _ => true,
    }
}

impl SymExpr {
    /// The operator and the operands, where there are two.
    pub(crate) fn operands(&self) -> (r: Option<(BinOp, &SymExpr, &SymExpr)>)
        ensures
            r is Some == self@ is Binary,
            r matches Some((op, a, b)) ==> self@ == binary_view(op, a@, b@) && decreases_to!(
                *self => *a) && decreases_to!(*self => *b),
    {
        match self {
            SymExpr::And(a, b) => Some((BinOp::And, a, b)),
            SymExpr::Or(a, b) => Some((BinOp::Or, a, b)),
            SymExpr::Implies(a, b) => Some((BinOp::Implies, a, b)),
            SymExpr::Eq(a, b) => Some((BinOp::Eq, a, b)),
            SymExpr::Gt(a, b) => Some((BinOp::Gt, a, b)),
            SymExpr::Ge(a, b) => Some((BinOp::Ge, a, b)),
            SymExpr::Lt(a, b) => Some((BinOp::Lt, a, b)),
            SymExpr::Le(a, b) => Some((BinOp::Le, a, b)),
            SymExpr::Add(a, b) => Some((BinOp::Add, a, b)),
            SymExpr::Sub(a, b) => Some((BinOp::Sub, a, b)),
            SymExpr::Mul(a, b) => Some((BinOp::Mul, a, b)),
            SymExpr::Div(a, b) => Some((BinOp::Div, a, b)),
            SymExpr::Rem(a, b) => Some((BinOp::Rem, a, b)),
            _ => None,
        }
    }

    /// An operator applied to two expressions.
    fn binary(op: BinOp, a: SymExpr, b: SymExpr) -> (r: SymExpr)
        ensures
            r@ == binary_view(op, a@, b@),
    {
        match op {
            BinOp::And => SymExpr::And(Box::new(a), Box::new(b)),
            BinOp::Or => SymExpr::Or(Box::new(a), Box::new(b)),
            BinOp::Implies => SymExpr::Implies(Box::new(a), Box::new(b)),
            BinOp::Eq => SymExpr::Eq(Box::new(a), Box::new(b)),
            BinOp::Gt => SymExpr::Gt(Box::new(a), Box::new(b)),
            BinOp::Ge => SymExpr::Ge(Box::new(a), Box::new(b)),
            BinOp::Lt => SymExpr::Lt(Box::new(a), Box::new(b)),
            BinOp::Le => SymExpr::Le(Box::new(a), Box::new(b)),
            BinOp::Add => SymExpr::Add(Box::new(a), Box::new(b)),
            BinOp::Sub => SymExpr::Sub(Box::new(a), Box::new(b)),
            BinOp::Mul => SymExpr::Mul(Box::new(a), Box::new(b)),
            BinOp::Div => SymExpr::Div(Box::new(a), Box::new(b)),
            BinOp::Rem => SymExpr::Rem(Box::new(a), Box::new(b)),
        }
    }

    /// The sort of the expression.
    pub fn sort(&self) -> (s: SymSort)
        ensures
            s@ == sort_of(self@),
    {
        match self {
            SymExpr::Var { sort, .. } => sort.clone(),
            SymExpr::BoundVar { sort, .. } => sort.clone(),
            SymExpr::Int(_) => SymSort::Int,
            SymExpr::Add(_, _) => SymSort::Int,
            SymExpr::Sub(_, _) => SymSort::Int,
            SymExpr::Mul(_, _) => SymSort::Int,
            SymExpr::Div(_, _) => SymSort::Int,
            SymExpr::Rem(_, _) => SymSort::Int,
            SymExpr::App { func, .. } => func.range().clone(),
            _ => SymSort::Bool,
        }
    }

    /// The expression with each free variable replaced; none where a variable may not
    /// occur.
    pub fn rewrite_vars<R: VarRewrite>(&self, rewrite: &R) -> (r: Option<SymExpr>)
        ensures
            r is Some == all_allowed(self@, rewrite.images()),
            r matches Some(e) ==> e@ == rewritten(self@, rewrite.images()),
        decreases *self,
    {
        match self {
            SymExpr::Var { id, sort } => rewrite.rewrite(*id, sort),
            SymExpr::BoundVar { id, name, sort } => Some(
                SymExpr::BoundVar { id: *id, name: name.clone(), sort: sort.clone() },
            ),
            SymExpr::Bool(b) => Some(SymExpr::Bool(*b)),
            SymExpr::Int(i) => Some(SymExpr::Int(*i)),
            SymExpr::App { func, args } => {
                let ghost view = self@->args;
                assert(view =~= exprs_view(args@));
                let mut new: Vec<SymExpr> = Vec::new();
                let mut k: usize = 0;
                while k < args.len()
                    invariant
                        k <= args.len(),
                        view == exprs_view(args@),
                        self@ == (ExprView::App { func: func@, args: view }),
                        decreases_to!(*self => args),
                        new@.len() == k,
                        forall|j: int| 0 <= j < k ==> all_allowed(#[trigger] view[j], rewrite.images()),
                        forall|j: int|
                            0 <= j < k ==> (#[trigger] new@[j])@ == rewritten(view[j], rewrite.images()),
                    decreases args.len() - k,
                {
                    assert(view[k as int] == args@[k as int]@);
                    assert(decreases_to!(args => args@[k as int]));
                    match args[k].rewrite_vars(rewrite) {
                        Some(e) => new.push(e),
                        None => {
                            assert(!all_allowed(view[k as int], rewrite.images()));
                            return None;
                        },
                    }
                    k += 1;
                }
                let e = SymExpr::App { func: func.clone(), args: new };
                proof {
                    assert(e@->args =~= rewritten(self@, rewrite.images())->args);
                }
                Some(e)
            },
            SymExpr::Forall { vars, body } => match body.rewrite_vars(rewrite) {
                Some(b) => Some(
                    SymExpr::Forall { vars: copy_bounds(vars), body: Box::new(b) },
                ),
                None => None,
            },
            SymExpr::Exists { vars, body } => match body.rewrite_vars(rewrite) {
                Some(b) => Some(
                    SymExpr::Exists { vars: copy_bounds(vars), body: Box::new(b) },
                ),
                None => None,
            },
            SymExpr::Not(a) => match a.rewrite_vars(rewrite) {
                Some(e) => Some(SymExpr::Not(Box::new(e))),
                None => None,
            },
            _ => match self.operands() {
                Some((op, a, b)) => match a.rewrite_vars(rewrite) {
                    Some(left) => match b.rewrite_vars(rewrite) {
                        Some(right) => Some(SymExpr::binary(op, left, right)),
                        None => None,
                    },
                    None => None,
                },
                None => None,
            },
        }
    }

    /// Whether two expressions are the same.
    pub fn same(&self, other: &SymExpr) -> (b: bool)
        ensures
            b == (self@ == other@),
        decreases *self,
    {
        match (self, other) {
            (SymExpr::Var { id, sort }, SymExpr::Var { id: id2, sort: sort2 }) => *id == *id2
                && sort.same(sort2),
            (
                SymExpr::BoundVar { id, name, sort },
                SymExpr::BoundVar { id: id2, name: name2, sort: sort2 },
            ) => *id == *id2 && *name == *name2 && sort.same(sort2),
            (SymExpr::Bool(a), SymExpr::Bool(b)) => *a == *b,
            (SymExpr::Int(a), SymExpr::Int(b)) => *a == *b,
            (SymExpr::App { func, args }, SymExpr::App { func: func2, args: args2 }) => {
                let ghost left = self@->args;
                let ghost right = other@->args;
                assert(left =~= exprs_view(args@));
                assert(right =~= exprs_view(args2@));
                if !func.same(func2) || args.len() != args2.len() {
                    assert(args.len() != args2.len() ==> left.len() != right.len());
                    return false;
                }
                let mut k: usize = 0;
                while k < args.len()
                    invariant
                        k <= args.len(),
                        args.len() == args2.len(),
                        left == exprs_view(args@),
                        right == exprs_view(args2@),
                        self@ == (ExprView::App { func: func@, args: left }),
                        other@ == (ExprView::App { func: func2@, args: right }),
                        decreases_to!(*self => args),
                        forall|j: int| 0 <= j < k ==> #[trigger] left[j] == right[j],
                    decreases args.len() - k,
                {
                    assert(left[k as int] == args@[k as int]@);
                    assert(right[k as int] == args2@[k as int]@);
                    assert(decreases_to!(args => args@[k as int]));
                    if !args[k].same(&args2[k]) {
                        return false;
                    }
                    k += 1;
                }
                assert(left =~= right);
                true
            },
            (
                SymExpr::Forall { vars, body },
                SymExpr::Forall { vars: vars2, body: body2 },
            ) => bounds_same(vars, vars2) && body.same(body2),
            (
                SymExpr::Exists { vars, body },
                SymExpr::Exists { vars: vars2, body: body2 },
            ) => bounds_same(vars, vars2) && body.same(body2),
            (SymExpr::Not(a), SymExpr::Not(b)) => a.same(b),
            _ => match (self.operands(), other.operands()) {
                (Some((op, a, b)), Some((op2, a2, b2))) => op == op2 && a.same(a2) && b.same(b2),
                _ => false,
            },
        }
    }

    pub fn summary_input(index: usize, sort: SymSort) -> (e: Self)
        ensures
            e@ == (ExprView::Var {
                id: SymVarId(SymVarKind::SummaryInput(index)),
                sort: sort@,
            }),
    {
        SymExpr::Var { id: SymVarId::summary_input(index), sort }
    }

    pub fn summary_local(index: usize, sort: SymSort) -> (e: Self)
        ensures
            e@ == (ExprView::Var {
                id: SymVarId(SymVarKind::SummaryLocal(index)),
                sort: sort@,
            }),
    {
        SymExpr::Var { id: SymVarId::summary_local(index), sort }
    }

    pub fn not(self) -> (e: Self)
        ensures
            e == SymExpr::Not(Box::new(self)),
    {
        SymExpr::Not(Box::new(self))
    }

    pub fn and(self, other: SymExpr) -> (e: Self)
        ensures
            e == SymExpr::And(Box::new(self), Box::new(other)),
    {
        SymExpr::And(Box::new(self), Box::new(other))
    }

    pub fn or(self, other: SymExpr) -> (e: Self)
        ensures
            e == SymExpr::Or(Box::new(self), Box::new(other)),
    {
        SymExpr::Or(Box::new(self), Box::new(other))
    }

    pub fn implies(self, other: SymExpr) -> (e: Self)
        ensures
            e == SymExpr::Implies(Box::new(self), Box::new(other)),
    {
        SymExpr::Implies(Box::new(self), Box::new(other))
    }

    pub fn equals(self, other: SymExpr) -> (e: Self)
        ensures
            e == SymExpr::Eq(Box::new(self), Box::new(other)),
    {
        SymExpr::Eq(Box::new(self), Box::new(other))
    }

    pub fn gt(self, other: SymExpr) -> (e: Self)
        ensures
            e == SymExpr::Gt(Box::new(self), Box::new(other)),
    {
        SymExpr::Gt(Box::new(self), Box::new(other))
    }

    pub fn ge(self, other: SymExpr) -> (e: Self)
        ensures
            e == SymExpr::Ge(Box::new(self), Box::new(other)),
    {
        SymExpr::Ge(Box::new(self), Box::new(other))
    }

    pub fn lt(self, other: SymExpr) -> (e: Self)
        ensures
            e == SymExpr::Lt(Box::new(self), Box::new(other)),
    {
        SymExpr::Lt(Box::new(self), Box::new(other))
    }

    pub fn le(self, other: SymExpr) -> (e: Self)
        ensures
            e == SymExpr::Le(Box::new(self), Box::new(other)),
    {
        SymExpr::Le(Box::new(self), Box::new(other))
    }

    pub fn sub(self, other: SymExpr) -> (e: Self)
        ensures
            e == SymExpr::Sub(Box::new(self), Box::new(other)),
    {
        SymExpr::Sub(Box::new(self), Box::new(other))
    }

    pub fn mul(self, other: SymExpr) -> (e: Self)
        ensures
            e == SymExpr::Mul(Box::new(self), Box::new(other)),
    {
        SymExpr::Mul(Box::new(self), Box::new(other))
    }

    pub fn div(self, other: SymExpr) -> (e: Self)
        ensures
            e == SymExpr::Div(Box::new(self), Box::new(other)),
    {
        SymExpr::Div(Box::new(self), Box::new(other))
    }

    pub fn rem(self, other: SymExpr) -> (e: Self)
        ensures
            e == SymExpr::Rem(Box::new(self), Box::new(other)),
    {
        SymExpr::Rem(Box::new(self), Box::new(other))
    }
}

/// Leaves every variable as it is.
pub struct KeepVars {}

impl VarImage for KeepVars {
    open spec fn image(&self, id: SymVarId, sort: SortView) -> ExprView {
        ExprView::Var { id, sort }
    }

    open spec fn allows(&self, id: SymVarId, sort: SortView) -> bool {
        true
    }
}

impl VarRewrite for KeepVars {
    type Image = KeepVars;

    open spec fn images(&self) -> KeepVars {
        *self
    }

    fn rewrite(&self, id: SymVarId, sort: &SymSort) -> (r: Option<SymExpr>) {
        Some(SymExpr::Var { id, sort: sort.clone() })
    }
}

/// Rewriting changes nothing where every variable stands for itself.
pub proof fn law_keeping_vars_keeps_the_expression(e: ExprView)
    ensures
        rewritten(e, KeepVars {  }) == e,
        all_allowed(e, KeepVars {  }),
    decreases e,
{
    let keep = KeepVars {  };
    match e {
        ExprView::App { func, args } => {
            assert forall|i: int| 0 <= i < args.len() implies all_allowed(
                #[trigger] args[i],
                keep,
            ) by {
                law_keeping_vars_keeps_the_expression(args[i]);
            }
            let new = rewritten(e, keep)->args;
            assert forall|i: int| 0 <= i < args.len() implies #[trigger] new[i] == args[i] by {
                law_keeping_vars_keeps_the_expression(args[i]);
            }
            assert(new =~= args);
        },
        ExprView::Quantified { is_forall, vars, body } => {
            law_keeping_vars_keeps_the_expression(*body);
        },
        ExprView::Not(a) => {
            law_keeping_vars_keeps_the_expression(*a);
        },
        ExprView::Binary(op, a, b) => {
            law_keeping_vars_keeps_the_expression(*a);
            law_keeping_vars_keeps_the_expression(*b);
        },
        _ => {},
    }
}

impl Clone for SymExpr {
    fn clone(&self) -> (r: Self)
        ensures
            r@ == self@,
    {
        proof {
            law_keeping_vars_keeps_the_expression(self@);
        }
        match self.rewrite_vars(&KeepVars {  }) {
            Some(e) => e,
            None => SymExpr::Bool(false),
        }
    }
}

pub fn int_val(v: i64) -> (e: SymExpr)
    ensures
        e == SymExpr::Int(v),
{
    SymExpr::Int(v)
}

pub fn bool_val(v: bool) -> (e: SymExpr)
    ensures
        e == SymExpr::Bool(v),
{
    SymExpr::Bool(v)
}

pub fn uninterpreted_sort(name: &str) -> (s: SymSort)
    ensures
        s@ == SortView::Uninterpreted(name@),
{
    SymSort::Uninterpreted(String::from_str(name))
}

/// An uninterpreted function.
pub fn uf(name: &str, domain: &Vec<SymSort>, range: SymSort) -> (f: SymFunc)
    ensures
        f@ == (FuncView { name: name@, domain: sorts_view(domain@), range: range@ }),
{
    SymFunc::new(name, copy_sorts(domain), range)
}

/// An uninterpreted predicate.
pub fn predicate(name: &str, domain: &Vec<SymSort>) -> (f: SymFunc)
    ensures
        f@ == (FuncView { name: name@, domain: sorts_view(domain@), range: SortView::Bool }),
{
    uf(name, domain, SymSort::Bool)
}

/// An uninterpreted constant.
pub fn constant(name: &str, sort: SymSort) -> (e: SymExpr)
    ensures
        e@ == (ExprView::App {
            func: FuncView { name: name@, domain: Seq::empty(), range: sort@ },
            args: Seq::empty(),
        }),
{
    let domain: Vec<SymSort> = Vec::new();
    assert(sorts_view(domain@) =~= Seq::<SortView>::empty());
    let args: Vec<SymExpr> = Vec::new();
    assert(exprs_view(args@) =~= Seq::<ExprView>::empty());
    SymFunc::new(name, domain, sort).apply(args)
}

/// The views of lists of bound variables.
pub open spec fn scopes_view(scopes: Seq<Vec<BoundVar>>) -> Seq<Seq<BoundView>> {
    Seq::new(scopes.len(), |i: int| bounds_view(scopes[i]@))
}

/// The variables that are bound where a quantifier's body stands: those of the
/// innermost quantifier first.
pub struct BoundVars {
    scopes: Vec<Vec<BoundVar>>,
    next_scope: usize,
}

/// Bound variables as the contracts see them.
pub struct ScopesView {
    pub scopes: Seq<Seq<BoundView>>,
    /// The number that the next quantifier gets.
    pub next_scope: usize,
}

impl View for BoundVars {
    type V = ScopesView;

    closed spec fn view(&self) -> ScopesView {
        ScopesView { scopes: scopes_view(self.scopes@), next_scope: self.next_scope }
    }
}

/// The first of `vars[..n]` that is called `name`.
pub open spec fn named_in(vars: Seq<BoundView>, name: Seq<char>, n: nat) -> Option<BoundView>
    decreases n,
{
    if n == 0 {
        None
    } else {
        match named_in(vars, name, (n - 1) as nat) {
            Some(v) => Some(v),
            None => if vars[n - 1].name == name {
                Some(vars[n - 1])
            } else {
                None
            },
        }
    }
}

/// The variable that `name` stands for in the first `n` scopes: that of the innermost
/// quantifier.
pub open spec fn bound_by(scopes: Seq<Seq<BoundView>>, name: Seq<char>, n: nat) -> Option<
    BoundView,
>
    decreases n,
{
    if n == 0 {
        None
    } else {
        match bound_by(scopes, name, (n - 1) as nat) {
            Some(v) => Some(v),
            None => named_in(scopes[n - 1], name, scopes[n - 1].len()),
        }
    }
}

/// No quantifier around.
pub open spec fn no_scopes() -> ScopesView {
    ScopesView { scopes: Seq::empty(), next_scope: 0 }
}

/// The variables that a quantifier with number `scope` binds.
pub open spec fn declared(scope: usize, vars: Seq<(String, SymSort)>) -> Seq<BoundView> {
    Seq::new(
        vars.len(),
        |i: int|
            BoundView {
                id: BoundVarId { scope, index: i as usize },
                name: vars[i].0@,
                sort: vars[i].1@,
            },
    )
}

/// The variables that are bound in the body of a quantifier that stands within `outer`.
pub open spec fn within(outer: ScopesView, vars: Seq<(String, SymSort)>) -> ScopesView {
    ScopesView {
        scopes: seq![declared(outer.next_scope, vars)] + outer.scopes,
        next_scope: crate::layout::bumped(outer.next_scope),
    }
}

fn declare(scope: usize, vars: &Vec<(String, SymSort)>) -> (r: Vec<BoundVar>)
    ensures
        bounds_view(r@) == declared(scope, vars@),
{
    let mut r: Vec<BoundVar> = Vec::new();
    let mut i: usize = 0;
    while i < vars.len()
        invariant
            i <= vars.len(),
            r@.len() == i,
            forall|k: int| 0 <= k < i ==> (#[trigger] r@[k])@ == declared(scope, vars@)[k],
        decreases vars.len() - i,
    {
        r.push(
            BoundVar::new(
                BoundVarId { scope, index: i },
                vars[i].0.as_str(),
                vars[i].1.clone(),
            ),
        );
        i += 1;
    }
    assert(bounds_view(r@) =~= declared(scope, vars@));
    r
}

impl BoundVars {
    /// No bound variables.
    pub fn new() -> (b: Self)
        ensures
            b@ == no_scopes(),
    {
        let b = BoundVars { scopes: Vec::new(), next_scope: 0 };
        assert(b@.scopes =~= Seq::<Seq<BoundView>>::empty());
        b
    }

    /// The variable that is called `name`, if there is one.
    pub fn find(&self, name: &str) -> (r: Option<SymExpr>)
        ensures
            r is Some == bound_by(self@.scopes, name@, self@.scopes.len()) is Some,
            r matches Some(e) ==> e@ == ({
                let v = bound_by(self@.scopes, name@, self@.scopes.len())->0;
                ExprView::BoundVar { id: v.id, name: v.name, sort: v.sort }
            }),
    {
        let wanted = String::from_str(name);
        let mut found: Option<SymExpr> = None;
        let ghost scopes = self@.scopes;
        let mut i: usize = 0;
        while i < self.scopes.len()
            invariant
                scopes == scopes_view(self.scopes@),
                wanted@ == name@,
                i <= self.scopes.len(),
                found is Some == bound_by(scopes, name@, i as nat) is Some,
                found matches Some(e) ==> e@ == ({
                    let v = bound_by(scopes, name@, i as nat)->0;
                    ExprView::BoundVar { id: v.id, name: v.name, sort: v.sort }
                }),
            decreases self.scopes.len() - i,
        {
            let vars = &self.scopes[i];
            let ghost views = bounds_view(vars@);
            assert(scopes[i as int] == views);
            let mut inner: Option<SymExpr> = None;
            let mut k: usize = 0;
            while k < vars.len()
                invariant
                    wanted@ == name@,
                    views == bounds_view(vars@),
                    k <= vars.len(),
                    inner is Some == named_in(views, name@, k as nat) is Some,
                    inner matches Some(e) ==> e@ == ({
                        let v = named_in(views, name@, k as nat)->0;
                        ExprView::BoundVar { id: v.id, name: v.name, sort: v.sort }
                    }),
                decreases vars.len() - k,
            {
                assert(views[k as int] == vars@[k as int]@);
                if inner.is_none() && vars[k].name == wanted {
                    inner = Some(vars[k].expr());
                }
                k += 1;
            }
            if found.is_none() {
                found = inner;
            }
            i += 1;
        }
        found
    }

    /// The variable that is called `name`.
    pub fn get(&self, name: &str) -> (e: SymExpr)
        requires
            bound_by(self@.scopes, name@, self@.scopes.len()) is Some,
        ensures
            e@ == ({
                let v = bound_by(self@.scopes, name@, self@.scopes.len())->0;
                ExprView::BoundVar { id: v.id, name: v.name, sort: v.sort }
            }),
    {
        match self.find(name) {
            Some(e) => e,
            None => SymExpr::Bool(false),
        }
    }

    fn quantified<F: FnOnce(&mut BoundVars) -> SymExpr>(
        &mut self,
        is_forall: bool,
        vars: Vec<(String, SymSort)>,
        body: F,
    ) -> (r: SymExpr)
        requires
            forall|x: &mut BoundVars|
                x@ == within(old(self)@, vars@) ==> #[trigger] body.requires((x,)),
        ensures
            final(self)@.scopes == old(self)@.scopes,
            exists|x: &mut BoundVars, b: SymExpr|
                {
                    &&& #[trigger] body.ensures((x,), b)
                    &&& x@ == within(old(self)@, vars@)
                    &&& final(x)@.next_scope == final(self)@.next_scope
                    &&& r@ == (ExprView::Quantified {
                        is_forall: is_forall,
                        vars: declared(old(self)@.next_scope, vars@),
                        body: Box::new(b@),
                    })
                },
            old(self)@.next_scope < usize::MAX && (forall|x: &mut BoundVars, b: SymExpr|
                #[trigger] body.ensures((x,), b) && x@ == within(old(self)@, vars@) ==> numbered(
                    b@,
                    x@.next_scope,
                    final(x)@.next_scope,
                )) ==> numbered(r@, old(self)@.next_scope, final(self)@.next_scope),
    {
        let ghost outer = self@;
        let scope = self.next_scope;
        let bound = declare(scope, &vars);
        let mut scopes: Vec<Vec<BoundVar>> = Vec::new();
        scopes.push(copy_bounds(&bound));
        let mut i: usize = 0;
        while i < self.scopes.len()
            invariant
                self@ == outer,
                i <= self.scopes.len(),
                scopes@.len() == i + 1,
                bounds_view(scopes@[0]@) == declared(scope, vars@),
                forall|k: int|
                    0 <= k < i ==> bounds_view((#[trigger] scopes@[k + 1])@) == bounds_view(
                        self.scopes@[k]@,
                    ),
            decreases self.scopes.len() - i,
        {
            scopes.push(copy_bounds(&self.scopes[i]));
            i += 1;
        }
        let mut inner = BoundVars { scopes, next_scope: crate::layout::bump(scope) };
        proof {
            let all = within(outer, vars@).scopes;
            assert(inner@.scopes.len() == all.len());
            assert forall|k: int| 0 <= k < all.len() implies #[trigger] inner@.scopes[k] == all[k] by {
                if k > 0 {
                    assert(bounds_view(scopes@[(k - 1) + 1]@) == bounds_view(self.scopes@[k - 1]@));
                }
            }
            assert(inner@.scopes =~= all);
        }
        let ghost before = inner@;
        let b = body(&mut inner);
        self.next_scope = inner.next_scope;
        proof {
            assert(vars@.len() == vars.len());
            if numbered(b@, before.next_scope, inner@.next_scope) && scope < usize::MAX {
                law_quantifiers_bind_variables_of_their_own(
                    is_forall,
                    vars@,
                    b@,
                    scope,
                    inner@.next_scope,
                );
            }
        }
        if is_forall {
            SymExpr::Forall { vars: bound, body: Box::new(b) }
        } else {
            SymExpr::Exists { vars: bound, body: Box::new(b) }
        }
    }

    /// A universal quantifier within the quantifiers around it.
    pub fn for_all<F: FnOnce(&mut BoundVars) -> SymExpr>(
        &mut self,
        vars: Vec<(String, SymSort)>,
        body: F,
    ) -> (r: SymExpr)
        requires
            forall|x: &mut BoundVars|
                x@ == within(old(self)@, vars@) ==> #[trigger] body.requires((x,)),
        ensures
            final(self)@.scopes == old(self)@.scopes,
            exists|x: &mut BoundVars, b: SymExpr|
                {
                    &&& #[trigger] body.ensures((x,), b)
                    &&& x@ == within(old(self)@, vars@)
                    &&& final(x)@.next_scope == final(self)@.next_scope
                    &&& r@ == (ExprView::Quantified {
                        is_forall: true,
                        vars: declared(old(self)@.next_scope, vars@),
                        body: Box::new(b@),
                    })
                },
            old(self)@.next_scope < usize::MAX && (forall|x: &mut BoundVars, b: SymExpr|
                #[trigger] body.ensures((x,), b) && x@ == within(old(self)@, vars@) ==> numbered(
                    b@,
                    x@.next_scope,
                    final(x)@.next_scope,
                )) ==> numbered(r@, old(self)@.next_scope, final(self)@.next_scope),
    {
        self.quantified(true, vars, body)
    }

    /// An existential quantifier within the quantifiers around it.
    pub fn there_exists<F: FnOnce(&mut BoundVars) -> SymExpr>(
        &mut self,
        vars: Vec<(String, SymSort)>,
        body: F,
    ) -> (r: SymExpr)
        requires
            forall|x: &mut BoundVars|
                x@ == within(old(self)@, vars@) ==> #[trigger] body.requires((x,)),
        ensures
            final(self)@.scopes == old(self)@.scopes,
            exists|x: &mut BoundVars, b: SymExpr|
                {
                    &&& #[trigger] body.ensures((x,), b)
                    &&& x@ == within(old(self)@, vars@)
                    &&& final(x)@.next_scope == final(self)@.next_scope
                    &&& r@ == (ExprView::Quantified {
                        is_forall: false,
                        vars: declared(old(self)@.next_scope, vars@),
                        body: Box::new(b@),
                    })
                },
            old(self)@.next_scope < usize::MAX && (forall|x: &mut BoundVars, b: SymExpr|
                #[trigger] body.ensures((x,), b) && x@ == within(old(self)@, vars@) ==> numbered(
                    b@,
                    x@.next_scope,
                    final(x)@.next_scope,
                )) ==> numbered(r@, old(self)@.next_scope, final(self)@.next_scope),
    {
        self.quantified(false, vars, body)
    }
}

/// A universal quantifier.
pub fn for_all<F: FnOnce(&mut BoundVars) -> SymExpr>(
    vars: Vec<(String, SymSort)>,
    body: F,
) -> (r: SymExpr)
    requires
        forall|x: &mut BoundVars|
            x@ == within(no_scopes(), vars@) ==> #[trigger] body.requires((x,)),
    ensures
        exists|x: &mut BoundVars, b: SymExpr|
                {
                    &&& #[trigger] body.ensures((x,), b)
                    &&& x@ == within(no_scopes(), vars@)
                    &&& r@ == (ExprView::Quantified {
                        is_forall: true,
                        vars: declared(0, vars@),
                        body: Box::new(b@),
                    })
                },
        (forall|x: &mut BoundVars, b: SymExpr| #[trigger]
            body.ensures((x,), b) && x@ == within(no_scopes(), vars@) ==> numbered(
                b@,
                x@.next_scope,
                final(x)@.next_scope,
            )) ==> bound_ids(r@).no_duplicates(),
{
    let mut none = BoundVars::new();
    none.for_all(vars, body)
}

/// An existential quantifier.
pub fn there_exists<F: FnOnce(&mut BoundVars) -> SymExpr>(
    vars: Vec<(String, SymSort)>,
    body: F,
) -> (r: SymExpr)
    requires
        forall|x: &mut BoundVars|
            x@ == within(no_scopes(), vars@) ==> #[trigger] body.requires((x,)),
    ensures
        exists|x: &mut BoundVars, b: SymExpr|
                {
                    &&& #[trigger] body.ensures((x,), b)
                    &&& x@ == within(no_scopes(), vars@)
                    &&& r@ == (ExprView::Quantified {
                        is_forall: false,
                        vars: declared(0, vars@),
                        body: Box::new(b@),
                    })
                },
        (forall|x: &mut BoundVars, b: SymExpr| #[trigger]
            body.ensures((x,), b) && x@ == within(no_scopes(), vars@) ==> numbered(
                b@,
                x@.next_scope,
                final(x)@.next_scope,
            )) ==> bound_ids(r@).no_duplicates(),
{
    let mut none = BoundVars::new();
    none.there_exists(vars, body)
}

impl From<i64> for SymExpr {
    fn from(value: i64) -> (e: Self) {
        int_val(value)
    }
}

impl FromSpecImpl<i64> for SymExpr {
    open spec fn obeys_from_spec() -> bool {
        true
    }

    open spec fn from_spec(value: i64) -> Self {
        SymExpr::Int(value)
    }
}

impl From<bool> for SymExpr {
    fn from(value: bool) -> (e: Self) {
        bool_val(value)
    }
}

impl FromSpecImpl<bool> for SymExpr {
    open spec fn obeys_from_spec() -> bool {
        true
    }

    open spec fn from_spec(value: bool) -> Self {
        SymExpr::Bool(value)
    }
}

impl Add<SymExpr> for SymExpr {
    type Output = SymExpr;

    fn add(self, rhs: SymExpr) -> (e: SymExpr) {
        SymExpr::Add(Box::new(self), Box::new(rhs))
    }
}

impl AddSpecImpl<SymExpr> for SymExpr {
    open spec fn obeys_add_spec() -> bool {
        true
    }

    open spec fn add_req(self, rhs: SymExpr) -> bool {
        true
    }

    open spec fn add_spec(self, rhs: SymExpr) -> SymExpr {
        SymExpr::Add(Box::new(self), Box::new(rhs))
    }
}

impl Add<i64> for SymExpr {
    type Output = SymExpr;

    fn add(self, rhs: i64) -> (e: SymExpr) {
        SymExpr::Add(Box::new(self), Box::new(SymExpr::Int(rhs)))
    }
}

impl AddSpecImpl<i64> for SymExpr {
    open spec fn obeys_add_spec() -> bool {
        true
    }

    open spec fn add_req(self, rhs: i64) -> bool {
        true
    }

    open spec fn add_spec(self, rhs: i64) -> SymExpr {
        SymExpr::Add(Box::new(self), Box::new(SymExpr::Int(rhs)))
    }
}

impl Add<SymExpr> for i64 {
    type Output = SymExpr;

    fn add(self, rhs: SymExpr) -> (e: SymExpr) {
        SymExpr::Add(Box::new(SymExpr::Int(self)), Box::new(rhs))
    }
}

impl AddSpecImpl<SymExpr> for i64 {
    open spec fn obeys_add_spec() -> bool {
        true
    }

    open spec fn add_req(self, rhs: SymExpr) -> bool {
        true
    }

    open spec fn add_spec(self, rhs: SymExpr) -> SymExpr {
        SymExpr::Add(Box::new(SymExpr::Int(self)), Box::new(rhs))
    }
}

impl Sub<SymExpr> for SymExpr {
    type Output = SymExpr;

    fn sub(self, rhs: SymExpr) -> (e: SymExpr) {
        SymExpr::Sub(Box::new(self), Box::new(rhs))
    }
}

impl SubSpecImpl<SymExpr> for SymExpr {
    open spec fn obeys_sub_spec() -> bool {
        true
    }

    open spec fn sub_req(self, rhs: SymExpr) -> bool {
        true
    }

    open spec fn sub_spec(self, rhs: SymExpr) -> SymExpr {
        SymExpr::Sub(Box::new(self), Box::new(rhs))
    }
}

impl Sub<i64> for SymExpr {
    type Output = SymExpr;

    fn sub(self, rhs: i64) -> (e: SymExpr) {
        SymExpr::Sub(Box::new(self), Box::new(SymExpr::Int(rhs)))
    }
}

impl SubSpecImpl<i64> for SymExpr {
    open spec fn obeys_sub_spec() -> bool {
        true
    }

    open spec fn sub_req(self, rhs: i64) -> bool {
        true
    }

    open spec fn sub_spec(self, rhs: i64) -> SymExpr {
        SymExpr::Sub(Box::new(self), Box::new(SymExpr::Int(rhs)))
    }
}

impl Sub<SymExpr> for i64 {
    type Output = SymExpr;

    fn sub(self, rhs: SymExpr) -> (e: SymExpr) {
        SymExpr::Sub(Box::new(SymExpr::Int(self)), Box::new(rhs))
    }
}

impl SubSpecImpl<SymExpr> for i64 {
    open spec fn obeys_sub_spec() -> bool {
        true
    }

    open spec fn sub_req(self, rhs: SymExpr) -> bool {
        true
    }

    open spec fn sub_spec(self, rhs: SymExpr) -> SymExpr {
        SymExpr::Sub(Box::new(SymExpr::Int(self)), Box::new(rhs))
    }
}

impl Mul<SymExpr> for SymExpr {
    type Output = SymExpr;

    fn mul(self, rhs: SymExpr) -> (e: SymExpr) {
        SymExpr::Mul(Box::new(self), Box::new(rhs))
    }
}

impl MulSpecImpl<SymExpr> for SymExpr {
    open spec fn obeys_mul_spec() -> bool {
        true
    }

    open spec fn mul_req(self, rhs: SymExpr) -> bool {
        true
    }

    open spec fn mul_spec(self, rhs: SymExpr) -> SymExpr {
        SymExpr::Mul(Box::new(self), Box::new(rhs))
    }
}

impl Mul<i64> for SymExpr {
    type Output = SymExpr;

    fn mul(self, rhs: i64) -> (e: SymExpr) {
        SymExpr::Mul(Box::new(self), Box::new(SymExpr::Int(rhs)))
    }
}

impl MulSpecImpl<i64> for SymExpr {
    open spec fn obeys_mul_spec() -> bool {
        true
    }

    open spec fn mul_req(self, rhs: i64) -> bool {
        true
    }

    open spec fn mul_spec(self, rhs: i64) -> SymExpr {
        SymExpr::Mul(Box::new(self), Box::new(SymExpr::Int(rhs)))
    }
}

impl Mul<SymExpr> for i64 {
    type Output = SymExpr;

    fn mul(self, rhs: SymExpr) -> (e: SymExpr) {
        SymExpr::Mul(Box::new(SymExpr::Int(self)), Box::new(rhs))
    }
}

impl MulSpecImpl<SymExpr> for i64 {
    open spec fn obeys_mul_spec() -> bool {
        true
    }

    open spec fn mul_req(self, rhs: SymExpr) -> bool {
        true
    }

    open spec fn mul_spec(self, rhs: SymExpr) -> SymExpr {
        SymExpr::Mul(Box::new(SymExpr::Int(self)), Box::new(rhs))
    }
}

impl Div<SymExpr> for SymExpr {
    type Output = SymExpr;

    fn div(self, rhs: SymExpr) -> (e: SymExpr) {
        SymExpr::Div(Box::new(self), Box::new(rhs))
    }
}

impl DivSpecImpl<SymExpr> for SymExpr {
    open spec fn obeys_div_spec() -> bool {
        true
    }

    open spec fn div_req(self, rhs: SymExpr) -> bool {
        true
    }

    open spec fn div_spec(self, rhs: SymExpr) -> SymExpr {
        SymExpr::Div(Box::new(self), Box::new(rhs))
    }
}

impl Div<i64> for SymExpr {
    type Output = SymExpr;

    fn div(self, rhs: i64) -> (e: SymExpr) {
        SymExpr::Div(Box::new(self), Box::new(SymExpr::Int(rhs)))
    }
}

impl DivSpecImpl<i64> for SymExpr {
    open spec fn obeys_div_spec() -> bool {
        true
    }

    open spec fn div_req(self, rhs: i64) -> bool {
        true
    }

    open spec fn div_spec(self, rhs: i64) -> SymExpr {
        SymExpr::Div(Box::new(self), Box::new(SymExpr::Int(rhs)))
    }
}

impl Div<SymExpr> for i64 {
    type Output = SymExpr;

    fn div(self, rhs: SymExpr) -> (e: SymExpr) {
        SymExpr::Div(Box::new(SymExpr::Int(self)), Box::new(rhs))
    }
}

impl DivSpecImpl<SymExpr> for i64 {
    open spec fn obeys_div_spec() -> bool {
        true
    }

    open spec fn div_req(self, rhs: SymExpr) -> bool {
        true
    }

    open spec fn div_spec(self, rhs: SymExpr) -> SymExpr {
        SymExpr::Div(Box::new(SymExpr::Int(self)), Box::new(rhs))
    }
}

impl Rem<SymExpr> for SymExpr {
    type Output = SymExpr;

    fn rem(self, rhs: SymExpr) -> (e: SymExpr) {
        SymExpr::Rem(Box::new(self), Box::new(rhs))
    }
}

impl RemSpecImpl<SymExpr> for SymExpr {
    open spec fn obeys_rem_spec() -> bool {
        true
    }

    open spec fn rem_req(self, rhs: SymExpr) -> bool {
        true
    }

    open spec fn rem_spec(self, rhs: SymExpr) -> SymExpr {
        SymExpr::Rem(Box::new(self), Box::new(rhs))
    }
}

impl Rem<i64> for SymExpr {
    type Output = SymExpr;

    fn rem(self, rhs: i64) -> (e: SymExpr) {
        SymExpr::Rem(Box::new(self), Box::new(SymExpr::Int(rhs)))
    }
}

impl RemSpecImpl<i64> for SymExpr {
    open spec fn obeys_rem_spec() -> bool {
        true
    }

    open spec fn rem_req(self, rhs: i64) -> bool {
        true
    }

    open spec fn rem_spec(self, rhs: i64) -> SymExpr {
        SymExpr::Rem(Box::new(self), Box::new(SymExpr::Int(rhs)))
    }
}

impl Rem<SymExpr> for i64 {
    type Output = SymExpr;

    fn rem(self, rhs: SymExpr) -> (e: SymExpr) {
        SymExpr::Rem(Box::new(SymExpr::Int(self)), Box::new(rhs))
    }
}

impl RemSpecImpl<SymExpr> for i64 {
    open spec fn obeys_rem_spec() -> bool {
        true
    }

    open spec fn rem_req(self, rhs: SymExpr) -> bool {
        true
    }

    open spec fn rem_spec(self, rhs: SymExpr) -> SymExpr {
        SymExpr::Rem(Box::new(SymExpr::Int(self)), Box::new(rhs))
    }
}

} // verus!
