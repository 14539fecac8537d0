//! Constraints on symbolic expressions.

use super::expr::{
    bounds_view, exprs_view, solver_text, sort_of, sorts_view, BinOp, BoundVar, BoundVarId,
    BoundView, ExprView, FuncView, SortView, SymExpr, SymFunc, SymSort,
};
use super::terms::{
    add_assertion, add_term, and_term, apply_function, bool_sort, bool_term, check_assertions,
    consistent, constant_term, copy_term, decl_content, declare_function, div_term, eq_term,
    exists_term, forall_term, forget_assertions, ge_term, gt_term, has_nul, implies_term, int_sort,
    int_term, is_constant, le_term, lt_term, mul_term, named_sort, new_constant, new_solver,
    not_term, or_term, pop_point, push_point, rem_term, solver_content, sort_content,
    sub_term, term_content, term_sort, TermView, Verdict,
};
use crate::text::{decimal, decimal_of};
use vstd::prelude::*;
use vstd::string::*;

verus! {

/// Why an expression is no term of the solver.
#[derive(Clone, Copy, Debug, PartialEq, Eq, Structural)]
pub enum CompileError {
    /// A truth value was expected.
    ExpectedBool,
    /// An integer was expected.
    ExpectedInt,
    /// The two sides of an equation are of different sorts.
    SortsDiffer,
    /// An arithmetic operator has an operand that is no integer.
    IntOperands,
    /// The body of a quantifier is no truth value.
    BodyNotBool,
    /// A bound variable stands outside its quantifier.
    Unbound(BoundVarId),
    /// A function is applied to a wrong number of arguments.
    WrongArity(usize, usize),
    /// The argument at this index is of a wrong sort.
    WrongArgument(usize),
    /// A sort, a function or a constant has an empty name.
    EmptyName,
    /// A name holds a NUL character.
    NulInName,
    /// A function or a quantifier has more variables than the solver counts.
    TooMany,
}

/// Why a question to the solver was not answered.
#[derive(Clone, Copy, Debug, PartialEq, Eq, Structural)]
pub enum SolveError {
    /// The expression is no constraint.
    Compile(CompileError),
    /// The solver could not tell.
    Unknown,
}

/// The terms of the bound variables.
pub type EnvView = Map<BoundVarId, TermView>;

/// What the compilation of an expression gives: its term, and the bound variables that
/// stay known.
pub struct Compiled {
    pub term: TermView,
    pub env: EnvView,
}

/// The result of a compilation, where a term of a certain sort was wanted.
pub open spec fn narrowed(r: Result<Compiled, CompileError>, wanted: Option<SortView>) -> Result<
    Compiled,
    CompileError,
> {
    match (r, wanted) {
        (Ok(c), Some(s)) => if term_sort(c.term) == s {
            r
        } else if s == SortView::Bool {
            Err(CompileError::ExpectedBool)
        } else {
            Err(CompileError::ExpectedInt)
        },
        _ => r,
    }
}

/// The sort that the operands of an operator must have.
pub open spec fn operand_sort(op: BinOp) -> Option<SortView> {
    match op {
        BinOp::And | BinOp::Or | BinOp::Implies => Some(SortView::Bool),
        BinOp::Eq => None,
        _ => Some(SortView::Int),
    }
}

/// What is wrong with the sorts that the operands claim.
pub open spec fn operand_fault(op: BinOp, a: SortView, b: SortView) -> Option<CompileError> {
    match op {
        BinOp::Eq => if a != b {
            Some(CompileError::SortsDiffer)
        } else {
            None
        },
        BinOp::Add | BinOp::Sub | BinOp::Mul | BinOp::Div | BinOp::Rem => if a != SortView::Int
            || b != SortView::Int {
            Some(CompileError::IntOperands)
        } else {
            None
        },
        _ => None,
    }
}

/// The name of a variable's constant.
pub open spec fn var_text(id: super::expr::SymVarId, sort: SortView) -> Seq<char> {
    match sort {
        SortView::Bool => "sym_b_"@ + solver_text(id),
        SortView::Int => "sym_i_"@ + solver_text(id),
        SortView::Uninterpreted(_) => "sym_u_"@ + solver_text(id),
    }
}

/// The name of a bound variable's constant.
pub open spec fn bound_text(v: BoundView) -> Seq<char> {
    "q_"@ + v.name + "_"@ + decimal_of(v.id.scope as nat) + "_"@ + decimal_of(v.id.index as nat)
}

/// What is wrong with a name.
pub open spec fn name_fault(name: Seq<char>) -> Option<CompileError> {
    if name.len() == 0 {
        Some(CompileError::EmptyName)
    } else if has_nul(name) {
        Some(CompileError::NulInName)
    } else {
        None
    }
}

/// What is wrong with a sort.
pub open spec fn sort_fault(sort: SortView) -> Option<CompileError> {
    match sort {
        SortView::Uninterpreted(name) => name_fault(name),
        _ => None,
    }
}

/// What is wrong with a constant.
pub open spec fn constant_fault(name: Seq<char>, sort: SortView) -> Option<CompileError> {
    match sort_fault(sort) {
        Some(x) => Some(x),
        None => name_fault(name),
    }
}

/// The constant with a name of its own.
pub open spec fn named_constant(name: Seq<char>, sort: SortView) -> Result<
    TermView,
    CompileError,
> {
    match constant_fault(name, sort) {
        Some(x) => Err(x),
        None => Ok(constant_term(name, sort)),
    }
}

/// What is wrong with the first of `vars[..n]` that has a fault.
pub open spec fn bounds_fault(vars: Seq<BoundView>, n: nat) -> Option<CompileError>
    decreases n,
{
    if n == 0 {
        None
    } else {
        match bounds_fault(vars, (n - 1) as nat) {
            Some(x) => Some(x),
            None => constant_fault(bound_text(vars[n - 1]), vars[n - 1].sort),
        }
    }
}

/// What is wrong with the first of `sorts[..n]` that has a fault.
pub open spec fn sorts_fault(sorts: Seq<SortView>, n: nat) -> Option<CompileError>
    decreases n,
{
    if n == 0 {
        None
    } else {
        match sorts_fault(sorts, (n - 1) as nat) {
            Some(x) => Some(x),
            None => sort_fault(sorts[n - 1]),
        }
    }
}

/// The constants of bound variables.
pub open spec fn bound_terms(vars: Seq<BoundView>) -> Seq<TermView> {
    Seq::new(vars.len(), |i: int| constant_term(bound_text(vars[i]), vars[i].sort))
}

/// `env` with `vars[..n]` bound.
pub open spec fn bind(env: EnvView, vars: Seq<BoundView>, n: nat) -> EnvView
    decreases n,
{
    if n == 0 {
        env
    } else {
        bind(env, vars, (n - 1) as nat).insert(
            vars[n - 1].id,
            constant_term(bound_text(vars[n - 1]), vars[n - 1].sort),
        )
    }
}

/// `env` without `vars[..n]`.
pub open spec fn unbind(env: EnvView, vars: Seq<BoundView>, n: nat) -> EnvView
    decreases n,
{
    if n == 0 {
        env
    } else {
        unbind(env, vars, (n - 1) as nat).remove(vars[n - 1].id)
    }
}

/// The first of the first `n` indices at which the sorts differ.
pub open spec fn first_difference(a: Seq<SortView>, b: Seq<SortView>, n: nat) -> Option<usize>
    decreases n,
{
    if n == 0 {
        None
    } else {
        match first_difference(a, b, (n - 1) as nat) {
            Some(i) => Some(i),
            None => if a[n - 1] != b[n - 1] {
                Some((n - 1) as usize)
            } else {
                None
            },
        }
    }
}

/// What is wrong with the application of a function, as far as the claimed sorts of the
/// arguments tell.
pub open spec fn app_fault(func: FuncView, sorts: Seq<SortView>) -> Option<CompileError> {
    if func.domain.len() != sorts.len() {
        Some(CompileError::WrongArity(func.domain.len() as usize, sorts.len() as usize))
    } else {
        match first_difference(func.domain, sorts, sorts.len()) {
            Some(i) => Some(CompileError::WrongArgument(i)),
            None => decl_fault(func),
        }
    }
}

/// What keeps the solver from declaring a function.
pub open spec fn decl_fault(func: FuncView) -> Option<CompileError> {
    match sorts_fault(func.domain, func.domain.len()) {
        Some(x) => Some(x),
        None => match constant_fault(func.name, func.range) {
            Some(x) => Some(x),
            None => if func.domain.len() > u32::MAX {
                Some(CompileError::TooMany)
            } else {
                None
            },
        },
    }
}

/// The sorts that expressions claim.
pub open spec fn claimed_sorts(args: Seq<ExprView>) -> Seq<SortView> {
    Seq::new(args.len(), |i: int| sort_of(args[i]))
}

/// The sorts of terms.
pub open spec fn term_sorts(terms: Seq<TermView>) -> Seq<SortView> {
    Seq::new(terms.len(), |i: int| term_sort(terms[i]))
}

/// What the compilation of an argument list gives.
pub struct CompiledArgs {
    pub terms: Seq<TermView>,
    pub env: EnvView,
}

/// The term of an expression. A quantifier binds its variables in its body, and behind
/// it they are unknown.
pub open spec fn compiled(e: ExprView, env: EnvView) -> Result<Compiled, CompileError>
    decreases e, 0nat,
{
    match e {
        ExprView::Var { id, sort } => match named_constant(var_text(id, sort), sort) {
            Ok(term) => Ok(Compiled { term, env }),
            Err(x) => Err(x),
        },
        ExprView::BoundVar { id, .. } => if env.contains_key(id) {
            Ok(Compiled { term: env[id], env })
        } else {
            Err(CompileError::Unbound(id))
        },
        ExprView::Bool(b) => Ok(Compiled { term: TermView::Bool(b), env }),
        ExprView::Int(i) => Ok(Compiled { term: TermView::Int(i), env }),
        ExprView::App { func, args } => match app_fault(func, claimed_sorts(args)) {
            Some(x) => Err(x),
            None => match compiled_args(args, env, args.len()) {
                Err(x) => Err(x),
                Ok(c) => match first_difference(func.domain, term_sorts(c.terms), args.len()) {
                    Some(i) => Err(CompileError::WrongArgument(i)),
                    None => Ok(
                        Compiled { term: TermView::App { func, args: c.terms }, env: c.env },
                    ),
                },
            },
        },
        ExprView::Quantified { is_forall, vars, body } => if sort_of(*body) != SortView::Bool {
            Err(CompileError::BodyNotBool)
        } else {
            match bounds_fault(vars, vars.len()) {
                Some(x) => Err(x),
                None => match narrowed(
                    compiled(*body, bind(env, vars, vars.len())),
                    Some(SortView::Bool),
                ) {
                    Err(x) => Err(x),
                    Ok(c) => if vars.len() > u32::MAX {
                        Err(CompileError::TooMany)
                    } else {
                        Ok(
                            Compiled {
                                term: if vars.len() == 0 {
                                    c.term
                                } else {
                                    TermView::Quantified {
                                        is_forall,
                                        vars: bound_terms(vars),
                                        body: Box::new(c.term),
                                    }
                                },
                                env: unbind(c.env, vars, vars.len()),
                            },
                        )
                    },
                },
            }
        },
        ExprView::Not(inner) => match narrowed(compiled(*inner, env), Some(SortView::Bool)) {
            Err(x) => Err(x),
            Ok(c) => Ok(Compiled { term: TermView::Not(Box::new(c.term)), env: c.env }),
        },
        ExprView::Binary(op, a, b) => match operand_fault(op, sort_of(*a), sort_of(*b)) {
            Some(x) => Err(x),
            None => match narrowed(compiled(*a, env), operand_sort(op)) {
                Err(x) => Err(x),
                Ok(ca) => match narrowed(compiled(*b, ca.env), operand_sort(op)) {
                    Err(x) => Err(x),
                    Ok(cb) => if op == BinOp::Eq && term_sort(ca.term) != term_sort(cb.term) {
                        Err(CompileError::SortsDiffer)
                    } else {
                        Ok(
                            Compiled {
                                term: TermView::Binary(
                                    op,
                                    Box::new(ca.term),
                                    Box::new(cb.term),
                                ),
                                env: cb.env,
                            },
                        )
                    },
                },
            },
        },
    }
}

/// The terms of the first `n` arguments.
pub open spec fn compiled_args(args: Seq<ExprView>, env: EnvView, n: nat) -> Result<
    CompiledArgs,
    CompileError,
>
    decreases args, n,
{
    if n == 0 || n > args.len() {
        Ok(CompiledArgs { terms: Seq::empty(), env })
    } else {
        match compiled_args(args, env, (n - 1) as nat) {
            Err(x) => Err(x),
            Ok(before) => match compiled(args[n - 1], before.env) {
                Err(x) => Err(x),
                Ok(c) => Ok(CompiledArgs { terms: before.terms.push(c.term), env: c.env }),
            },
        }
    }
}

/// The constraint that an expression states.
pub open spec fn constraint(e: ExprView) -> Result<TermView, CompileError> {
    match narrowed(compiled(e, Map::empty()), Some(SortView::Bool)) {
        Ok(c) => Ok(c.term),
        Err(x) => Err(x),
    }
}

fn text_has_nul(text: &str) -> (b: bool)
    ensures
        b == has_nul(text@),
{
    let n = text.unicode_len();
    let mut i: usize = 0;
    while i < n
        invariant
            i <= n == text@.len(),
            forall|k: int| 0 <= k < i ==> text@[k] != '\0',
        decreases n - i,
    {
        if text.get_char(i) == '\0' {
            return true;
        }
        i += 1;
    }
    false
}

fn check_name(name: &str) -> (r: Option<CompileError>)
    ensures
        r == name_fault(name@),
{
    if name.unicode_len() == 0 {
        Some(CompileError::EmptyName)
    } else if text_has_nul(name) {
        Some(CompileError::NulInName)
    } else {
        None
    }
}

/// A term together with its sort.
struct Ast {
    node: z3::ast::Dynamic,
    sort: SymSort,
}

impl Ast {
    spec fn wf(&self) -> bool {
        self.sort@ == term_sort(term_content(self.node))
    }

    fn is(&self, sort: &SymSort) -> (b: bool)
        requires
            self.wf(),
        ensures
            b == (term_sort(term_content(self.node)) == sort@),
    {
        self.sort.same(sort)
    }
}

fn compile_sort(sort: &SymSort) -> (r: Result<z3::Sort, CompileError>)
    ensures
        match sort_fault(sort@) {
            Some(x) => r == Err::<z3::Sort, CompileError>(x),
            None => r matches Ok(s) && sort_content(s) == sort@,
        },
{
    match sort {
        SymSort::Bool => Ok(bool_sort()),
        SymSort::Int => Ok(int_sort()),
        SymSort::Uninterpreted(name) => match check_name(name.as_str()) {
            Some(x) => Err(x),
            None => Ok(named_sort(name.as_str())),
        },
    }
}

fn compile_constant(name: &str, sort: &SymSort) -> (r: Result<Ast, CompileError>)
    ensures
        match named_constant(name@, sort@) {
            Err(x) => r == Err::<Ast, CompileError>(x),
            Ok(t) => r matches Ok(a) && a.wf() && term_content(a.node) == t,
        },
{
    match compile_sort(sort) {
        Err(x) => Err(x),
        Ok(s) => match check_name(name) {
            Some(x) => Err(x),
            None => Ok(Ast { node: new_constant(name, &s), sort: sort.clone() }),
        },
    }
}

fn compile_var(id: super::expr::SymVarId, sort: &SymSort) -> (r: Result<Ast, CompileError>)
    ensures
        match named_constant(var_text(id, sort@), sort@) {
            Err(x) => r == Err::<Ast, CompileError>(x),
            Ok(t) => r matches Ok(a) && a.wf() && term_content(a.node) == t,
        },
{
    let mut name = match sort {
        SymSort::Bool => String::from_str("sym_b_"),
        SymSort::Int => String::from_str("sym_i_"),
        SymSort::Uninterpreted(_) => String::from_str("sym_u_"),
    };
    name.append(id.solver_name().as_str());
    compile_constant(name.as_str(), sort)
}

fn compile_bound(v: &BoundVar) -> (r: Result<Ast, CompileError>)
    ensures
        match named_constant(bound_text(v@), v@.sort) {
            Err(x) => r == Err::<Ast, CompileError>(x),
            Ok(t) => r matches Ok(a) && a.wf() && term_content(a.node) == t,
        },
{
    let mut name = String::from_str("q_");
    name.append(v.name());
    name.append("_");
    name.append(decimal(v.id().scope() as u128).as_str());
    name.append("_");
    name.append(decimal(v.id().index() as u128).as_str());
    compile_constant(name.as_str(), v.sort())
}

/// The variables that are bound where the compilation stands.
struct Env {
    entries: Vec<(BoundVarId, Ast)>,
}

/// The map that a list of entries stands for: the last entry for a variable counts.
spec fn entries_map(entries: Seq<(BoundVarId, Ast)>) -> EnvView
    decreases entries.len(),
{
    if entries.len() == 0 {
        Map::empty()
    } else {
        entries_map(entries.drop_last()).insert(entries.last().0, term_content(entries.last().1.node))
    }
}

impl Env {
    spec fn map(&self) -> EnvView {
        entries_map(self.entries@)
    }

    spec fn wf(&self) -> bool {
        forall|i: int| 0 <= i < self.entries@.len() ==> (#[trigger] self.entries@[i]).1.wf()
    }

    fn new() -> (e: Self)
        ensures
            e.wf(),
            e.map() == Map::<BoundVarId, TermView>::empty(),
    {
        Env { entries: Vec::new() }
    }

    fn insert(&mut self, id: BoundVarId, ast: Ast)
        requires
            old(self).wf(),
            ast.wf(),
        ensures
            final(self).wf(),
            final(self).map() == old(self).map().insert(id, term_content(ast.node)),
    {
        let ghost before = self.entries@;
        self.entries.push((id, ast));
        assert(self.entries@.drop_last() =~= before);
    }

    fn remove(&mut self, id: BoundVarId)
        requires
            old(self).wf(),
        ensures
            final(self).wf(),
            final(self).map() == old(self).map().remove(id),
    {
        let ghost all = self.entries@;
        let mut kept: Vec<(BoundVarId, Ast)> = Vec::new();
        let mut i: usize = 0;
        while i < self.entries.len()
            invariant
                i <= self.entries@.len(),
                self.entries@ == all,
                self.wf(),
                forall|k: int| 0 <= k < kept@.len() ==> (#[trigger] kept@[k]).1.wf(),
                entries_map(kept@) == entries_map(all.take(i as int)).remove(id),
            decreases self.entries.len() - i,
        {
            let ghost before = kept@;
            let e = &self.entries[i];
            assert(all.take(i + 1).drop_last() =~= all.take(i as int));
            if e.0 != id {
                kept.push((e.0, Ast { node: copy_term(&e.1.node), sort: e.1.sort.clone() }));
                assert(kept@.drop_last() =~= before);
            }
            i += 1;
            assert(entries_map(kept@) =~= entries_map(all.take(i as int)).remove(id));
        }
        assert(all.take(i as int) =~= all);
        self.entries = kept;
    }

    fn lookup(&self, id: BoundVarId) -> (r: Result<Ast, CompileError>)
        requires
            self.wf(),
        ensures
            self.map().contains_key(id) ==> (r matches Ok(a) && a.wf() && term_content(a.node)
                == self.map()[id]),
            !self.map().contains_key(id) ==> r == Err::<Ast, CompileError>(
                CompileError::Unbound(id),
            ),
    {
        let mut i: usize = self.entries.len();
        let ghost all = self.entries@;
        assert(all.take(i as int) =~= all);
        while i > 0
            invariant
                i <= self.entries@.len(),
                self.entries@ == all,
                self.wf(),
                entries_map(all).contains_key(id) == entries_map(
                    all.take(i as int),
                ).contains_key(id),
                entries_map(all)[id] == entries_map(all.take(i as int))[id],
            decreases i,
        {
            let e = &self.entries[i - 1];
            assert(all.take(i as int).drop_last() =~= all.take(i - 1));
            if e.0 == id {
                return Ok(Ast { node: copy_term(&e.1.node), sort: e.1.sort.clone() });
            }
            i -= 1;
        }
        Err(CompileError::Unbound(id))
    }
}

/// What `r` and the bound variables after it say of a compilation.
spec fn meets(c: Result<Compiled, CompileError>, r: Result<Ast, CompileError>, env: Env) -> bool {
    match c {
        Err(x) => r == Err::<Ast, CompileError>(x),
        Ok(c) => r matches Ok(a) && a.wf() && term_content(a.node) == c.term && env.wf()
            && env.map() == c.env,
    }
}

proof fn lemma_sort_fault_stays(sorts: Seq<SortView>, m: nat, n: nat)
    requires
        m <= n,
        sorts_fault(sorts, m) is Some,
    ensures
        sorts_fault(sorts, n) == sorts_fault(sorts, m),
    decreases n - m,
{
    if m < n {
        lemma_sort_fault_stays(sorts, m, (n - 1) as nat);
    }
}

fn compile_func(func: &SymFunc) -> (r: Result<z3::FuncDecl, CompileError>)
    ensures
        match decl_fault(func@) {
            Some(x) => r == Err::<z3::FuncDecl, CompileError>(x),
            None => r matches Ok(d) && decl_content(d) == func@,
        },
{
    let sorts = func.domain();
    let mut domain: Vec<z3::Sort> = Vec::new();
    let mut i: usize = 0;
    while i < sorts.len()
        invariant
            sorts_view(sorts@) == func@.domain,
            i <= sorts@.len(),
            domain@.len() == i,
            forall|k: int|
                0 <= k < i ==> sort_content(#[trigger] domain@[k]) == func@.domain[k],
            sorts_fault(func@.domain, i as nat) is None,
        decreases sorts.len() - i,
    {
        assert(func@.domain[i as int] == sorts@[i as int]@);
        match compile_sort(&sorts[i]) {
            Ok(s) => domain.push(s),
            Err(x) => {
                proof {
                    lemma_sort_fault_stays(func@.domain, (i + 1) as nat, func@.domain.len());
                }
                return Err(x);
            },
        }
        i += 1;
    }
    let range = match compile_sort(func.range()) {
        Ok(s) => s,
        Err(x) => return Err(x),
    };
    if let Some(x) = check_name(func.name()) {
        return Err(x);
    }
    if domain.len() > u32::MAX as usize {
        return Err(CompileError::TooMany);
    }
    let d = declare_function(func.name(), &domain, &range);
    assert(decl_content(d).domain =~= func@.domain);
    Ok(d)
}

fn validate_app(func: &SymFunc, args: &Vec<SymExpr>) -> (r: Option<CompileError>)
    ensures
        func@.domain.len() != args@.len() ==> r == Some(
            CompileError::WrongArity(func@.domain.len() as usize, args@.len() as usize),
        ),
        func@.domain.len() == args@.len() ==> r == (match first_difference(
            func@.domain,
            claimed_sorts(exprs_view(args@)),
            args@.len(),
        ) {
            Some(i) => Some(CompileError::WrongArgument(i)),
            None => None,
        }),
{
    let domain = func.domain();
    if domain.len() != args.len() {
        return Some(CompileError::WrongArity(domain.len(), args.len()));
    }
    let ghost sorts = claimed_sorts(exprs_view(args@));
    let mut found: Option<usize> = None;
    let mut i: usize = 0;
    while i < args.len()
        invariant
            i <= args@.len() == domain@.len(),
            sorts_view(domain@) == func@.domain,
            sorts == claimed_sorts(exprs_view(args@)),
            found == first_difference(func@.domain, sorts, i as nat),
        decreases args.len() - i,
    {
        assert(sorts[i as int] == sort_of(args@[i as int]@));
        assert(func@.domain[i as int] == domain@[i as int]@);
        if found.is_none() && !domain[i].same(&args[i].sort()) {
            found = Some(i);
        }
        i += 1;
    }
    match found {
        Some(i) => Some(CompileError::WrongArgument(i)),
        None => None,
    }
}

fn binary_term(op: BinOp, a: &Ast, b: &Ast) -> (r: Ast)
    requires
        a.wf(),
        b.wf(),
        operand_sort(op) matches Some(s) ==> a.sort@ == s && b.sort@ == s,
        op == BinOp::Eq ==> a.sort@ == b.sort@,
    ensures
        r.wf(),
        term_content(r.node) == TermView::Binary(
            op,
            Box::new(term_content(a.node)),
            Box::new(term_content(b.node)),
        ),
{
    let node = match op {
        BinOp::And => and_term(&a.node, &b.node),
        BinOp::Or => or_term(&a.node, &b.node),
        BinOp::Implies => implies_term(&a.node, &b.node),
        BinOp::Eq => eq_term(&a.node, &b.node),
        BinOp::Gt => gt_term(&a.node, &b.node),
        BinOp::Ge => ge_term(&a.node, &b.node),
        BinOp::Lt => lt_term(&a.node, &b.node),
        BinOp::Le => le_term(&a.node, &b.node),
        BinOp::Add => add_term(&a.node, &b.node),
        BinOp::Sub => sub_term(&a.node, &b.node),
        BinOp::Mul => mul_term(&a.node, &b.node),
        BinOp::Div => div_term(&a.node, &b.node),
        BinOp::Rem => rem_term(&a.node, &b.node),
    };
    let sort = match op {
        BinOp::Add | BinOp::Sub | BinOp::Mul | BinOp::Div | BinOp::Rem => SymSort::Int,
        _ => SymSort::Bool,
    };
    Ast { node, sort }
}

/// A compilation that wants a sort.
fn narrow(r: Result<Ast, CompileError>, op: BinOp) -> (n: Result<Ast, CompileError>)
    requires
        r matches Ok(a) ==> a.wf(),
    ensures
        match (r, operand_sort(op)) {
            (Ok(a), Some(s)) => if term_sort(term_content(a.node)) == s {
                n == r
            } else if s == SortView::Bool {
                n == Err::<Ast, CompileError>(CompileError::ExpectedBool)
            } else {
                n == Err::<Ast, CompileError>(CompileError::ExpectedInt)
            },
            _ => n == r,
        },
{
    match r {
        Err(x) => Err(x),
        Ok(a) => match op {
            BinOp::And | BinOp::Or | BinOp::Implies => if a.is(&SymSort::Bool) {
                Ok(a)
            } else {
                Err(CompileError::ExpectedBool)
            },
            BinOp::Eq => Ok(a),
            _ => if a.is(&SymSort::Int) {
                Ok(a)
            } else {
                Err(CompileError::ExpectedInt)
            },
        },
    }
}

fn check_operands(op: BinOp, a: &SymExpr, b: &SymExpr) -> (r: Option<CompileError>)
    ensures
        r == operand_fault(op, sort_of(a@), sort_of(b@)),
{
    match op {
        BinOp::Eq => if a.sort().same(&b.sort()) {
            None
        } else {
            Some(CompileError::SortsDiffer)
        },
        BinOp::Add | BinOp::Sub | BinOp::Mul | BinOp::Div | BinOp::Rem => if !a.sort().same(
            &SymSort::Int,
        ) || !b.sort().same(&SymSort::Int) {
            Some(CompileError::IntOperands)
        } else {
            None
        },
        _ => None,
    }
}

/// The constants of the variables of a quantifier, which are bound in `env` from now on.
fn bind_vars(vars: &Vec<BoundVar>, env: &mut Env) -> (r: Result<
    Vec<z3::ast::Dynamic>,
    CompileError,
>)
    requires
        old(env).wf(),
    ensures
        bounds_fault(bounds_view(vars@), vars@.len()) matches Some(x) ==> r == Err::<
            Vec<z3::ast::Dynamic>,
            CompileError,
        >(x),
        bounds_fault(bounds_view(vars@), vars@.len()) is None ==> {
            &&& r matches Ok(terms)
            &&& terms@.len() == vars@.len()
            &&& forall|i: int|
                0 <= i < terms@.len() ==> term_content(#[trigger] terms@[i]) == bound_terms(
                    bounds_view(vars@),
                )[i]
            &&& final(env).wf()
            &&& final(env).map() == bind(old(env).map(), bounds_view(vars@), vars@.len())
        },
{
    let ghost views = bounds_view(vars@);
    let ghost before = env.map();
    let mut asts: Vec<Ast> = Vec::new();
    let mut terms: Vec<z3::ast::Dynamic> = Vec::new();
    let mut i: usize = 0;
    while i < vars.len()
        invariant
            i <= vars@.len() == views.len(),
            views == bounds_view(vars@),
            bounds_fault(views, i as nat) is None,
            asts@.len() == i,
            terms@.len() == i,
            forall|k: int|
                0 <= k < i ==> (#[trigger] asts@[k]).wf() && term_content(asts@[k].node)
                    == constant_term(bound_text(views[k]), views[k].sort),
            forall|k: int|
                0 <= k < i ==> term_content(#[trigger] terms@[k]) == constant_term(
                    bound_text(views[k]),
                    views[k].sort,
                ),
        decreases vars.len() - i,
    {
        assert(views[i as int] == vars@[i as int]@);
        match compile_bound(&vars[i]) {
            Err(x) => {
                proof {
                    lemma_bound_fault_stays(views, (i + 1) as nat, vars@.len());
                }
                return Err(x);
            },
            Ok(a) => {
                terms.push(copy_term(&a.node));
                asts.push(a);
            },
        }
        i += 1;
    }
    let mut k: usize = 0;
    while k < vars.len()
        invariant
            k <= vars@.len() == views.len() == asts@.len(),
            views == bounds_view(vars@),
            env.wf(),
            forall|j: int|
                0 <= j < asts@.len() ==> (#[trigger] asts@[j]).wf() && term_content(asts@[j].node)
                    == constant_term(bound_text(views[j]), views[j].sort),
            env.map() == bind(before, views, k as nat),
        decreases vars.len() - k,
    {
        assert(views[k as int] == vars@[k as int]@);
        let a = &asts[k];
        env.insert(vars[k].id(), Ast { node: copy_term(&a.node), sort: a.sort.clone() });
        k += 1;
    }
    Ok(terms)
}

proof fn lemma_bound_fault_stays(vars: Seq<BoundView>, m: nat, n: nat)
    requires
        m <= n,
        bounds_fault(vars, m) is Some,
    ensures
        bounds_fault(vars, n) == bounds_fault(vars, m),
    decreases n - m,
{
    if m < n {
        lemma_bound_fault_stays(vars, m, (n - 1) as nat);
    }
}

/// Forgets the variables of a quantifier.
fn unbind_vars(vars: &Vec<BoundVar>, env: &mut Env)
    requires
        old(env).wf(),
    ensures
        final(env).wf(),
        final(env).map() == unbind(old(env).map(), bounds_view(vars@), vars@.len()),
{
    let ghost views = bounds_view(vars@);
    let ghost before = env.map();
    let mut i: usize = 0;
    while i < vars.len()
        invariant
            i <= vars@.len() == views.len(),
            views == bounds_view(vars@),
            env.wf(),
            env.map() == unbind(before, views, i as nat),
        decreases vars.len() - i,
    {
        assert(views[i as int] == vars@[i as int]@);
        env.remove(vars[i].id());
        i += 1;
    }
}

/// The term of a quantifier with a compiled body.
fn quantifier_term(is_forall: bool, vars: &Vec<z3::ast::Dynamic>, body: &Ast) -> (r: Ast)
    requires
        vars@.len() <= u32::MAX,
        forall|i: int| 0 <= i < vars@.len() ==> is_constant(term_content(#[trigger] vars@[i])),
        body.wf(),
        body.sort@ == SortView::Bool,
    ensures
        r.wf(),
        term_content(r.node) == (if vars@.len() == 0 {
            term_content(body.node)
        } else {
            TermView::Quantified {
                is_forall,
                vars: Seq::new(vars@.len(), |i: int| term_content(vars@[i])),
                body: Box::new(term_content(body.node)),
            }
        }),
{
    let node = if is_forall {
        forall_term(vars, &body.node)
    } else {
        exists_term(vars, &body.node)
    };
    Ast { node, sort: SymSort::Bool }
}

fn compile_quantifier(is_forall: bool, vars: &Vec<BoundVar>, body: &SymExpr, env: &mut Env) -> (r:
    Result<Ast, CompileError>)
    requires
        old(env).wf(),
    ensures
        meets(
            compiled(
                ExprView::Quantified { is_forall, vars: bounds_view(vars@), body: Box::new(body@) },
                old(env).map(),
            ),
            r,
            *final(env),
        ),
    decreases *body, 3nat,
{
    let ghost views = bounds_view(vars@);
    if !body.sort().same(&SymSort::Bool) {
        return Err(CompileError::BodyNotBool);
    }
    let terms = match bind_vars(vars, env) {
        Ok(t) => t,
        Err(x) => return Err(x),
    };
    let inner = match narrow(compile_dynamic(body, env), BinOp::And) {
        Ok(t) => t,
        Err(x) => return Err(x),
    };
    if vars.len() > u32::MAX as usize {
        return Err(CompileError::TooMany);
    }
    unbind_vars(vars, env);
    assert(Seq::new(terms@.len(), |i: int| term_content(terms@[i])) =~= bound_terms(views));
    Ok(quantifier_term(is_forall, &terms, &inner))
}

fn compile_app(func: &SymFunc, args: &Vec<SymExpr>, env: &mut Env) -> (r: Result<
    Ast,
    CompileError,
>)
    requires
        old(env).wf(),
    ensures
        meets(
            compiled(ExprView::App { func: func@, args: exprs_view(args@) }, old(env).map()),
            r,
            *final(env),
        ),
    decreases args, 1nat,
{
    let ghost views = exprs_view(args@);
    let ghost before = env.map();
    match validate_app(func, args) {
        Some(x) => return Err(x),
        None => {},
    }
    let decl = match compile_func(func) {
        Ok(d) => d,
        Err(x) => return Err(x),
    };
    let domain = func.domain();
    let mut terms: Vec<z3::ast::Dynamic> = Vec::new();
    let mut wrong: Option<usize> = None;
    let mut i: usize = 0;
    let ghost mut sofar = CompiledArgs { terms: Seq::empty(), env: before };
    while i < args.len()
        invariant
            i <= args@.len() == views.len() == domain@.len(),
            views == exprs_view(args@),
            before == old(env).map(),
            sorts_view(domain@) == func@.domain,
            app_fault(func@, claimed_sorts(views)) is None,
            env.wf(),
            compiled_args(views, before, i as nat) == Ok::<CompiledArgs, CompileError>(sofar),
            env.map() == sofar.env,
            terms@.len() == i == sofar.terms.len(),
            forall|k: int| 0 <= k < i ==> term_content(#[trigger] terms@[k]) == sofar.terms[k],
            wrong == first_difference(func@.domain, term_sorts(sofar.terms), i as nat),
        decreases args.len() - i,
    {
        assert(views[i as int] == args@[i as int]@);
        assert(func@.domain[i as int] == domain@[i as int]@);
        assert(decreases_to!(args => args@[i as int]));
        let ghost previous = sofar;
        let t = match compile_dynamic(&args[i], env) {
            Ok(t) => t,
            Err(x) => {
                proof {
                    lemma_args_fail(views, before, (i + 1) as nat, views.len(), x);
                }
                return Err(x);
            },
        };
        proof {
            sofar = CompiledArgs { terms: previous.terms.push(term_content(t.node)), env: env.map() };
            lemma_same_prefix(
                func@.domain,
                term_sorts(previous.terms),
                term_sorts(sofar.terms),
                i as nat,
            );
        }
        if wrong.is_none() && !t.is(&domain[i]) {
            wrong = Some(i);
        }
        terms.push(t.node);
        i += 1;
    }
    match wrong {
        Some(k) => return Err(CompileError::WrongArgument(k)),
        None => {},
    }
    proof {
        lemma_no_difference(func@.domain, term_sorts(sofar.terms), views.len());
        assert forall|k: int| 0 <= k < terms@.len() implies term_sort(
            term_content(#[trigger] terms@[k]),
        ) == func@.domain[k] by {
            assert(term_sorts(sofar.terms)[k] == func@.domain[k]);
        }
        assert(Seq::new(terms@.len(), |k: int| term_content(terms@[k])) =~= sofar.terms);
    }
    let node = apply_function(&decl, &terms);
    Ok(Ast { node, sort: func.range().clone() })
}

proof fn lemma_args_fail(
    args: Seq<ExprView>,
    env: EnvView,
    m: nat,
    n: nat,
    x: CompileError,
)
    requires
        m <= n <= args.len(),
        compiled_args(args, env, m) == Err::<CompiledArgs, CompileError>(x),
    ensures
        compiled_args(args, env, n) == Err::<CompiledArgs, CompileError>(x),
    decreases n - m,
{
    if m < n {
        lemma_args_fail(args, env, m, (n - 1) as nat, x);
    }
}

proof fn lemma_same_prefix(a: Seq<SortView>, b: Seq<SortView>, c: Seq<SortView>, n: nat)
    requires
        forall|k: int| 0 <= k < n ==> b[k] == #[trigger] c[k],
    ensures
        first_difference(a, b, n) == first_difference(a, c, n),
    decreases n,
{
    if n > 0 {
        lemma_same_prefix(a, b, c, (n - 1) as nat);
        assert(b[n - 1] == c[n - 1]);
    }
}

proof fn lemma_no_difference(a: Seq<SortView>, b: Seq<SortView>, n: nat)
    requires
        first_difference(a, b, n) is None,
    ensures
        forall|k: int| 0 <= k < n ==> a[k] == #[trigger] b[k],
    decreases n,
{
    if n > 0 {
        lemma_no_difference(a, b, (n - 1) as nat);
    }
}

/// The term of an expression.
fn compile_dynamic(expr: &SymExpr, env: &mut Env) -> (r: Result<Ast, CompileError>)
    requires
        old(env).wf(),
    ensures
        meets(compiled(expr@, old(env).map()), r, *final(env)),
    decreases *expr, 2nat,
{
    match expr {
        SymExpr::Var { id, sort } => compile_var(*id, sort),
        SymExpr::BoundVar { id, .. } => env.lookup(*id),
        SymExpr::Bool(value) => Ok(Ast { node: bool_term(*value), sort: SymSort::Bool }),
        SymExpr::Int(value) => Ok(Ast { node: int_term(*value), sort: SymSort::Int }),
        SymExpr::App { func, args } => {
            assert(expr@->args =~= exprs_view(args@));
            compile_app(func, args, env)
        },
        SymExpr::Forall { vars, body } => compile_quantifier(true, vars, body, env),
        SymExpr::Exists { vars, body } => compile_quantifier(false, vars, body, env),
        SymExpr::Not(inner) => match narrow(compile_dynamic(inner, env), BinOp::And) {
            Ok(t) => Ok(Ast { node: not_term(&t.node), sort: SymSort::Bool }),
            Err(x) => Err(x),
        },
        _ => match expr.operands() {
            None => Err(CompileError::ExpectedBool),
            Some((op, a, b)) => {
                match check_operands(op, a, b) {
                    Some(x) => return Err(x),
                    None => {},
                }
                let lhs = match narrow(compile_dynamic(a, env), op) {
                    Ok(t) => t,
                    Err(x) => return Err(x),
                };
                let rhs = match narrow(compile_dynamic(b, env), op) {
                    Ok(t) => t,
                    Err(x) => return Err(x),
                };
                if op == BinOp::Eq && !lhs.is(&rhs.sort) {
                    return Err(CompileError::SortsDiffer);
                }
                Ok(binary_term(op, &lhs, &rhs))
            },
        },
    }
}

fn compile_bool(expr: &SymExpr) -> (r: Result<Ast, CompileError>)
    ensures
        match constraint(expr@) {
            Err(x) => r == Err::<Ast, CompileError>(x),
            Ok(t) => r matches Ok(a) && a.wf() && a.sort@ == SortView::Bool && term_content(a.node)
                == t,
        },
{
    let mut env = Env::new();
    narrow(compile_dynamic(expr, &mut env), BinOp::And)
}

/// What a verdict says of satisfiability.
pub fn decide(v: Verdict) -> (r: Result<bool, SolveError>)
    ensures
        r == (match v {
            Verdict::Sat => Ok::<bool, SolveError>(true),
            Verdict::Unsat => Ok::<bool, SolveError>(false),
            Verdict::Unknown => Err::<bool, SolveError>(SolveError::Unknown),
        }),
{
    match v {
        Verdict::Sat => Ok(true),
        Verdict::Unsat => Ok(false),
        Verdict::Unknown => Err(SolveError::Unknown),
    }
}

/// A solver together with the constraints that it has been told.
pub struct SymbolicSolver {
    solver: z3::Solver,
}

impl View for SymbolicSolver {
    type V = Seq<TermView>;

    closed spec fn view(&self) -> Seq<TermView> {
        solver_content(self.solver).flatten()
    }
}

impl SymbolicSolver {
    /// Whether no backtracking point is set.
    pub closed spec fn wf(&self) -> bool {
        solver_content(self.solver).len() == 1
    }

    /// A solver that has been told nothing.
    pub fn new() -> (s: Self)
        ensures
            s.wf(),
            s@ == Seq::<TermView>::empty(),
    {
        let solver = new_solver();
        proof {
            lemma_one_frame(solver_content(solver));
        }
        SymbolicSolver { solver }
    }

    /// Tells the solver the constraint that `expr` states.
    pub fn assert_expr(&mut self, expr: &SymExpr) -> (r: Result<(), CompileError>)
        requires
            old(self).wf(),
        ensures
            final(self).wf(),
            match constraint(expr@) {
                Err(x) => r == Err::<(), CompileError>(x) && final(self)@ == old(self)@,
                Ok(t) => r == Ok::<(), CompileError>(()) && final(self)@ == old(self)@.push(t),
            },
    {
        proof {
            lemma_one_frame(solver_content(self.solver));
        }
        match compile_bool(expr) {
            Err(x) => Err(x),
            Ok(b) => {
                add_assertion(&mut self.solver, &b.node);
                proof {
                    lemma_one_frame(solver_content(self.solver));
                }
                Ok(())
            },
        }
    }

    /// Tells the solver that the constraint does not hold that `expr` states.
    pub fn assert_not(&mut self, expr: &SymExpr) -> (r: Result<(), CompileError>)
        requires
            old(self).wf(),
        ensures
            final(self).wf(),
            match constraint(expr@) {
                Err(x) => r == Err::<(), CompileError>(x) && final(self)@ == old(self)@,
                Ok(t) => r == Ok::<(), CompileError>(()) && final(self)@ == old(self)@.push(
                    TermView::Not(Box::new(t)),
                ),
            },
    {
        proof {
            lemma_one_frame(solver_content(self.solver));
        }
        match compile_bool(expr) {
            Err(x) => Err(x),
            Ok(b) => {
                let negated = not_term(&b.node);
                add_assertion(&mut self.solver, &negated);
                proof {
                    lemma_one_frame(solver_content(self.solver));
                }
                Ok(())
            },
        }
    }

    /// Takes back all constraints.
    pub fn reset(&mut self)
        ensures
            final(self).wf(),
            final(self)@ == Seq::<TermView>::empty(),
    {
        forget_assertions(&mut self.solver);
        proof {
            lemma_one_frame(solver_content(self.solver));
        }
    }

    /// Whether the constraints have a model.
    pub fn is_sat(&self) -> (r: Result<bool, SolveError>)
        ensures
            r matches Ok(b) ==> b == consistent(self@),
            r matches Err(x) ==> x == SolveError::Unknown,
    {
        decide(check_assertions(&self.solver))
    }

    fn sat_with_term(&mut self, t: &z3::ast::Dynamic) -> (r: Result<bool, SolveError>)
        requires
            old(self).wf(),
            term_sort(term_content(*t)) == SortView::Bool,
        ensures
            final(self).wf(),
            r matches Ok(b) ==> b == consistent(old(self)@.push(term_content(*t))),
            r matches Err(x) ==> x == SolveError::Unknown,
            final(self)@ == old(self)@,
    {
        proof {
            lemma_one_frame(solver_content(self.solver));
        }
        let ghost told = solver_content(self.solver);
        push_point(&mut self.solver);
        add_assertion(&mut self.solver, t);
        proof {
            lemma_two_frames(solver_content(self.solver));
            assert(solver_content(self.solver)[0] == told[0]);
            assert(solver_content(self.solver)[1] =~= seq![term_content(*t)]);
            assert(told[0] + seq![term_content(*t)] =~= told[0].push(term_content(*t)));
        }
        let answer = decide(check_assertions(&self.solver));
        pop_point(&mut self.solver);
        assert(solver_content(self.solver) =~= told);
        answer
    }

    /// Whether the constraints have a model in which `expr` holds.
    pub fn sat_with(&mut self, expr: &SymExpr) -> (r: Result<bool, SolveError>)
        requires
            old(self).wf(),
        ensures
            final(self).wf(),
            final(self)@ == old(self)@,
            match constraint(expr@) {
                Err(x) => r == Err::<bool, SolveError>(SolveError::Compile(x)),
                Ok(t) => {
                    &&& r matches Ok(b) ==> b == consistent(old(self)@.push(t))
                    &&& r matches Err(x) ==> x == SolveError::Unknown
                },
            },
    {
        match compile_bool(expr) {
            Err(x) => Err(SolveError::Compile(x)),
            Ok(b) => self.sat_with_term(&b.node),
        }
    }

    /// Whether the constraints have a model in which `expr` does not hold.
    pub fn sat_with_not(&mut self, expr: &SymExpr) -> (r: Result<bool, SolveError>)
        requires
            old(self).wf(),
        ensures
            final(self).wf(),
            final(self)@ == old(self)@,
            match constraint(expr@) {
                Err(x) => r == Err::<bool, SolveError>(SolveError::Compile(x)),
                Ok(t) => {
                    &&& r matches Ok(b) ==> b == consistent(
                        old(self)@.push(TermView::Not(Box::new(t))),
                    )
                    &&& r matches Err(x) ==> x == SolveError::Unknown
                },
            },
    {
        match compile_bool(expr) {
            Err(x) => Err(SolveError::Compile(x)),
            Ok(b) => {
                let negated = not_term(&b.node);
                self.sat_with_term(&negated)
            },
        }
    }
}

proof fn lemma_one_frame(frames: Seq<Seq<TermView>>)
    requires
        frames.len() == 1,
    ensures
        frames.flatten() == frames[0],
{
    frames.lemma_flatten_one_element();
}

proof fn lemma_two_frames(frames: Seq<Seq<TermView>>)
    requires
        frames.len() == 2,
    ensures
        frames.flatten() == frames[0] + frames[1],
{
    lemma_one_frame(frames.drop_first());
    assert(frames.flatten() == frames.first() + frames.drop_first().flatten());
}

} // verus!
