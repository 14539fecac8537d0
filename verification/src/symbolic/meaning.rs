//! What expressions and terms mean, and that a constraint means what its expression does.

use super::expr::{
    all_allowed, rewritten, solver_text, sort_of, BinOp, BoundVarId, BoundView, ExprView, FuncView,
    SortView, SymVarId, SymVarKind, VarImage,
};
use super::solver::{
    bind, bound_terms, bound_text, bounds_fault, claimed_sorts, compiled, compiled_args,
    constraint, first_difference, sorts_fault, term_sorts, unbind, var_text, EnvView,
};
use super::terms::{constant_term, has_nul, term_sort, TermView};
use crate::text::{
    decimal_of, is_digit, law_decimal_round_trip, lemma_decimal_digits, thread_text,
};
use vstd::prelude::*;
use vstd::string::*;

verus! {

/// A value that an expression can have.
pub enum Value {
    Bool(bool),
    Int(int),
    /// An element of an uninterpreted sort.
    Element(int),
}

/// What the functions of the program stand for. A constant is a function without
/// parameters.
pub type Model = spec_fn(FuncView, Seq<Value>) -> Value;

/// Whether a value is `true`.
pub open spec fn truth(v: Value) -> bool {
    v == Value::Bool(true)
}

/// The number that a value is.
pub open spec fn number(v: Value) -> int {
    match v {
        Value::Int(i) => i,
        _ => 0,
    }
}

/// Whether a value is of a sort.
pub open spec fn of_sort(v: Value, sort: SortView) -> bool {
    match sort {
        SortView::Bool => v is Bool,
        SortView::Int => v is Int,
        SortView::Uninterpreted(_) => v is Element,
    }
}

/// A value as one of a sort.
pub open spec fn as_sort(v: Value, sort: SortView) -> Value {
    match sort {
        SortView::Bool => Value::Bool(truth(v)),
        SortView::Int => Value::Int(number(v)),
        SortView::Uninterpreted(_) => match v {
            Value::Element(i) => Value::Element(i),
            _ => Value::Element(0),
        },
    }
}

/// What an operator makes of two values.
pub open spec fn operated(op: BinOp, a: Value, b: Value) -> Value {
    match op {
        BinOp::And => Value::Bool(truth(a) && truth(b)),
        BinOp::Or => Value::Bool(truth(a) || truth(b)),
        BinOp::Implies => Value::Bool(truth(a) ==> truth(b)),
        BinOp::Eq => Value::Bool(a == b),
        BinOp::Gt => Value::Bool(number(a) > number(b)),
        BinOp::Ge => Value::Bool(number(a) >= number(b)),
        BinOp::Lt => Value::Bool(number(a) < number(b)),
        BinOp::Le => Value::Bool(number(a) <= number(b)),
        BinOp::Add => Value::Int(number(a) + number(b)),
        BinOp::Sub => Value::Int(number(a) - number(b)),
        BinOp::Mul => Value::Int(number(a) * number(b)),
        BinOp::Div => Value::Int(number(a) / number(b)),
        BinOp::Rem => Value::Int(number(a) % number(b)),
    }
}

/// Whether values are of the given sorts.
pub open spec fn fit(values: Seq<Value>, sorts: Seq<SortView>) -> bool {
    values.len() == sorts.len() && forall|i: int|
        0 <= i < values.len() ==> of_sort(#[trigger] values[i], sorts[i])
}

/// The sorts of bound variables.
pub open spec fn sorts_of(vars: Seq<BoundView>) -> Seq<SortView> {
    Seq::new(vars.len(), |i: int| vars[i].sort)
}

/// The values of bound variables, with `vars[..n]` bound to `values`.
pub open spec fn given(
    env: Map<BoundVarId, Value>,
    vars: Seq<BoundView>,
    values: Seq<Value>,
    n: nat,
) -> Map<BoundVarId, Value>
    decreases n,
{
    if n == 0 {
        env
    } else {
        given(env, vars, values, (n - 1) as nat).insert(vars[n - 1].id, values[n - 1])
    }
}

/// The constant that stands for a variable.
pub open spec fn var_constant(id: SymVarId, sort: SortView) -> FuncView {
    FuncView { name: var_text(id, sort), domain: Seq::empty(), range: sort }
}

/// The values of variables.
pub type Assignment = spec_fn(SymVarId, SortView) -> Value;

/// The values that the variables have by their constants.
pub open spec fn by_constants(m: Model) -> Assignment {
    |id: SymVarId, sort: SortView| m(var_constant(id, sort), Seq::empty())
}

/// What an expression means: a variable has its value, a bound variable the value that it
/// is bound to, and a quantifier speaks of all values of its variables.
pub open spec fn meaning(
    e: ExprView,
    x: Assignment,
    m: Model,
    env: Map<BoundVarId, Value>,
) -> Value
    decreases e, 0nat,
{
    match e {
        ExprView::Var { id, sort } => as_sort(x(id, sort), sort),
        ExprView::BoundVar { id, .. } => env[id],
        ExprView::Bool(b) => Value::Bool(b),
        ExprView::Int(i) => Value::Int(i as int),
        ExprView::App { func, args } => as_sort(
            m(func, meanings(args, x, m, env, args.len())),
            func.range,
        ),
        ExprView::Quantified { is_forall, vars, body } => Value::Bool(
            if is_forall {
                forall|values: Seq<Value>| #[trigger]
                    fit(values, sorts_of(vars)) ==> truth(
                        meaning(*body, x, m, given(env, vars, values, vars.len())),
                    )
            } else {
                exists|values: Seq<Value>| #[trigger]
                    fit(values, sorts_of(vars)) && truth(
                        meaning(*body, x, m, given(env, vars, values, vars.len())),
                    )
            },
        ),
        ExprView::Not(a) => Value::Bool(!truth(meaning(*a, x, m, env))),
        ExprView::Binary(op, a, b) => operated(op, meaning(*a, x, m, env), meaning(*b, x, m, env)),
    }
}

/// What the first `n` of some expressions mean.
pub open spec fn meanings(
    args: Seq<ExprView>,
    x: Assignment,
    m: Model,
    env: Map<BoundVarId, Value>,
    n: nat,
) -> Seq<Value>
    decreases args, n,
{
    if n == 0 || n > args.len() {
        Seq::empty()
    } else {
        meanings(args, x, m, env, (n - 1) as nat).push(meaning(args[n - 1], x, m, env))
    }
}

/// The place, counted from one, of the last of `vars[..n]` that is the constant `f`; zero
/// where there is none.
pub open spec fn place_of(vars: Seq<TermView>, f: FuncView, n: nat) -> nat
    decreases n,
{
    if n == 0 {
        0
    } else if vars[n - 1] == constant_term(f.name, f.range) && f.domain.len() == 0 {
        n
    } else {
        place_of(vars, f, (n - 1) as nat)
    }
}

/// A model in which the constants `vars` have other values.
pub open spec fn with_constants(m: Model, vars: Seq<TermView>, values: Seq<Value>) -> Model {
    |f: FuncView, args: Seq<Value>|
        if args.len() == 0 && place_of(vars, f, vars.len()) > 0 {
            values[place_of(vars, f, vars.len()) - 1]
        } else {
            m(f, args)
        }
}

/// The sorts of terms.
pub open spec fn term_sorts_of(vars: Seq<TermView>) -> Seq<SortView> {
    Seq::new(vars.len(), |i: int| term_sort(vars[i]))
}

/// What a term of the solver means: a quantifier speaks of all values of its constants.
pub open spec fn term_meaning(t: TermView, m: Model) -> Value
    decreases t, 0nat,
{
    match t {
        TermView::Bool(b) => Value::Bool(b),
        TermView::Int(i) => Value::Int(i as int),
        TermView::App { func, args } => as_sort(
            m(func, term_meanings(args, m, args.len())),
            func.range,
        ),
        TermView::Quantified { is_forall, vars, body } => Value::Bool(
            if is_forall {
                forall|values: Seq<Value>| #[trigger]
                    fit(values, term_sorts_of(vars)) ==> truth(
                        term_meaning(*body, with_constants(m, vars, values)),
                    )
            } else {
                exists|values: Seq<Value>| #[trigger]
                    fit(values, term_sorts_of(vars)) && truth(
                        term_meaning(*body, with_constants(m, vars, values)),
                    )
            },
        ),
        TermView::Not(a) => Value::Bool(!truth(term_meaning(*a, m))),
        TermView::Binary(op, a, b) => operated(op, term_meaning(*a, m), term_meaning(*b, m)),
    }
}

/// What the first `n` of some terms mean.
pub open spec fn term_meanings(args: Seq<TermView>, m: Model, n: nat) -> Seq<Value>
    decreases args, n,
{
    if n == 0 || n > args.len() {
        Seq::empty()
    } else {
        term_meanings(args, m, (n - 1) as nat).push(term_meaning(args[n - 1], m))
    }
}

/// Constants by name and sort.
pub type Names = Set<(Seq<char>, SortView)>;

/// The names of the constants of bound variables, added to others.
pub open spec fn with_names(names: Names, vars: Seq<BoundView>) -> Names {
    Set::new(
        |x: (Seq<char>, SortView)|
            names.contains(x) || exists|i: int|
                0 <= i < vars.len() && x == (bound_text(#[trigger] vars[i]), vars[i].sort),
    )
}

/// Whether no constant of the program within a quantifier is named like the constant of a
/// variable that the quantifier binds.
pub open spec fn names_apart(e: ExprView, names: Names) -> bool
    decreases e,
{
    match e {
        ExprView::App { func, args } => {
            &&& args.len() == 0 ==> !names.contains((func.name, func.range))
            &&& forall|i: int| 0 <= i < args.len() ==> names_apart(#[trigger] args[i], names)
        },
        ExprView::Quantified { vars, body, .. } => names_apart(*body, with_names(names, vars)),
        ExprView::Not(a) => names_apart(*a, names),
        ExprView::Binary(_, a, b) => names_apart(*a, names) && names_apart(*b, names),
        _ => true,
    }
}

/// Where digits follow a separator the text before it and the number can be told.
proof fn lemma_number_at_the_end(a: Seq<char>, x: nat, b: Seq<char>, y: nat)
    requires
        a + "_"@ + decimal_of(x) == b + "_"@ + decimal_of(y),
    ensures
        a == b,
        x == y,
{
    reveal_strlit("_");
    lemma_decimal_digits(x);
    lemma_decimal_digits(y);
    let s = a + "_"@ + decimal_of(x);
    let t = b + "_"@ + decimal_of(y);
    let p = decimal_of(x).len() as int;
    let q = decimal_of(y).len() as int;
    let n = s.len() as int;
    assert(s[n - p - 1] == '_');
    assert(t[n - q - 1] == '_');
    if p < q {
        assert(t[n - p - 1] == decimal_of(y)[q - p - 1]);
        assert(is_digit(decimal_of(y)[q - p - 1]));
    } else if q < p {
        assert(s[n - q - 1] == decimal_of(x)[p - q - 1]);
        assert(is_digit(decimal_of(x)[p - q - 1]));
    }
    assert(decimal_of(x) =~= decimal_of(y)) by {
        assert forall|i: int| 0 <= i < p implies decimal_of(x)[i] == decimal_of(y)[i] by {
            assert(s[n - p + i] == decimal_of(x)[i]);
            assert(t[n - q + i] == decimal_of(y)[i]);
        }
    }
    law_decimal_round_trip(x);
    law_decimal_round_trip(y);
    assert(a =~= b) by {
        assert forall|i: int| 0 <= i < a.len() implies a[i] == b[i] by {
            assert(s[i] == a[i]);
            assert(t[i] == b[i]);
        }
    }
}

proof fn lemma_same_end(p: Seq<char>, a: Seq<char>, b: Seq<char>)
    requires
        p + a == p + b,
    ensures
        a == b,
{
    assert((p + a).len() == p.len() + a.len());
    assert((p + b).len() == p.len() + b.len());
    assert forall|i: int| 0 <= i < a.len() implies a[i] == b[i] by {
        assert((p + a)[p.len() + i] == a[i]);
        assert((p + b)[p.len() + i] == b[i]);
    }
    assert(a =~= b);
}

/// Bound variables with different numbers have constants of their own, whatever their names
/// are.
pub proof fn law_bound_variables_have_constants_of_their_own(v: BoundView, w: BoundView)
    ensures
        bound_text(v) == bound_text(w) ==> v.id == w.id && v.name == w.name,
{
    if bound_text(v) == bound_text(w) {
        let a = "q_"@ + v.name;
        let b = "q_"@ + w.name;
        lemma_number_at_the_end(
            a + "_"@ + decimal_of(v.id.scope as nat),
            v.id.index as nat,
            b + "_"@ + decimal_of(w.id.scope as nat),
            w.id.index as nat,
        );
        lemma_number_at_the_end(a, v.id.scope as nat, b, w.id.scope as nat);
        lemma_same_end("q_"@, v.name, w.name);
    }
}

/// Different variables have different constants, and no variable shares its constant with a
/// bound one.
pub proof fn law_variables_have_constants_of_their_own(
    a: SymVarId,
    s: SortView,
    b: SymVarId,
    t: SortView,
    v: BoundView,
)
    ensures
        var_constant(a, s) == var_constant(b, t) ==> a == b && s == t,
        var_text(a, s) != bound_text(v),
{
    reveal_strlit("sym_b_");
    reveal_strlit("sym_i_");
    reveal_strlit("sym_u_");
    reveal_strlit("q_");
    assert(var_text(a, s)[0] == 's');
    assert(bound_text(v)[0] == 'q');
    if var_constant(a, s) == var_constant(b, t) {
        let p = match s {
            SortView::Bool => "sym_b_"@,
            SortView::Int => "sym_i_"@,
            SortView::Uninterpreted(_) => "sym_u_"@,
        };
        let x = solver_text(a);
        let y = solver_text(b);
        lemma_same_end(p, x, y);
        reveal_strlit("exec_");
        reveal_strlit("input_");
        reveal_strlit("local_");
        reveal_strlit("t");
        match (a.0, b.0) {
            (SymVarKind::Execution(e), SymVarKind::Execution(f)) => {
                lemma_number_at_the_end(
                    "exec_"@ + thread_text(e.thread),
                    e.index as nat,
                    "exec_"@ + thread_text(f.thread),
                    f.index as nat,
                );
                lemma_same_end("exec_"@, thread_text(e.thread), thread_text(f.thread));
                lemma_same_end(
                    "t"@,
                    decimal_of(e.thread.id as nat),
                    decimal_of(f.thread.id as nat),
                );
                law_decimal_round_trip(e.thread.id as nat);
                law_decimal_round_trip(f.thread.id as nat);
            },
            (SymVarKind::SummaryInput(i), SymVarKind::SummaryInput(j)) => {
                lemma_same_end("input_"@, decimal_of(i as nat), decimal_of(j as nat));
                law_decimal_round_trip(i as nat);
                law_decimal_round_trip(j as nat);
            },
            (SymVarKind::SummaryLocal(i), SymVarKind::SummaryLocal(j)) => {
                lemma_same_end("local_"@, decimal_of(i as nat), decimal_of(j as nat));
                law_decimal_round_trip(i as nat);
                law_decimal_round_trip(j as nat);
            },
            _ => {
                let c = |k: SymVarKind| match k {
                    SymVarKind::Execution(_) => 'e',
                    SymVarKind::SummaryInput(_) => 'i',
                    SymVarKind::SummaryLocal(_) => 'l',
                };
                assert(x[0] == c(a.0));
                assert(y[0] == c(b.0));
            },
        }
    }
}

/// What the term of a constant means.
proof fn lemma_constant(name: Seq<char>, sort: SortView, m: Model)
    ensures
        term_meaning(constant_term(name, sort), m) == as_sort(
            m(FuncView { name, domain: Seq::empty(), range: sort }, Seq::empty()),
            sort,
        ),
{
    let none = Seq::<TermView>::empty();
    assert(term_meanings(none, m, 0) == Seq::<Value>::empty());
    assert(constant_term(name, sort)->App_args == none);
}

/// What a term means is of its sort.
proof fn lemma_meaning_of_sort(t: TermView, m: Model)
    ensures
        of_sort(term_meaning(t, m), term_sort(t)),
{
    match t {
        TermView::App { func, .. } => {},
        TermView::Binary(op, a, b) => {},
        _ => {},
    }
}

/// How the constants in which an expression is compiled relate to the values for which it
/// is read: the constants of bound variables have their values, and all other functions
/// stand for what they do.
spec fn agree(
    terms: EnvView,
    env: Map<BoundVarId, Value>,
    m: Model,
    base: Model,
    names: Names,
) -> bool {
    &&& forall|id: BoundVarId| #[trigger]
        terms.contains_key(id) ==> env.contains_key(id) && stands_for(terms[id], id, env[id], m, names)
    &&& forall|f: FuncView, args: Seq<Value>|
        (args.len() > 0 || !names.contains((f.name, f.range))) ==> #[trigger] m(f, args) == base(
            f,
            args,
        )
    &&& forall|x: (Seq<char>, SortView)| #[trigger] names.contains(x) ==> is_bound_name(x)
}

/// Whether a name is that of the constant of a bound variable.
spec fn is_bound_name(x: (Seq<char>, SortView)) -> bool {
    exists|v: BoundView| x.0 == #[trigger] bound_text(v)
}

/// Whether `t` is the constant of the bound variable `id`, and has the value `value`.
spec fn stands_for(t: TermView, id: BoundVarId, value: Value, m: Model, names: Names) -> bool {
    exists|v: BoundView|
        v.id == id && t == constant_term(#[trigger] bound_text(v), v.sort) && of_sort(value, v.sort)
            && names.contains((bound_text(v), v.sort)) && m(
            FuncView { name: bound_text(v), domain: Seq::empty(), range: v.sort },
            Seq::empty(),
        ) == value
}

/// The constant of a variable is that of the last one with this constant.
proof fn lemma_place_of(vars: Seq<BoundView>, f: FuncView, n: nat)
    requires
        n <= vars.len(),
    ensures
        ({
            let k = place_of(bound_terms(vars), f, n);
            &&& k <= n
            &&& k > 0 ==> f == (FuncView {
                name: bound_text(vars[k - 1]),
                domain: Seq::empty(),
                range: vars[k - 1].sort,
            })
            &&& forall|j: int|
                k <= j < n ==> f != (FuncView {
                    name: bound_text(#[trigger] vars[j]),
                    domain: Seq::empty(),
                    range: vars[j].sort,
                })
        }),
    decreases n,
{
    if n > 0 {
        lemma_place_of(vars, f, (n - 1) as nat);
        let t = bound_terms(vars)[n - 1];
        assert(t == constant_term(bound_text(vars[n - 1]), vars[n - 1].sort));
        if f.domain.len() == 0 {
            assert(f.domain =~= Seq::<SortView>::empty());
        }
        if t == constant_term(f.name, f.range) {
            let g = t->App_func;
            assert(g.name == f.name && g.range == f.range);
        }
    }
}

/// Where `id` is bound last among `vars[..n]`.
spec fn last_bound(vars: Seq<BoundView>, id: BoundVarId, n: nat) -> nat
    decreases n,
{
    if n == 0 {
        0
    } else if vars[n - 1].id == id {
        n
    } else {
        last_bound(vars, id, (n - 1) as nat)
    }
}

proof fn lemma_last_bound(
    terms: EnvView,
    env: Map<BoundVarId, Value>,
    vars: Seq<BoundView>,
    values: Seq<Value>,
    id: BoundVarId,
    n: nat,
)
    requires
        n <= vars.len(),
    ensures
        ({
            let k = last_bound(vars, id, n);
            &&& k <= n
            &&& k == 0 ==> bind(terms, vars, n).contains_key(id) == terms.contains_key(id) && bind(
                terms,
                vars,
                n,
            )[id] == terms[id] && given(env, vars, values, n).contains_key(id) == env.contains_key(
                id,
            ) && given(env, vars, values, n)[id] == env[id]
            &&& k > 0 ==> vars[k - 1].id == id && bind(terms, vars, n).contains_key(id) && bind(
                terms,
                vars,
                n,
            )[id] == constant_term(bound_text(vars[k - 1]), vars[k - 1].sort) && given(
                env,
                vars,
                values,
                n,
            ).contains_key(id) && given(env, vars, values, n)[id] == values[k - 1]
            &&& forall|j: int| k <= j < n ==> (#[trigger] vars[j]).id != id
        }),
    decreases n,
{
    if n > 0 {
        lemma_last_bound(terms, env, vars, values, id, (n - 1) as nat);
    }
}

/// Within a quantifier the constants and the values agree again.
proof fn lemma_agree_within(
    terms: EnvView,
    env: Map<BoundVarId, Value>,
    m: Model,
    base: Model,
    names: Names,
    vars: Seq<BoundView>,
    values: Seq<Value>,
)
    requires
        agree(terms, env, m, base, names),
        fit(values, sorts_of(vars)),
    ensures
        agree(
            bind(terms, vars, vars.len()),
            given(env, vars, values, vars.len()),
            with_constants(m, bound_terms(vars), values),
            base,
            with_names(names, vars),
        ),
{
    let n = vars.len();
    let inner = bind(terms, vars, n);
    let known = given(env, vars, values, n);
    let changed = with_constants(m, bound_terms(vars), values);
    let more = with_names(names, vars);
    assert forall|id: BoundVarId| #[trigger] inner.contains_key(id) implies known.contains_key(id)
        && stands_for(inner[id], id, known[id], changed, more) by {
        lemma_last_bound(terms, env, vars, values, id, n);
        let k = last_bound(vars, id, n);
        if k > 0 {
            let v = vars[k - 1];
            let f = FuncView { name: bound_text(v), domain: Seq::empty(), range: v.sort };
            lemma_place_of(vars, f, n);
            let p = place_of(bound_terms(vars), f, n);
            assert(f == (FuncView {
                name: bound_text(vars[k - 1]),
                domain: Seq::empty(),
                range: vars[k - 1].sort,
            }));
            assert(p > 0 && p >= k);
            law_bound_variables_have_constants_of_their_own(vars[p - 1], v);
            assert(p == k);
            assert(sorts_of(vars)[k - 1] == v.sort);
            assert(of_sort(values[k - 1], v.sort));
            assert(more.contains((bound_text(v), v.sort)));
            assert(stands_for(inner[id], id, known[id], changed, more));
        } else {
            assert(terms.contains_key(id));
            assert(stands_for(terms[id], id, env[id], m, names));
            let v = choose|v: BoundView|
                v.id == id && terms[id] == constant_term(#[trigger] bound_text(v), v.sort)
                    && of_sort(env[id], v.sort) && names.contains((bound_text(v), v.sort)) && m(
                    FuncView { name: bound_text(v), domain: Seq::empty(), range: v.sort },
                    Seq::empty(),
                ) == env[id];
            let f = FuncView { name: bound_text(v), domain: Seq::empty(), range: v.sort };
            lemma_place_of(vars, f, n);
            let p = place_of(bound_terms(vars), f, n);
            if p > 0 {
                law_bound_variables_have_constants_of_their_own(vars[p - 1], v);
                assert(vars[p - 1].id != id);
            }
            assert(more.contains((bound_text(v), v.sort)));
            assert(stands_for(inner[id], id, known[id], changed, more));
        }
    }
    assert forall|f: FuncView, args: Seq<Value>|
        (args.len() > 0 || !more.contains((f.name, f.range))) implies #[trigger] changed(f, args)
        == base(f, args) by {
        lemma_place_of(vars, f, n);
        if args.len() == 0 {
            let p = place_of(bound_terms(vars), f, n);
            if p > 0 {
                assert((f.name, f.range) == (bound_text(vars[p - 1]), vars[p - 1].sort));
            }
            assert(!names.contains((f.name, f.range)));
        }
        assert(m(f, args) == base(f, args));
    }
    assert forall|x: (Seq<char>, SortView)| #[trigger] more.contains(x) implies is_bound_name(x) by {
        if !names.contains(x) {
            let i = choose|i: int|
                0 <= i < vars.len() && x == (bound_text(#[trigger] vars[i]), vars[i].sort);
            assert(x.0 == bound_text(vars[i]));
        }
    }
}

/// A compilation leaves only variables known that were known before.
proof fn lemma_known_before(e: ExprView, terms: EnvView)
    ensures
        compiled(e, terms) matches Ok(c) ==> part_of(c.env, terms),
    decreases e, 0nat,
{
    match e {
        ExprView::App { args, .. } => {
            lemma_args_known_before(args, terms, args.len());
        },
        ExprView::Quantified { vars, body, .. } => {
            let inner = bind(terms, vars, vars.len());
            lemma_known_before(*body, inner);
            if let Ok(c) = compiled(*body, inner) {
                let after = unbind(c.env, vars, vars.len());
                assert forall|id: BoundVarId| #[trigger] after.contains_key(id) implies terms.contains_key(
                    id,
                ) && after[id] == terms[id] by {
                    lemma_unbind(c.env, vars, id, vars.len());
                    lemma_last_bound(terms, Map::empty(), vars, Seq::empty(), id, vars.len());
                    assert(c.env.contains_key(id));
                    assert(inner.contains_key(id));
                }
            }
        },
        ExprView::Not(a) => {
            lemma_known_before(*a, terms);
        },
        ExprView::Binary(_, a, b) => {
            lemma_known_before(*a, terms);
            if let Ok(ca) = compiled(*a, terms) {
                lemma_known_before(*b, ca.env);
                if let Ok(cb) = compiled(*b, ca.env) {
                    lemma_part_of_part(cb.env, ca.env, terms);
                }
            }
        },
        _ => {},
    }
}

/// Whether all variables that `a` knows are known to `b`, by the same constants.
spec fn part_of(a: EnvView, b: EnvView) -> bool {
    forall|id: BoundVarId| #[trigger]
        a.contains_key(id) ==> b.contains_key(id) && a[id] == b[id]
}

proof fn lemma_part_of_part(a: EnvView, b: EnvView, c: EnvView)
    requires
        part_of(a, b),
        part_of(b, c),
    ensures
        part_of(a, c),
{
    assert forall|id: BoundVarId| #[trigger] a.contains_key(id) implies c.contains_key(id) && a[id]
        == c[id] by {
        assert(b.contains_key(id));
    }
}

proof fn lemma_unbind(terms: EnvView, vars: Seq<BoundView>, id: BoundVarId, n: nat)
    requires
        n <= vars.len(),
    ensures
        unbind(terms, vars, n).contains_key(id) <==> terms.contains_key(id) && last_bound(
            vars,
            id,
            n,
        ) == 0,
        unbind(terms, vars, n).contains_key(id) ==> unbind(terms, vars, n)[id] == terms[id],
    decreases n,
{
    if n > 0 {
        lemma_unbind(terms, vars, id, (n - 1) as nat);
    }
}

proof fn lemma_args_known_before(args: Seq<ExprView>, terms: EnvView, n: nat)
    requires
        n <= args.len(),
    ensures
        compiled_args(args, terms, n) matches Ok(c) ==> part_of(c.env, terms) && c.terms.len() == n,
    decreases args, n,
{
    if n > 0 {
        lemma_args_known_before(args, terms, (n - 1) as nat);
        if let Ok(before) = compiled_args(args, terms, (n - 1) as nat) {
            lemma_known_before(args[n - 1], before.env);
            if let Ok(c) = compiled(args[n - 1], before.env) {
                lemma_part_of_part(c.env, before.env, terms);
            }
        }
    }
}

proof fn lemma_agree_on_part(
    part: EnvView,
    terms: EnvView,
    env: Map<BoundVarId, Value>,
    m: Model,
    base: Model,
    names: Names,
)
    requires
        agree(terms, env, m, base, names),
        part_of(part, terms),
    ensures
        agree(part, env, m, base, names),
{
    assert forall|id: BoundVarId| #[trigger] part.contains_key(id) implies env.contains_key(id)
        && stands_for(part[id], id, env[id], m, names) by {
        assert(terms.contains_key(id));
    }
}

/// Where its body means the same for all values, a quantifier means the same.
proof fn lemma_quantified_meaning(
    is_forall: bool,
    vars: Seq<BoundView>,
    body: ExprView,
    b: TermView,
    env: Map<BoundVarId, Value>,
    m: Model,
    base: Model,
)
    requires
        forall|values: Seq<Value>| #[trigger]
            fit(values, sorts_of(vars)) ==> term_meaning(
                b,
                with_constants(m, bound_terms(vars), values),
            ) == meaning(body, by_constants(base), base, given(env, vars, values, vars.len())),
    ensures
        term_meaning(
            (TermView::Quantified { is_forall, vars: bound_terms(vars), body: Box::new(b) }),
            m,
        ) == meaning(
            (ExprView::Quantified { is_forall, vars, body: Box::new(body) }),
            by_constants(base),
            base,
            env,
        ),
{
    let constants = bound_terms(vars);
    assert(term_sorts_of(constants) =~= sorts_of(vars));
    let left = term_meaning(
        (TermView::Quantified { is_forall, vars: constants, body: Box::new(b) }),
        m,
    );
    let right = meaning(
        (ExprView::Quantified { is_forall, vars, body: Box::new(body) }),
        by_constants(base),
        base,
        env,
    );
    if is_forall {
        assert(left == Value::Bool(
            forall|values: Seq<Value>| #[trigger]
                fit(values, sorts_of(vars)) ==> truth(
                    term_meaning(b, with_constants(m, constants, values)),
                ),
        ));
        assert(right == Value::Bool(
            forall|values: Seq<Value>| #[trigger]
                fit(values, sorts_of(vars)) ==> truth(
                    meaning(body, by_constants(base), base, given(env, vars, values, vars.len())),
                ),
        ));
    } else {
        assert(left == Value::Bool(
            exists|values: Seq<Value>| #[trigger]
                fit(values, sorts_of(vars)) && truth(
                    term_meaning(b, with_constants(m, constants, values)),
                ),
        ));
        assert(right == Value::Bool(
            exists|values: Seq<Value>| #[trigger]
                fit(values, sorts_of(vars)) && truth(
                    meaning(body, by_constants(base), base, given(env, vars, values, vars.len())),
                ),
        ));
    }
}

/// A quantifier without variables means what its body means.
proof fn lemma_no_variables(
    is_forall: bool,
    body: ExprView,
    env: Map<BoundVarId, Value>,
    base: Model,
)
    ensures
        meaning(
            (ExprView::Quantified { is_forall, vars: Seq::empty(), body: Box::new(body) }),
            by_constants(base),
            base,
            env,
        ) == Value::Bool(truth(meaning(body, by_constants(base), base, env))),
{
    let vars = Seq::<BoundView>::empty();
    let none = Seq::<Value>::empty();
    assert(fit(none, sorts_of(vars)));
    assert forall|values: Seq<Value>| #[trigger] fit(values, sorts_of(vars)) implies given(
        env,
        vars,
        values,
        vars.len(),
    ) == env by {}
    let right = meaning(
        (ExprView::Quantified { is_forall, vars, body: Box::new(body) }),
        by_constants(base),
        base,
        env,
    );
    if is_forall {
        assert(right == Value::Bool(
            forall|values: Seq<Value>| #[trigger]
                fit(values, sorts_of(vars)) ==> truth(
                    meaning(body, by_constants(base), base, given(env, vars, values, vars.len())),
                ),
        ));
    } else {
        assert(right == Value::Bool(
            exists|values: Seq<Value>| #[trigger]
                fit(values, sorts_of(vars)) && truth(
                    meaning(body, by_constants(base), base, given(env, vars, values, vars.len())),
                ),
        ));
    }
}

/// A term means what its expression means.
proof fn lemma_meaning(
    e: ExprView,
    terms: EnvView,
    env: Map<BoundVarId, Value>,
    m: Model,
    base: Model,
    names: Names,
)
    requires
        agree(terms, env, m, base, names),
        names_apart(e, names),
    ensures
        compiled(e, terms) matches Ok(c) ==> term_meaning(c.term, m) == meaning(e, by_constants(base), base, env),
    decreases e, 0nat,
{
    if let Ok(c) = compiled(e, terms) {
        match e {
            ExprView::Var { id, sort } => {
                lemma_constant(var_text(id, sort), sort, m);
                let f = var_constant(id, sort);
                assert(!names.contains((f.name, f.range))) by {
                    if names.contains((f.name, f.range)) {
                        assert(is_bound_name((f.name, f.range)));
                        let v = choose|v: BoundView| f.name == #[trigger] bound_text(v);
                        law_variables_have_constants_of_their_own(id, sort, id, sort, v);
                    }
                }
                assert(m(f, Seq::empty()) == base(f, Seq::empty()));
            },
            ExprView::BoundVar { id, .. } => {
                assert(terms.contains_key(id));
                assert(stands_for(terms[id], id, env[id], m, names));
                let v = choose|v: BoundView|
                    v.id == id && terms[id] == constant_term(#[trigger] bound_text(v), v.sort)
                        && of_sort(env[id], v.sort) && names.contains((bound_text(v), v.sort)) && m(
                        FuncView { name: bound_text(v), domain: Seq::empty(), range: v.sort },
                        Seq::empty(),
                    ) == env[id];
                lemma_constant(bound_text(v), v.sort, m);
            },
            ExprView::App { func, args } => {
                lemma_args_meaning(args, terms, env, m, base, names, args.len());
                let done = compiled_args(args, terms, args.len())->Ok_0;
                lemma_args_known_before(args, terms, args.len());
                let right = meanings(args, by_constants(base), base, env, args.len());
                assert(term_meanings(done.terms, m, done.terms.len()) == right);
                assert(m(func, right) == base(func, right));
            },
            ExprView::Quantified { is_forall, vars, body } => {
                let inner = bind(terms, vars, vars.len());
                let b = compiled(*body, inner)->Ok_0;
                let constants = bound_terms(vars);
                assert forall|values: Seq<Value>| #[trigger]
                    fit(values, sorts_of(vars)) implies term_meaning(
                    b.term,
                    with_constants(m, constants, values),
                ) == meaning(*body, by_constants(base), base, given(env, vars, values, vars.len())) by {
                    lemma_agree_within(terms, env, m, base, names, vars, values);
                    lemma_meaning(
                        *body,
                        inner,
                        given(env, vars, values, vars.len()),
                        with_constants(m, constants, values),
                        base,
                        with_names(names, vars),
                    );
                }
                if vars.len() == 0 {
                    assert(vars =~= Seq::<BoundView>::empty());
                    lemma_no_variables(is_forall, *body, env, base);
                    assert(with_names(names, vars) =~= names);
                    lemma_meaning(*body, terms, env, m, base, names);
                    lemma_meaning_of_sort(b.term, m);
                } else {
                    lemma_quantified_meaning(is_forall, vars, *body, b.term, env, m, base);
                }
            },
            ExprView::Not(a) => {
                lemma_meaning(*a, terms, env, m, base, names);
            },
            ExprView::Binary(_, a, b) => {
                lemma_meaning(*a, terms, env, m, base, names);
                let ca = compiled(*a, terms)->Ok_0;
                lemma_known_before(*a, terms);
                lemma_agree_on_part(ca.env, terms, env, m, base, names);
                lemma_meaning(*b, ca.env, env, m, base, names);
            },
            _ => {},
        }
    }
}

proof fn lemma_args_meaning(
    args: Seq<ExprView>,
    terms: EnvView,
    env: Map<BoundVarId, Value>,
    m: Model,
    base: Model,
    names: Names,
    n: nat,
)
    requires
        n <= args.len(),
        agree(terms, env, m, base, names),
        forall|i: int| 0 <= i < args.len() ==> names_apart(#[trigger] args[i], names),
    ensures
        compiled_args(args, terms, n) matches Ok(c) ==> c.terms.len() == n && term_meanings(
            c.terms,
            m,
            n,
        ) == meanings(args, by_constants(base), base, env, n),
    decreases args, n,
{
    if n > 0 {
        lemma_args_meaning(args, terms, env, m, base, names, (n - 1) as nat);
        if let Ok(c) = compiled_args(args, terms, n) {
            let before = compiled_args(args, terms, (n - 1) as nat)->Ok_0;
            lemma_args_known_before(args, terms, (n - 1) as nat);
            lemma_agree_on_part(before.env, terms, env, m, base, names);
            lemma_meaning(args[n - 1], before.env, env, m, base, names);
            lemma_first_meanings(before.terms, c.terms, m, (n - 1) as nat);
        }
    }
}

/// What the first terms mean does not depend on those behind them.
proof fn lemma_first_meanings(a: Seq<TermView>, b: Seq<TermView>, m: Model, n: nat)
    requires
        n <= a.len() <= b.len(),
        forall|i: int| 0 <= i < n ==> #[trigger] a[i] == b[i],
    ensures
        term_meanings(a, m, n) == term_meanings(b, m, n),
    decreases n,
{
    if n > 0 {
        lemma_first_meanings(a, b, m, (n - 1) as nat);
        assert(a[n - 1] == b[n - 1]);
    }
}

/// A constraint that is told to the solver means what its expression means: in every model
/// the term is true exactly if the expression is. Within a quantifier no constant of the
/// program may have the name and sort under which the solver knows a bound variable.
pub proof fn law_constraints_mean_what_their_expressions_mean(e: ExprView, m: Model)
    requires
        names_apart(e, Set::empty()),
    ensures
        constraint(e) matches Ok(t) ==> term_meaning(t, m) == meaning(
            e,
            by_constants(m),
            m,
            Map::empty(),
        )
            && term_meaning(t, m) is Bool,
{
    if let Ok(t) = constraint(e) {
        lemma_meaning(e, Map::empty(), Map::empty(), m, m, Set::empty());
        lemma_meaning_of_sort(t, m);
    }
}

/// The values that variables have through the expressions that take their place.
pub open spec fn through<R: VarImage>(r: R, x: Assignment, m: Model) -> Assignment {
    |id: SymVarId, sort: SortView| meaning(r.image(id, sort), x, m, Map::empty())
}

/// Whether the expression that takes the place of a variable is of the variable's sort and
/// speaks of no bound variable.
pub open spec fn stands_alone<R: VarImage>(
    r: R,
    x: Assignment,
    m: Model,
    id: SymVarId,
    sort: SortView,
) -> bool {
    &&& of_sort(meaning(r.image(id, sort), x, m, Map::empty()), sort)
    &&& forall|env: Map<BoundVarId, Value>| #[trigger]
        meaning(r.image(id, sort), x, m, env) == meaning(r.image(id, sort), x, m, Map::empty())
}

/// An expression whose variables were replaced means what the expression means where each
/// variable has the value of what took its place.
pub proof fn law_replacing_variables_replaces_their_values<R: VarImage>(
    e: ExprView,
    r: R,
    x: Assignment,
    m: Model,
    env: Map<BoundVarId, Value>,
)
    requires
        all_allowed(e, r),
        forall|id: SymVarId, sort: SortView| #[trigger]
            r.allows(id, sort) ==> stands_alone(r, x, m, id, sort),
    ensures
        meaning(rewritten(e, r), x, m, env) == meaning(e, through(r, x, m), m, env),
    decreases e, 0nat,
{
    match e {
        ExprView::Var { id, sort } => {
            assert(stands_alone(r, x, m, id, sort));
            assert(meaning(r.image(id, sort), x, m, env) == meaning(
                r.image(id, sort),
                x,
                m,
                Map::empty(),
            ));
        },
        ExprView::App { func, args } => {
            let out = rewritten(e, r)->App_args;
            assert forall|i: int| 0 <= i < args.len() implies #[trigger] out[i] == rewritten(
                args[i],
                r,
            ) by {}
            lemma_args_replaced(args, out, r, x, m, env, args.len());
        },
        ExprView::Quantified { is_forall, vars, body } => {
            let y = through(r, x, m);
            let new = rewritten(*body, r);
            assert forall|values: Seq<Value>| #[trigger] fit(values, sorts_of(vars)) implies meaning(
                new,
                x,
                m,
                given(env, vars, values, vars.len()),
            ) == meaning(*body, y, m, given(env, vars, values, vars.len())) by {
                law_replacing_variables_replaces_their_values(
                    *body,
                    r,
                    x,
                    m,
                    given(env, vars, values, vars.len()),
                );
            }
            lemma_quantified_replaced(is_forall, vars, *body, new, x, y, m, env);
        },
        ExprView::Not(a) => {
            law_replacing_variables_replaces_their_values(*a, r, x, m, env);
        },
        ExprView::Binary(_, a, b) => {
            law_replacing_variables_replaces_their_values(*a, r, x, m, env);
            law_replacing_variables_replaces_their_values(*b, r, x, m, env);
        },
        _ => {},
    }
}

proof fn lemma_quantified_replaced(
    is_forall: bool,
    vars: Seq<BoundView>,
    body: ExprView,
    new: ExprView,
    x: Assignment,
    y: Assignment,
    m: Model,
    env: Map<BoundVarId, Value>,
)
    requires
        forall|values: Seq<Value>| #[trigger]
            fit(values, sorts_of(vars)) ==> meaning(
                new,
                x,
                m,
                given(env, vars, values, vars.len()),
            ) == meaning(body, y, m, given(env, vars, values, vars.len())),
    ensures
        meaning(
            (ExprView::Quantified { is_forall, vars, body: Box::new(new) }),
            x,
            m,
            env,
        ) == meaning((ExprView::Quantified { is_forall, vars, body: Box::new(body) }), y, m, env),
{
    let left = meaning(
        (ExprView::Quantified { is_forall, vars, body: Box::new(new) }),
        x,
        m,
        env,
    );
    let right = meaning(
        (ExprView::Quantified { is_forall, vars, body: Box::new(body) }),
        y,
        m,
        env,
    );
    if is_forall {
        assert(left == Value::Bool(
            forall|values: Seq<Value>| #[trigger]
                fit(values, sorts_of(vars)) ==> truth(
                    meaning(new, x, m, given(env, vars, values, vars.len())),
                ),
        ));
        assert(right == Value::Bool(
            forall|values: Seq<Value>| #[trigger]
                fit(values, sorts_of(vars)) ==> truth(
                    meaning(body, y, m, given(env, vars, values, vars.len())),
                ),
        ));
    } else {
        assert(left == Value::Bool(
            exists|values: Seq<Value>| #[trigger]
                fit(values, sorts_of(vars)) && truth(
                    meaning(new, x, m, given(env, vars, values, vars.len())),
                ),
        ));
        assert(right == Value::Bool(
            exists|values: Seq<Value>| #[trigger]
                fit(values, sorts_of(vars)) && truth(
                    meaning(body, y, m, given(env, vars, values, vars.len())),
                ),
        ));
    }
}

proof fn lemma_args_replaced<R: VarImage>(
    args: Seq<ExprView>,
    out: Seq<ExprView>,
    r: R,
    x: Assignment,
    m: Model,
    env: Map<BoundVarId, Value>,
    n: nat,
)
    requires
        n <= args.len() == out.len(),
        forall|i: int| 0 <= i < args.len() ==> all_allowed(#[trigger] args[i], r),
        forall|i: int| 0 <= i < args.len() ==> #[trigger] out[i] == rewritten(args[i], r),
        forall|id: SymVarId, sort: SortView| #[trigger]
            r.allows(id, sort) ==> stands_alone(r, x, m, id, sort),
    ensures
        meanings(out, x, m, env, n) == meanings(args, through(r, x, m), m, env, n),
    decreases args, n,
{
    if n > 0 {
        lemma_args_replaced(args, out, r, x, m, env, (n - 1) as nat);
        law_replacing_variables_replaces_their_values(args[n - 1], r, x, m, env);
        assert(out[n - 1] == rewritten(args[n - 1], r));
    }
}

/// Whether a text can be a name for the solver: it is not empty and holds no NUL character.
pub open spec fn is_name(text: Seq<char>) -> bool {
    text.len() > 0 && forall|i: int| 0 <= i < text.len() ==> #[trigger] text[i] != '\0'
}

/// Whether a sort can be declared.
pub open spec fn is_sort(sort: SortView) -> bool {
    sort matches SortView::Uninterpreted(name) ==> is_name(name)
}

/// The sorts of bound variables, with `vars[..n]` bound.
pub open spec fn sorts_with(
    known: Map<BoundVarId, SortView>,
    vars: Seq<BoundView>,
    n: nat,
) -> Map<BoundVarId, SortView>
    decreases n,
{
    if n == 0 {
        known
    } else {
        sorts_with(known, vars, (n - 1) as nat).insert(vars[n - 1].id, vars[n - 1].sort)
    }
}

/// Whether an expression is well formed where the given variables are bound: operands and
/// arguments are of the sorts that they must have, bound variables are used within their
/// quantifier, each is bound by one quantifier, and all names can be names for the solver.
pub open spec fn well_formed(e: ExprView, known: Map<BoundVarId, SortView>) -> bool
    decreases e,
{
    match e {
        ExprView::Var { sort, .. } => is_sort(sort),
        ExprView::BoundVar { id, sort, .. } => known.contains_key(id) && known[id] == sort,
        ExprView::Bool(_) => true,
        ExprView::Int(_) => true,
        ExprView::App { func, args } => {
            &&& func.domain.len() == args.len() <= u32::MAX
            &&& is_name(func.name) && is_sort(func.range)
            &&& forall|i: int|
                0 <= i < args.len() ==> well_formed(#[trigger] args[i], known) && sort_of(args[i])
                    == func.domain[i] && is_sort(func.domain[i])
        },
        ExprView::Quantified { vars, body, .. } => {
            &&& vars.len() <= u32::MAX
            &&& forall|i: int|
                0 <= i < vars.len() ==> !known.contains_key((#[trigger] vars[i]).id) && is_sort(
                    vars[i].sort,
                ) && (vars[i].name.len() == 0 || is_name(vars[i].name))
            &&& well_formed(*body, sorts_with(known, vars, vars.len()))
            &&& sort_of(*body) == SortView::Bool
        },
        ExprView::Not(a) => well_formed(*a, known) && sort_of(*a) == SortView::Bool,
        ExprView::Binary(op, a, b) => {
            &&& well_formed(*a, known) && well_formed(*b, known)
            &&& match op {
                BinOp::And | BinOp::Or | BinOp::Implies => sort_of(*a) == SortView::Bool && sort_of(
                    *b,
                ) == SortView::Bool,
                BinOp::Eq => sort_of(*a) == sort_of(*b),
                _ => sort_of(*a) == SortView::Int && sort_of(*b) == SortView::Int,
            }
        },
    }
}

/// Texts without a NUL character joined have none.
proof fn lemma_joined_without_nul(a: Seq<char>, b: Seq<char>)
    requires
        !has_nul(a),
        !has_nul(b),
    ensures
        !has_nul(a + b),
{
    if has_nul(a + b) {
        let i = choose|i: int| 0 <= i < (a + b).len() && #[trigger] (a + b)[i] == '\0';
        if i < a.len() {
            assert(a[i] == '\0');
        } else {
            assert(b[i - a.len()] == '\0');
        }
    }
}

proof fn lemma_digits_without_nul(n: nat)
    ensures
        !has_nul(decimal_of(n)),
{
    lemma_decimal_digits(n);
    if has_nul(decimal_of(n)) {
        let i = choose|i: int| 0 <= i < decimal_of(n).len() && #[trigger] decimal_of(n)[i] == '\0';
        assert(is_digit(decimal_of(n)[i]));
    }
}

/// The names of constants can be names for the solver.
proof fn lemma_constant_names(id: SymVarId, sort: SortView)
    ensures
        var_text(id, sort).len() > 0,
        !has_nul(var_text(id, sort)),
{
    reveal_strlit("sym_b_");
    reveal_strlit("sym_i_");
    reveal_strlit("sym_u_");
    reveal_strlit("exec_");
    reveal_strlit("input_");
    reveal_strlit("local_");
    reveal_strlit("t");
    reveal_strlit("_");
    let p = match sort {
        SortView::Bool => "sym_b_"@,
        SortView::Int => "sym_i_"@,
        SortView::Uninterpreted(_) => "sym_u_"@,
    };
    match id.0 {
        SymVarKind::Execution(e) => {
            lemma_digits_without_nul(e.thread.id as nat);
            lemma_digits_without_nul(e.index as nat);
            lemma_joined_without_nul("t"@, decimal_of(e.thread.id as nat));
            lemma_joined_without_nul("exec_"@, thread_text(e.thread));
            lemma_joined_without_nul("exec_"@ + thread_text(e.thread), "_"@);
            lemma_joined_without_nul(
                "exec_"@ + thread_text(e.thread) + "_"@,
                decimal_of(e.index as nat),
            );
        },
        SymVarKind::SummaryInput(i) => {
            lemma_digits_without_nul(i as nat);
            lemma_joined_without_nul("input_"@, decimal_of(i as nat));
        },
        SymVarKind::SummaryLocal(i) => {
            lemma_digits_without_nul(i as nat);
            lemma_joined_without_nul("local_"@, decimal_of(i as nat));
        },
    }
    lemma_joined_without_nul(p, solver_text(id));
}

proof fn lemma_bound_name(v: BoundView)
    requires
        v.name.len() == 0 || is_name(v.name),
    ensures
        bound_text(v).len() > 0,
        !has_nul(bound_text(v)),
{
    reveal_strlit("q_");
    reveal_strlit("_");
    lemma_digits_without_nul(v.id.scope as nat);
    lemma_digits_without_nul(v.id.index as nat);
    let a = "q_"@ + v.name;
    lemma_joined_without_nul("q_"@, v.name);
    lemma_joined_without_nul(a, "_"@);
    lemma_joined_without_nul(a + "_"@, decimal_of(v.id.scope as nat));
    lemma_joined_without_nul(a + "_"@ + decimal_of(v.id.scope as nat), "_"@);
    lemma_joined_without_nul(
        a + "_"@ + decimal_of(v.id.scope as nat) + "_"@,
        decimal_of(v.id.index as nat),
    );
}

proof fn lemma_no_bounds_fault(vars: Seq<BoundView>, n: nat)
    requires
        n <= vars.len(),
        forall|i: int|
            0 <= i < vars.len() ==> is_sort((#[trigger] vars[i]).sort) && (vars[i].name.len() == 0
                || is_name(vars[i].name)),
    ensures
        bounds_fault(vars, n) is None,
    decreases n,
{
    if n > 0 {
        lemma_no_bounds_fault(vars, (n - 1) as nat);
        lemma_bound_name(vars[n - 1]);
    }
}

proof fn lemma_no_sorts_fault(sorts: Seq<SortView>, n: nat)
    requires
        n <= sorts.len(),
        forall|i: int| 0 <= i < sorts.len() ==> is_sort(#[trigger] sorts[i]),
    ensures
        sorts_fault(sorts, n) is None,
    decreases n,
{
    if n > 0 {
        lemma_no_sorts_fault(sorts, (n - 1) as nat);
        assert(is_sort(sorts[n - 1]));
    }
}

proof fn lemma_no_difference(a: Seq<SortView>, b: Seq<SortView>, n: nat)
    requires
        n <= a.len(),
        n <= b.len(),
        forall|i: int| 0 <= i < n ==> #[trigger] a[i] == b[i],
    ensures
        first_difference(a, b, n) is None,
    decreases n,
{
    if n > 0 {
        lemma_no_difference(a, b, (n - 1) as nat);
        assert(a[n - 1] == b[n - 1]);
    }
}

/// Whether the constants of bound variables are of the sorts of the variables.
spec fn sorts_known(terms: EnvView, known: Map<BoundVarId, SortView>) -> bool {
    &&& forall|id: BoundVarId| #[trigger] terms.contains_key(id) == known.contains_key(id)
    &&& forall|id: BoundVarId| #[trigger]
        terms.contains_key(id) ==> term_sort(terms[id]) == known[id]
}

proof fn lemma_sorts_known(
    terms: EnvView,
    known: Map<BoundVarId, SortView>,
    vars: Seq<BoundView>,
    n: nat,
)
    requires
        n <= vars.len(),
        sorts_known(terms, known),
    ensures
        sorts_known(bind(terms, vars, n), sorts_with(known, vars, n)),
    decreases n,
{
    if n > 0 {
        lemma_sorts_known(terms, known, vars, (n - 1) as nat);
    }
}

proof fn lemma_compiles(e: ExprView, terms: EnvView, known: Map<BoundVarId, SortView>)
    requires
        well_formed(e, known),
        sorts_known(terms, known),
    ensures
        compiled(e, terms) matches Ok(c) && c.env == terms && term_sort(c.term) == sort_of(e),
    decreases e, 0nat,
{
    match e {
        ExprView::Var { id, sort } => {
            lemma_constant_names(id, sort);
        },
        ExprView::BoundVar { id, .. } => {
            assert(terms.contains_key(id));
        },
        ExprView::App { func, args } => {
            lemma_args_compile(args, terms, known, args.len());
            lemma_no_difference(func.domain, claimed_sorts(args), args.len());
            assert forall|i: int| 0 <= i < func.domain.len() implies is_sort(
                #[trigger] func.domain[i],
            ) by {
                assert(well_formed(args[i], known));
            }
            lemma_no_sorts_fault(func.domain, func.domain.len());
            let c = compiled_args(args, terms, args.len())->Ok_0;
            lemma_no_difference(func.domain, term_sorts(c.terms), args.len());
            assert(!has_nul(func.name));
        },
        ExprView::Quantified { vars, body, .. } => {
            let inner = bind(terms, vars, vars.len());
            lemma_no_bounds_fault(vars, vars.len());
            lemma_sorts_known(terms, known, vars, vars.len());
            lemma_compiles(*body, inner, sorts_with(known, vars, vars.len()));
            let after = unbind(inner, vars, vars.len());
            assert(after =~= terms) by {
                assert forall|id: BoundVarId| after.contains_key(id) == terms.contains_key(id) && (
                after.contains_key(id) ==> after[id] == terms[id]) by {
                    lemma_unbind(inner, vars, id, vars.len());
                    lemma_last_bound(terms, Map::empty(), vars, Seq::empty(), id, vars.len());
                    let k = last_bound(vars, id, vars.len());
                    if k > 0 {
                        assert(!known.contains_key(vars[k - 1].id));
                        assert(terms.contains_key(id) == known.contains_key(id));
                    }
                }
            }
        },
        ExprView::Not(a) => {
            lemma_compiles(*a, terms, known);
        },
        ExprView::Binary(_, a, b) => {
            lemma_compiles(*a, terms, known);
            lemma_compiles(*b, terms, known);
        },
        _ => {},
    }
}

proof fn lemma_args_compile(
    args: Seq<ExprView>,
    terms: EnvView,
    known: Map<BoundVarId, SortView>,
    n: nat,
)
    requires
        n <= args.len(),
        forall|i: int| 0 <= i < args.len() ==> well_formed(#[trigger] args[i], known),
        sorts_known(terms, known),
    ensures
        compiled_args(args, terms, n) matches Ok(c) && c.env == terms && c.terms.len() == n
            && forall|i: int| 0 <= i < n ==> term_sort(#[trigger] c.terms[i]) == sort_of(args[i]),
    decreases args, n,
{
    if n > 0 {
        lemma_args_compile(args, terms, known, (n - 1) as nat);
        lemma_compiles(args[n - 1], terms, known);
        let before = compiled_args(args, terms, (n - 1) as nat)->Ok_0;
        let c = compiled_args(args, terms, n)->Ok_0;
        assert forall|i: int| 0 <= i < n implies term_sort(#[trigger] c.terms[i]) == sort_of(
            args[i],
        ) by {
            if i < n - 1 {
                assert(c.terms[i] == before.terms[i]);
            }
        }
    }
}

/// Every well-formed expression that is a truth value is a constraint.
pub proof fn law_well_formed_constraints_are_accepted(e: ExprView)
    requires
        well_formed(e, Map::empty()),
        sort_of(e) == SortView::Bool,
    ensures
        constraint(e) is Ok,
{
    lemma_compiles(e, Map::empty(), Map::empty());
}

/// A constraint has the operator of its expression at its root, and below it what its
/// operands are compiled to, in their order.
pub proof fn law_constraints_have_the_shape_of_their_expressions(
    op: BinOp,
    a: ExprView,
    b: ExprView,
    terms: EnvView,
)
    ensures
        compiled((ExprView::Binary(op, Box::new(a), Box::new(b))), terms) matches Ok(c) ==> {
            &&& compiled(a, terms) matches Ok(x)
            &&& compiled(b, compiled(a, terms)->Ok_0.env) matches Ok(y)
            &&& c.term == TermView::Binary(op, Box::new(x.term), Box::new(y.term))
        },
        compiled((ExprView::Not(Box::new(a))), terms) matches Ok(c) ==> (compiled(a, terms)
            matches Ok(x) && c.term == TermView::Not(Box::new(x.term))),
{
}

} // verus!
