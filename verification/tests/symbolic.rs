use traceforge::event::{construct_thread_id, main_thread_id, Event};
use traceforge::event_label::BlockType;
use traceforge::symbolic::events;
use traceforge::symbolic::events::ConstraintKind;
use traceforge::symbolic::expr::{
    bool_val, constant, for_all, int_val, predicate, there_exists, uf, uninterpreted_sort,
    BoundVarId, BoundVars, KeepVars, SymExpr, SymSort, SymVarId,
};
use traceforge::symbolic::solver::{CompileError, SolveError, SymbolicSolver};

fn x() -> SymExpr {
    SymExpr::summary_local(0, SymSort::Int)
}

fn y() -> SymExpr {
    SymExpr::summary_local(1, SymSort::Int)
}

fn p() -> SymExpr {
    SymExpr::summary_input(0, SymSort::Bool)
}

fn sat(e: SymExpr) -> bool {
    SymbolicSolver::new().sat_with(&e).unwrap()
}

fn valid(e: SymExpr) -> bool {
    !SymbolicSolver::new().sat_with_not(&e).unwrap()
}

#[test]
fn truth_values_are_told_apart() {
    assert!(sat(bool_val(true)));
    assert!(!sat(bool_val(false)));
    assert!(sat(p()));
    assert!(sat(p().not()));
    assert!(!sat(p().and(p().not())));
    assert!(valid(p().or(p().not())));
    assert!(valid(p().implies(p())));
    assert!(!valid(p().or(bool_val(false))));
    assert!(!valid(bool_val(true).implies(p())));
}

#[test]
fn comparisons_mean_what_they_say() {
    assert!(valid(int_val(3).gt(int_val(2))));
    assert!(!sat(int_val(2).gt(int_val(2))));
    assert!(valid(int_val(2).ge(int_val(2))));
    assert!(!sat(int_val(1).ge(int_val(2))));
    assert!(valid(int_val(1).lt(int_val(2))));
    assert!(!sat(int_val(2).lt(int_val(2))));
    assert!(valid(int_val(2).le(int_val(2))));
    assert!(!sat(int_val(3).le(int_val(2))));
    assert!(valid(x().equals(x())));
    assert!(sat(x().equals(y())));
    assert!(!valid(x().equals(y())));
}

#[test]
fn arithmetic_means_what_it_says() {
    assert!(valid((int_val(3) + int_val(4)).equals(int_val(7))));
    assert!(valid((int_val(3) - int_val(4)).equals(int_val(-1))));
    assert!(valid((int_val(3) * int_val(4)).equals(int_val(12))));
    assert!(valid((int_val(7) / int_val(2)).equals(int_val(3))));
    assert!(valid((int_val(7) % int_val(2)).equals(int_val(1))));
    assert!(valid((int_val(-7) % int_val(2)).equals(int_val(1))));
    assert!(valid((x() + 1).gt(x())));
    assert!(valid((1 + x()).equals(x() + 1)));
    assert!(valid((x() - 1).lt(x())));
    assert!(valid((2 - x()).equals(int_val(2).sub(x()))));
    assert!(valid((x() * 2).equals(x() + x())));
    assert!(valid((2 * x()).equals(x().mul(int_val(2)))));
    assert!(valid((x() / 1).equals(x())));
    assert!(valid((8 / int_val(2)).equals(int_val(8).div(int_val(2)))));
    assert!(valid((x() % 1).equals(int_val(0))));
    assert!(valid((9 % int_val(5)).equals(int_val(9).rem(int_val(5)))));
}

#[test]
fn variables_differ_by_their_names() {
    let pos = Event::new(construct_thread_id(2), 5);
    let (a, recorded) = events::fresh_int(pos, None);
    let (b, _) = events::fresh_int(Event::new(construct_thread_id(2), 6), None);
    assert!(sat(a.clone().equals(b).not()));
    assert!(!sat(a.clone().equals(a).not()));
    assert_eq!(recorded.pos, pos);
    assert!(matches!(recorded.sort, SymSort::Int));
    let (c, _) = events::fresh_bool(pos, None);
    assert!(matches!(c.sort(), SymSort::Bool));
    let (d, _) = events::fresh_uninterpreted(pos, None, "Key");
    assert!(d.sort().same(&uninterpreted_sort("Key")));
    let (e, _) = events::fresh(pos, None, SymSort::Int);
    assert!(matches!(e.sort(), SymSort::Int));
    assert!(SymVarId::summary_input(3).input_index() == Some(3));
    assert!(SymVarId::summary_local(3).input_index().is_none());
    assert!(SymVarId::summary_local(4).local_index() == Some(4));
    assert!(SymVarId::from_event(pos).local_index().is_none());
    assert!(SymVarId::from_event(pos).solver_name() != SymVarId::summary_input(5).solver_name());
}

#[test]
fn uninterpreted_functions_are_functions() {
    let key = uninterpreted_sort("Key");
    let f = uf("f", &vec![key.clone()], SymSort::Int);
    let a = constant("a", key.clone());
    let b = constant("b", key.clone());
    let fa = f.apply(vec![a.clone()]);
    let fb = f.apply(vec![b.clone()]);
    assert!(valid(a.clone().equals(b.clone()).implies(fa.clone().equals(fb.clone()))));
    assert!(!valid(fa.equals(fb).implies(a.clone().equals(b))));
    let q = predicate("q", &vec![key]);
    assert!(sat(q.apply(vec![a.clone()])));
    assert!(!sat(q.apply(vec![a.clone()]).and(q.apply(vec![a]).not())));
    assert_eq!(f.name(), "f");
    assert_eq!(f.domain().len(), 1);
    assert!(matches!(f.range(), SymSort::Int));
    assert!(!f.same(&q));
}

#[test]
fn quantifiers_bind_their_variables() {
    let int = |name: &str| (name.to_string(), SymSort::Int);
    assert!(valid(for_all(vec![int("n")], |v| (v.get("n") + 1).gt(v.get("n")))));
    assert!(!sat(for_all(vec![int("n")], |v| v.get("n").gt(int_val(0)))));
    assert!(valid(there_exists(vec![int("n")], |v| v.get("n").gt(int_val(0)))));
    assert!(!sat(there_exists(vec![int("n")], |v| v.get("n").lt(v.get("n")))));
    assert!(valid(for_all(vec![int("n")], |v| {
        v.there_exists(vec![int("m")], |w| w.get("m").gt(w.get("n")))
    })));
    assert!(!sat(there_exists(vec![int("n")], |v| {
        v.for_all(vec![int("m")], |w| w.get("n").gt(w.get("m")))
    })));
    assert!(BoundVars::new().find("n").is_none());
}

#[test]
fn inner_variables_hide_outer_ones() {
    let int = |name: &str| (name.to_string(), SymSort::Int);
    let e = for_all(vec![int("n")], |v| {
        v.there_exists(vec![int("n")], |w| w.get("n").equals(int_val(5)))
    });
    assert!(valid(e));
}

#[test]
fn quantifiers_have_numbers_of_their_own() {
    let int = |name: &str| (name.to_string(), SymSort::Int);
    let mut ids = Vec::new();
    let mut note = |e: SymExpr| {
        if let SymExpr::BoundVar { id, .. } = &e {
            ids.push((id.scope(), id.index()));
        }
        e
    };
    let e = for_all(vec![int("n"), int("m")], |v| {
        let left = v.there_exists(vec![int("n")], |w| {
            let inner = note(w.get("n"));
            inner.equals(note(w.get("m")))
        });
        let right = v.there_exists(vec![int("n")], |w| note(w.get("n")).equals(int_val(0)));
        note(v.get("n"));
        left.and(right)
    });
    assert_eq!(ids, vec![(1, 0), (0, 1), (2, 0), (0, 0)]);
    assert!(valid(e));
}

#[test]
fn constraints_gather_until_they_are_taken_back() {
    let mut s = SymbolicSolver::new();
    assert_eq!(s.is_sat(), Ok(true));
    s.assert_expr(&x().gt(int_val(3))).unwrap();
    s.assert_not(&x().gt(int_val(4))).unwrap();
    assert_eq!(s.is_sat(), Ok(true));
    assert_eq!(s.sat_with(&x().equals(int_val(4))), Ok(true));
    assert_eq!(s.sat_with_not(&x().equals(int_val(4))), Ok(false));
    assert_eq!(s.sat_with(&x().equals(int_val(5))), Ok(false));
    assert_eq!(s.is_sat(), Ok(true));
    s.assert_expr(&x().equals(int_val(5))).unwrap();
    assert_eq!(s.is_sat(), Ok(false));
    s.reset();
    assert_eq!(s.is_sat(), Ok(true));
    assert_eq!(s.sat_with(&x().equals(int_val(5))), Ok(true));
}

#[test]
fn what_is_no_constraint_is_refused() {
    let mut s = SymbolicSolver::new();
    assert_eq!(s.assert_expr(&int_val(3)), Err(CompileError::ExpectedBool));
    assert_eq!(s.assert_not(&int_val(3)), Err(CompileError::ExpectedBool));
    assert_eq!(
        s.sat_with(&int_val(3).and(p())),
        Err(SolveError::Compile(CompileError::ExpectedBool))
    );
    assert_eq!(
        s.sat_with_not(&p().gt(int_val(1))),
        Err(SolveError::Compile(CompileError::ExpectedInt))
    );
    assert_eq!(s.assert_expr(&x().equals(p())), Err(CompileError::SortsDiffer));
    assert_eq!(
        s.assert_expr(&(x() + p()).equals(x())),
        Err(CompileError::IntOperands)
    );
    let int = |name: &str| (name.to_string(), SymSort::Int);
    assert_eq!(
        s.assert_expr(&for_all(vec![int("n")], |v| v.get("n"))),
        Err(CompileError::BodyNotBool)
    );
    let mut loose = int_val(0);
    for_all(vec![int("n")], |v| {
        loose = v.get("n");
        bool_val(true)
    });
    assert_eq!(
        s.assert_expr(&loose.equals(int_val(1))),
        Err(CompileError::Unbound(BoundVarId { scope: 0, index: 0 }))
    );
    let f = predicate("q", &vec![SymSort::Int]);
    assert_eq!(s.assert_expr(&f.apply(vec![])), Err(CompileError::WrongArity(1, 0)));
    assert_eq!(s.assert_expr(&f.apply(vec![p()])), Err(CompileError::WrongArgument(0)));
    assert_eq!(
        s.assert_expr(&constant("a\u{0}b", SymSort::Bool)),
        Err(CompileError::NulInName)
    );
    assert_eq!(s.assert_expr(&constant("", SymSort::Bool)), Err(CompileError::EmptyName));
    let nowhere = uninterpreted_sort("");
    assert_eq!(
        s.assert_expr(&constant("a", nowhere.clone()).equals(constant("a", nowhere.clone()))),
        Err(CompileError::EmptyName)
    );
    assert_eq!(
        s.assert_expr(&for_all(vec![("n".to_string(), nowhere)], |_| bool_val(true))),
        Err(CompileError::EmptyName)
    );
    assert_eq!(s.assert_expr(&for_all(vec![int("")], |v| v.get("").equals(v.get("")))), Ok(()));
    assert_eq!(s.is_sat(), Ok(true));
}

#[test]
fn rewriting_without_changes_keeps_the_expression() {
    let e = (x() + 1).gt(y()).and(p());
    assert!(e.rewrite_vars(&KeepVars {}).unwrap().same(&e));
    assert!(!e.same(&p()));
}

#[test]
fn constraints_are_recorded_and_blocked() {
    let pos = Event::new(main_thread_id(), 4);
    let e = events::eval(pos, None, p());
    assert!(e.kind == ConstraintKind::Branch);
    let e = events::fixed_constraint(pos, None, p());
    assert!(e.kind == ConstraintKind::FixedAssumption);
    assert_eq!(events::assume_expr(true), None);
    assert_eq!(events::assume_expr(false), Some(BlockType::Assume));
    assert_eq!(events::assert_expr(true), None);
    assert_eq!(events::assert_expr(false), Some(BlockType::Assert));
}
