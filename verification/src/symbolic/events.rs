//! The events by which a program creates symbolic values and constrains them.

use super::expr::{ExprView, SortView, SymExpr, SymSort, SymVarId, SymVarKind};
use crate::event::Event;
use crate::event_label::BlockType;
use crate::summarizable::participants::SummarizableCallId;
use vstd::prelude::*;
use vstd::string::*;

verus! {

/// The creation of a symbolic variable, within the call `owner` where there is one.
pub struct SymbolicVar {
    pub pos: Event,
    pub id: SymVarId,
    pub sort: SymSort,
    pub owner: Option<SummarizableCallId>,
}

/// How a constraint came about.
#[derive(Clone, Copy, Debug, PartialEq, Eq, Structural)]
pub enum ConstraintKind {
    /// The program branches on it.
    Branch,
    /// It must hold.
    FixedAssumption,
}

/// The evaluation of a constraint.
pub struct ConstraintEval {
    pub pos: Event,
    pub expr: SymExpr,
    pub value: bool,
    pub kind: ConstraintKind,
    pub owner: Option<SummarizableCallId>,
}

/// The variable that the event at `pos` creates.
pub open spec fn var_at(pos: Event, sort: SortView) -> ExprView {
    ExprView::Var { id: SymVarId(SymVarKind::Execution(pos)), sort }
}

/// Whether `label` is the creation of a variable of the given sort at `pos`.
pub open spec fn creates(
    label: SymbolicVar,
    pos: Event,
    sort: SortView,
    owner: Option<SummarizableCallId>,
) -> bool {
    &&& label.pos == pos
    &&& label.id == SymVarId(SymVarKind::Execution(pos))
    &&& label.sort@ == sort
    &&& label.owner == owner
}

/// A new integer.
pub fn fresh_int(pos: Event, owner: Option<SummarizableCallId>) -> (r: (SymExpr, SymbolicVar))
    ensures
        r.0@ == var_at(pos, SortView::Int),
        creates(r.1, pos, SortView::Int, owner),
{
    fresh(pos, owner, SymSort::Int)
}

/// A new truth value.
pub fn fresh_bool(pos: Event, owner: Option<SummarizableCallId>) -> (r: (SymExpr, SymbolicVar))
    ensures
        r.0@ == var_at(pos, SortView::Bool),
        creates(r.1, pos, SortView::Bool, owner),
{
    fresh(pos, owner, SymSort::Bool)
}

/// A new value of an uninterpreted sort.
pub fn fresh_uninterpreted(pos: Event, owner: Option<SummarizableCallId>, name: &str) -> (r: (
    SymExpr,
    SymbolicVar,
))
    ensures
        r.0@ == var_at(pos, SortView::Uninterpreted(name@)),
        creates(r.1, pos, SortView::Uninterpreted(name@), owner),
{
    fresh(pos, owner, SymSort::Uninterpreted(String::from_str(name)))
}

/// A new value: the event at `pos` creates its variable.
pub fn fresh(pos: Event, owner: Option<SummarizableCallId>, sort: SymSort) -> (r: (
    SymExpr,
    SymbolicVar,
))
    ensures
        r.0@ == var_at(pos, sort@),
        creates(r.1, pos, sort@, owner),
{
    let id = SymVarId::from_event(pos);
    let label = SymbolicVar { pos, id, sort: sort.clone(), owner };
    (SymExpr::Var { id, sort }, label)
}

/// Two variables that different events create are different.
pub proof fn law_fresh_variables_differ(a: Event, b: Event, s: SortView, t: SortView)
    requires
        a != b,
    ensures
        var_at(a, s) != var_at(b, t),
{
}

/// The event by which the program branches on a constraint.
pub fn eval(pos: Event, owner: Option<SummarizableCallId>, sym_expr: SymExpr) -> (e: ConstraintEval)
    ensures
        e == (ConstraintEval {
            pos,
            expr: sym_expr,
            value: true,
            kind: ConstraintKind::Branch,
            owner,
        }),
{
    ConstraintEval { pos, expr: sym_expr, value: true, kind: ConstraintKind::Branch, owner }
}

/// The event by which the constraint of a selected outcome is assumed.
pub fn fixed_constraint(pos: Event, owner: Option<SummarizableCallId>, sym_expr: SymExpr) -> (e:
    ConstraintEval)
    ensures
        e == (ConstraintEval {
            pos,
            expr: sym_expr,
            value: true,
            kind: ConstraintKind::FixedAssumption,
            owner,
        }),
{
    ConstraintEval {
        pos,
        expr: sym_expr,
        value: true,
        kind: ConstraintKind::FixedAssumption,
        owner,
    }
}

/// How a thread blocks after it assumed a constraint with the given value.
pub fn assume_expr(ok: bool) -> (b: Option<BlockType>)
    ensures
        b == (if ok {
            None::<BlockType>
        } else {
            Some(BlockType::Assume)
        }),
{
    if ok {
        None
    } else {
        Some(BlockType::Assume)
    }
}

/// How a thread blocks after it asserted a constraint with the given value.
pub fn assert_expr(ok: bool) -> (b: Option<BlockType>)
    ensures
        b == (if ok {
            None::<BlockType>
        } else {
            Some(BlockType::Assert)
        }),
{
    if ok {
        None
    } else {
        Some(BlockType::Assert)
    }
}

} // verus!
