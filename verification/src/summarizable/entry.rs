//! How a thread enters a summarizable function and leaves it.

use super::erased::{is_value, ErasedView, SummarizableArguments};
use super::outcome::{materialized, outcomes_view, value_of, CondView, OutcomeView, ResultView, SummaryResult};
use super::participants::{
    normal_form, resolver_of, CallView, PartView, ParticipationMode, Participants,
    SummarizableCallHandle, SummarizableCallId, SummarizableFunctionDescriptor, SummaryDispatch,
};
use super::rendezvous::{
    offers_view, parent_view, OfferIdView, OfferView, ParticipationGrant, ParticipationOffer,
};
use super::runtime::{
    choices, count_of, nested_fault, one_more, open_choices, runtime_ok, with_state, CallFault,
    EntryAction, ModeView, RuntimeView, StateView, SummarizationRuntime,
};
use super::value::SummarizableVal;
use crate::assoc::SameAs;
use crate::event::{Event, ThreadId};
use crate::symbolic::expr::{exprs_view, ExprView, SymExpr};
use vstd::prelude::*;
use vstd::string::*;

verus! {

/// Why an offer is not made.
#[derive(Clone, Copy, Debug, PartialEq, Eq, Structural)]
pub enum EntryFault {
    /// A thread joins itself.
    JoinsItself,
    /// The demands do not fit the call around.
    Nested(CallFault),
    /// The grant answers another offer.
    WrongGrant,
    /// The grant is for another function.
    WrongFunction,
    /// The request about the call is refused.
    Call(CallFault),
    /// A value of the outcome has no instance.
    NoInstance,
    /// The outcome has no value for the thread.
    NoReturn,
    /// The value is of another type.
    WrongType,
    /// The outcome is one that no participant can apply.
    AssumptionFailed,
}

/// Makes the offer of a thread that enters a function.
pub fn make_offer(
    runtime: &mut SummarizationRuntime,
    descriptor: SummarizableFunctionDescriptor,
    specification: Participants,
    arguments: SummarizableArguments,
    tid: ThreadId,
    depth: usize,
    parent: Option<SummarizableCallId>,
) -> (r: Result<ParticipationOffer, EntryFault>)
    requires
        runtime_ok(old(runtime)@),
    ensures
        runtime_ok(final(runtime)@),
        r matches Err(f) ==> final(runtime)@ == old(runtime)@,
        specification@.mode == ParticipationMode::Join(tid) ==> r == Err::<
            ParticipationOffer,
            EntryFault,
        >(EntryFault::JoinsItself),
        specification@.mode != ParticipationMode::Join(tid) ==> exists|p: PartView| #[trigger]
            normal_form(specification@, tid, p) && (match nested_fault(
                old(runtime)@,
                parent_view(parent),
                tid,
                p,
            ) {
                Some(f) => r == Err::<ParticipationOffer, EntryFault>(EntryFault::Nested(f)),
                None => r matches Ok(o) && o@ == (OfferView {
                    id: OfferIdView {
                        function: descriptor.name@,
                        participant: tid,
                        occurrence: count_of(
                            old(runtime)@.next_offer_occurrence,
                            (tid, descriptor.name@),
                        ),
                    },
                    resolver: resolver_of(specification@, tid),
                    function: descriptor.name@,
                    depth,
                    parent: parent_view(parent),
                    specification: p,
                    arguments: arguments@,
                }) && final(runtime)@ == (RuntimeView {
                    next_offer_occurrence: old(runtime)@.next_offer_occurrence.insert(
                        (tid, descriptor.name@),
                        one_more(o@.id.occurrence),
                    ),
                    ..old(runtime)@
                }),
            }),
{
    match specification.mode() {
        ParticipationMode::Join(resolver) => {
            if resolver == tid {
                return Err(EntryFault::JoinsItself);
            }
        },
        ParticipationMode::Resolve => {},
    }
    let mut specification = specification;
    specification.normalize_for(tid);
    match runtime.validate_nested_specification(&parent, tid, &specification) {
        Some(f) => return Err(EntryFault::Nested(f)),
        None => {},
    }
    let resolver = specification.resolver(tid);
    let id = runtime.allocate_offer_id(tid, descriptor.id());
    Ok(
        ParticipationOffer {
            id,
            resolver,
            function: descriptor.id(),
            depth,
            parent,
            specification,
            arguments,
        },
    )
}

/// Whether a grant answers an offer.
pub fn check_grant(offer: &ParticipationOffer, grant: &ParticipationGrant) -> (r: Option<
    EntryFault,
>)
    ensures
        r == (if grant.offer@ != offer@.id {
            Some(EntryFault::WrongGrant)
        } else if grant.call@.function != offer@.function {
            Some(EntryFault::WrongFunction)
        } else {
            None
        }),
{
    if !grant.offer.same(&offer.id) {
        Some(EntryFault::WrongGrant)
    } else if !grant.call.function.same(&offer.function) {
        Some(EntryFault::WrongFunction)
    } else {
        None
    }
}

/// Those of the first `n` offers that a resolver grants: all but its own.
pub open spec fn granted(offers: Seq<OfferView>, own: ThreadId, n: nat) -> Seq<OfferIdView>
    decreases n,
{
    if n == 0 {
        Seq::empty()
    } else {
        let before = granted(offers, own, (n - 1) as nat);
        if offers[n - 1].id.participant == own {
            before
        } else {
            before.push(offers[n - 1].id)
        }
    }
}

/// The offers that grants answer.
pub open spec fn grant_offers(grants: Seq<ParticipationGrant>) -> Seq<OfferIdView> {
    Seq::new(grants.len(), |i: int| grants[i].offer@)
}

/// The grants that a resolver sends to the other members of its group.
pub fn grants(
    selected: &Vec<ParticipationOffer>,
    own: ThreadId,
    call: &SummarizableCallId,
) -> (r: Vec<ParticipationGrant>)
    ensures
        grant_offers(r@) == granted(offers_view(selected@), own, selected@.len()),
        forall|k: int| 0 <= k < r@.len() ==> (#[trigger] r@[k]).call@ == call@,
{
    let ghost views = offers_view(selected@);
    let mut r: Vec<ParticipationGrant> = Vec::new();
    assert(grant_offers(r@) =~= granted(views, own, 0));
    let mut i: usize = 0;
    while i < selected.len()
        invariant
            i <= selected@.len(),
            views == offers_view(selected@),
            grant_offers(r@) == granted(views, own, i as nat),
            forall|k: int| 0 <= k < r@.len() ==> (#[trigger] r@[k]).call@ == call@,
        decreases selected.len() - i,
    {
        assert(views[i as int] == selected@[i as int]@);
        if selected[i].id.participant != own {
            let ghost before = r@;
            let grant = ParticipationGrant { offer: selected[i].id.clone(), call: call.clone() };
            let ghost id = grant.offer@;
            r.push(grant);
            assert(grant_offers(r@) =~= grant_offers(before).push(id));
        }
        i += 1;
    }
    r
}

/// What a thread does next at the entry of a call.
pub enum EntryStep {
    /// It waits until it is woken, and arrives again.
    Wait,
    /// It enters the call.
    Enter(SummaryDispatch),
    /// It selects an outcome for all participants.
    Select(SummarizableCallHandle),
}

/// What a thread does next, after it has arrived.
pub fn after_arrival(action: EntryAction) -> (s: EntryStep)
    ensures
        match action {
            EntryAction::WaitForParticipants => s is Wait,
            EntryAction::ExecuteBody { handle, arguments } => s == EntryStep::Enter(
                SummaryDispatch::ExecuteBody { handle, arguments },
            ),
            EntryAction::ApplySummary(handle) => s == EntryStep::Enter(
                SummaryDispatch::ApplySummary(handle),
            ),
            EntryAction::SelectSummaryOutcome { handle } => s == EntryStep::Select(handle),
        },
{
    match action {
        EntryAction::WaitForParticipants => EntryStep::Wait,
        EntryAction::ExecuteBody { handle, arguments } => EntryStep::Enter(
            SummaryDispatch::ExecuteBody { handle, arguments },
        ),
        EntryAction::ApplySummary(handle) => EntryStep::Enter(
            SummaryDispatch::ApplySummary(handle),
        ),
        EntryAction::SelectSummaryOutcome { handle } => EntryStep::Select(handle),
    }
}

/// What a participant that selects an outcome does first.
#[derive(Clone, Copy, Debug, PartialEq, Eq, Structural)]
pub enum Selection {
    /// It gives the execution up: there is nothing to select.
    Prune,
    /// It chooses a number below this one.
    Choose(usize),
}

/// What a participant that selects an outcome does first: it chooses one, if there are
/// any.
pub fn begin_selection(runtime: &SummarizationRuntime, handle: &SummarizableCallHandle) -> (r:
    Result<Selection, EntryFault>)
    ensures
        match choices(runtime@, handle.call@) {
            Err(f) => r matches Err(x) && x == EntryFault::Call(f),
            Ok((outcomes, _)) => r matches Ok(s) && (if outcomes.len() == 0 {
                s == Selection::Prune
            } else {
                s matches Selection::Choose(n) && n == outcomes.len()
            }),
        },
{
    match runtime.summary_outcomes(handle) {
        Err(f) => Err(EntryFault::Call(f)),
        Ok(outcomes) => {
            proof {
                if let Ok((list, _)) = choices(runtime@, handle.call@) {
                    assert(outcomes_view(outcomes@).len() == outcomes@.len());
                }
            }
            if outcomes.len() == 0 {
                Ok(Selection::Prune)
            } else {
                Ok(Selection::Choose(outcomes.len()))
            }
        },
    }
}

/// What the selection of an outcome comes to.
pub enum Selected {
    /// The execution is given up: the outcome is a failed assumption.
    Prune,
    /// These threads go on.
    Wake(Vec<ThreadId>),
}

/// The constraint that comes with an outcome, where there is one.
pub open spec fn guard_of(o: OutcomeView) -> Option<ExprView> {
    match o.condition {
        CondView::Always => None,
        CondView::Symbolic { guard, .. } => Some(guard),
    }
}

/// The view of a constraint, where there is one.
pub open spec fn guard_view(g: Option<SymExpr>) -> Option<ExprView> {
    match g {
        Some(e) => Some(e@),
        None => None,
    }
}

/// The outcome with the given index, with values of the execution for its locals.
pub open spec fn chosen_outcome(
    v: RuntimeView,
    call: CallView,
    index: usize,
    fresh: Seq<ExprView>,
    allow_parent_inputs: bool,
) -> Result<OutcomeView, EntryFault> {
    match open_choices(v, call) {
        Err(f) => Err(EntryFault::Call(f)),
        Ok(outcomes) => if index >= outcomes.len() {
            Err(EntryFault::Call(CallFault::OutOfBounds))
        } else {
            match materialized(
                outcomes[index as int],
                v.call_states[call].participants,
                fresh,
                allow_parent_inputs,
            ) {
                None => Err(EntryFault::NoInstance),
                Some(o) => Ok(o),
            }
        },
    }
}

/// Selects an outcome for all participants. The constraint that comes with it is to be
/// assumed.
pub fn select_outcome(
    runtime: &mut SummarizationRuntime,
    handle: &SummarizableCallHandle,
    index: usize,
    fresh: Vec<SymExpr>,
    allow_parent_inputs: bool,
    choice: Event,
) -> (r: Result<(Selected, Option<SymExpr>), EntryFault>)
    requires
        runtime_ok(old(runtime)@),
    ensures
        runtime_ok(final(runtime)@),
        match chosen_outcome(
            old(runtime)@,
            handle.call@,
            index,
            exprs_view(fresh@),
            allow_parent_inputs,
        ) {
            Err(f) => r == Err::<(Selected, Option<SymExpr>), EntryFault>(f) && final(runtime)@
                == old(runtime)@,
            Ok(o) => {
                let s = old(runtime)@.call_states[handle.call@];
                &&& r matches Ok(x)
                &&& guard_view(x.1) == guard_of(o)
                &&& if o.result is AssumptionFailed {
                    x.0 is Prune && final(runtime)@ == old(runtime)@
                } else {
                    &&& x.0 matches Selected::Wake(wake)
                    &&& wake@ == s.waiting
                    &&& final(runtime)@ == with_state(
                        old(runtime)@,
                        handle.call@,
                        StateView {
                            mode: Some(
                                ModeView::ApplyingSummary {
                                    outcomes: open_choices(
                                        old(runtime)@,
                                        handle.call@,
                                    )->Ok_0,
                                    selection: Some((o, choice)),
                                },
                            ),
                            waiting: Seq::empty(),
                            ..s
                        },
                    )
                }
            },
        },
{
    let (participants, template) = match runtime.selected_summary_outcome_template(handle, index) {
        Err(f) => return Err(EntryFault::Call(f)),
        Ok(x) => x,
    };
    let outcome = match template.materialize(&participants, fresh, allow_parent_inputs) {
        None => return Err(EntryFault::NoInstance),
        Some(o) => o,
    };
    let guard = match outcome.guard() {
        Some(g) => Some(g.clone()),
        None => None,
    };
    if outcome.is_assumption_failed() {
        return Ok((Selected::Prune, guard));
    }
    match runtime.commit_summary_selection(handle, outcome, choice) {
        Err(f) => Err(EntryFault::Call(f)),
        Ok(wake) => Ok((Selected::Wake(wake), guard)),
    }
}

/// What a participant makes of the selected outcome.
pub enum Applied<T> {
    /// It returns this value.
    Returned(T),
    /// It blocks.
    Blocked,
}

/// A participant's share of the selected outcome.
pub open spec fn share_of(v: RuntimeView, call: CallView, tid: ThreadId) -> Result<
    Option<ErasedView>,
    EntryFault,
> {
    match choices(v, call) {
        Err(f) => Err(EntryFault::Call(f)),
        Ok((_, None)) => Err(EntryFault::Call(CallFault::NotSelected)),
        Ok((_, Some((o, _)))) => match o.result {
            ResultView::AssumptionFailed => Err(EntryFault::AssumptionFailed),
            ResultView::Blocked => Ok(None),
            ResultView::Returned(values) => match value_of(values, tid, values.len()) {
                None => Err(EntryFault::NoReturn),
                Some(value) => Ok(Some(value)),
            },
        },
    }
}

/// Applies the selected outcome for one participant.
pub fn apply_summary<T: SummarizableVal>(
    runtime: &SummarizationRuntime,
    handle: &SummarizableCallHandle,
    tid: ThreadId,
) -> (r: Result<Applied<T>, EntryFault>)
    ensures
        match share_of(runtime@, handle.call@, tid) {
            Err(f) => r matches Err(x) && x == f,
            Ok(None) => r matches Ok(a) && a is Blocked,
            Ok(Some(value)) => if value.kind == T::kind_text() && T::fits(value.tree) {
                r matches Ok(Applied::Returned(x)) && x.tree() == value.tree && is_value(
                    x,
                    value.tree,
                )
            } else {
                r matches Err(x) && x == EntryFault::WrongType
            },
        },
{
    let (outcome, _) = match runtime.selected_summary_outcome(handle) {
        Err(f) => return Err(EntryFault::Call(f)),
        Ok(x) => x,
    };
    match &outcome.result {
        SummaryResult::AssumptionFailed => Err(EntryFault::AssumptionFailed),
        SummaryResult::Blocked => Ok(Applied::Blocked),
        SummaryResult::Returned(values) => match values.value_for(tid) {
            None => Err(EntryFault::NoReturn),
            Some(value) => match value.clone().into_typed::<T>() {
                None => Err(EntryFault::WrongType),
                Some(v) => Ok(Applied::Returned(v)),
            },
        },
    }
}

} // verus!
