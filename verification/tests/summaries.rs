use traceforge::event::{construct_thread_id, Event, ThreadId};
use traceforge::summarizable::cases::{participant_bijections, permutations, SummaryCase};
use traceforge::summarizable::entry::{
    after_arrival, apply_summary, begin_selection, check_grant, grants, make_offer,
    select_outcome, Applied, EntryFault, EntryStep, Selected, Selection,
};
use traceforge::summarizable::erased::{ErasedSummarizableVal, SummarizableArguments};
use traceforge::summarizable::outcome::{
    insert_summary_outcome, ParticipantArguments, ParticipantReturns, ParticipantValues,
    SummaryCondition, SummaryOutcome, SummaryResult,
};
use traceforge::summarizable::participants::{
    ParticipationMode, Participants, SummarizableCallId, SummarizableFunctionDescriptor,
    SummarizationOptions, SummaryDispatch,
};
use traceforge::summarizable::rendezvous::{
    check_group, offer_domain_matches, GroupFault, ParticipationOffer, Resolution, ResolutionStep,
};
use traceforge::summarizable::runtime::{CallFault, EntryAction, SummarizationRuntime};
use traceforge::summarizable::symmetry::{
    Bindings, InputAbstraction, MatchContext, OutputNormalization, ParticipantBijection,
    SummaryOperations,
};
use traceforge::summarizable::value::SummarizableVal;
use traceforge::symbolic::expr::{int_val, SymExpr, SymSort, SymVarId};

fn t(id: u32) -> ThreadId {
    construct_thread_id(id)
}

fn swap() -> SummarizableFunctionDescriptor {
    SummarizableFunctionDescriptor::new("swap")
}

fn args(n: u32) -> SummarizableArguments {
    SummarizableArguments::new(vec![ErasedSummarizableVal::new(n)])
}

fn returned(values: Vec<(ThreadId, u32)>) -> SummaryOutcome {
    let list = values.into_iter().map(|(t, n)| (t, ErasedSummarizableVal::new(n))).collect();
    SummaryOutcome::ordinary(SummaryResult::Returned(ParticipantValues(list)))
}

/// The offers of threads 1 and 2, of which the first resolves the group.
fn offers(runtime: &mut SummarizationRuntime, a: u32, b: u32) -> (ParticipationOffer, ParticipationOffer) {
    let first = make_offer(
        runtime,
        swap(),
        Participants::resolve().require(vec![t(2)]),
        args(a),
        t(1),
        0,
        None,
    );
    let second = make_offer(runtime, swap(), Participants::join(t(1)), args(b), t(2), 0, None);
    (first.ok().unwrap(), second.ok().unwrap())
}

/// A call of threads 1 and 2 at which both have arrived; what each does next.
fn call(
    runtime: &mut SummarizationRuntime,
    a: u32,
    b: u32,
) -> (SummarizableCallId, EntryAction, EntryAction, Option<ParticipantArguments>) {
    let (first, second) = offers(runtime, a, b);
    let mut group = Resolution::start(first).ok().unwrap();
    assert!(matches!(group.step(), Ok(ResolutionStep::Require(x)) if x == t(2)));
    assert_eq!(group.accept(second), None);
    assert!(matches!(group.step(), Ok(ResolutionStep::Complete)));
    let closed = group.finish().ok().unwrap();
    let call = runtime.commit_group(swap().id(), &closed).ok().unwrap();
    let (action, wake, miss) =
        runtime.arrive_at_resolved_entry(t(1), &call, &args(a), None).ok().unwrap();
    assert!(matches!(action, EntryAction::WaitForParticipants));
    assert!(wake.is_empty() && miss.is_none());
    let (second, wake, miss) =
        runtime.arrive_at_resolved_entry(t(2), &call, &args(b), None).ok().unwrap();
    assert_eq!(wake, vec![t(1)]);
    let (first, wake, _) =
        runtime.arrive_at_resolved_entry(t(1), &call, &args(a), None).ok().unwrap();
    assert!(wake.is_empty());
    (call, first, second, miss.map(|m| m.summary_inputs))
}

#[test]
fn a_call_is_explored_once_and_then_summarized() {
    let mut runtime = SummarizationRuntime::new(SummarizationOptions::default());
    let (id, first, second, inputs) = call(&mut runtime, 10, 20);
    let (h1, h2) = match (first, second) {
        (
            EntryAction::ExecuteBody { handle: h1, arguments: a1 },
            EntryAction::ExecuteBody { handle: h2, arguments: a2 },
        ) => {
            assert_eq!(a1.into_cursor().next::<u32>(), Some(10));
            assert_eq!(a2.into_cursor().next::<u32>(), Some(20));
            (h1, h2)
        }
        _ => panic!("the body is executed"),
    };
    assert!(runtime.completed_body_returns(&id).is_none());
    assert_eq!(runtime.record_body_return(t(2), &h2, ErasedSummarizableVal::new(10u32)), Ok(false));
    assert_eq!(
        runtime.record_body_return(t(2), &h2, ErasedSummarizableVal::new(10u32)),
        Err(CallFault::ReturnedTwice)
    );
    assert_eq!(
        runtime.record_body_return(t(3), &h2, ErasedSummarizableVal::new(10u32)),
        Err(CallFault::NotParticipant)
    );
    assert_eq!(runtime.record_body_return(t(1), &h1, ErasedSummarizableVal::new(20u32)), Ok(true));
    let values = runtime.completed_body_returns(&id).unwrap();
    assert_eq!(values.value_for(t(1)).unwrap().clone().into_typed::<u32>(), Some(20));
    let outcomes = vec![SummaryOutcome::ordinary(SummaryResult::Returned(values))];
    let inputs = inputs.unwrap();
    let again = inputs.copy();
    assert_eq!(
        runtime.store_summary_case(swap().id(), vec![t(1), t(2)], inputs, outcomes),
        None
    );
    assert_eq!(
        runtime.store_summary_case(swap().id(), vec![t(1), t(2)], again, vec![returned(vec![])]),
        Some(CallFault::CaseExists)
    );

    runtime.begin_execution();
    assert!(runtime.completed_body_returns(&id).is_none());
    let (_, first, second, miss) = call(&mut runtime, 10, 20);
    assert!(miss.is_none());
    let (handle, waiting) = match (first, second) {
        (EntryAction::SelectSummaryOutcome { handle }, other) => (handle, other),
        (other, EntryAction::SelectSummaryOutcome { handle }) => (handle, other),
        _ => panic!("an outcome is selected"),
    };
    assert!(matches!(after_arrival(waiting), EntryStep::Wait));
    let outcomes = runtime.summary_outcomes(&handle).ok().unwrap();
    assert_eq!(outcomes.len(), 1);
    assert!(matches!(begin_selection(&runtime, &handle), Ok(Selection::Choose(1))));
    assert!(runtime.replace_summary_outcomes(&handle, Vec::new()).is_none());
    assert!(matches!(begin_selection(&runtime, &handle), Ok(Selection::Prune)));
    assert_eq!(runtime.summary_outcomes(&handle).ok().unwrap().len(), 0);
    assert!(runtime.replace_summary_outcomes(&handle, outcomes).is_none());
    assert_eq!(runtime.summary_outcomes(&handle).ok().unwrap().len(), 1);
    assert_eq!(
        apply_summary::<u32>(&runtime, &handle, t(1)).err(),
        Some(EntryFault::Call(CallFault::NotSelected))
    );
    let choice = Event::new(t(1), 3);
    assert_eq!(
        select_outcome(&mut runtime, &handle, 1, vec![], false, choice).err(),
        Some(EntryFault::Call(CallFault::OutOfBounds))
    );
    match select_outcome(&mut runtime, &handle, 0, vec![], false, choice) {
        Ok((Selected::Wake(w), None)) => assert_eq!(w.len(), 1),
        _ => panic!("the outcome is selected"),
    }
    assert_eq!(
        select_outcome(&mut runtime, &handle, 0, vec![], false, choice).err(),
        Some(EntryFault::Call(CallFault::AlreadySelected))
    );
    let value = |r| match r {
        Ok(Applied::Returned(v)) => v,
        _ => panic!("a value is returned"),
    };
    assert_eq!(value(apply_summary::<u32>(&runtime, &handle, t(1))), 20);
    assert_eq!(value(apply_summary::<u32>(&runtime, &handle, t(2))), 10);
    assert_eq!(
        apply_summary::<bool>(&runtime, &handle, t(2)).err(),
        Some(EntryFault::WrongType)
    );
    assert_eq!(
        apply_summary::<u32>(&runtime, &handle, t(3)).err(),
        Some(EntryFault::NoReturn)
    );
}

#[test]
fn other_inputs_are_explored_anew() {
    let mut runtime = SummarizationRuntime::new(SummarizationOptions::default());
    let (_, _, _, inputs) = call(&mut runtime, 10, 20);
    runtime.store_summary_case(
        swap().id(),
        vec![t(1), t(2)],
        inputs.unwrap(),
        vec![returned(vec![(t(1), 20), (t(2), 10)])],
    );
    runtime.begin_execution();
    let (_, first, _, miss) = call(&mut runtime, 10, 21);
    assert!(matches!(first, EntryAction::ExecuteBody { .. }));
    assert!(miss.is_some());
}

#[test]
fn arguments_do_not_change_after_the_offer() {
    let mut runtime = SummarizationRuntime::new(SummarizationOptions::default());
    let (first, second) = offers(&mut runtime, 1, 2);
    let id = runtime.commit_group(swap().id(), &vec![first, second]).ok().unwrap();
    let fault = |r: Result<_, CallFault>| match r {
        Err(f) => f,
        Ok(_) => panic!("refused"),
    };
    assert_eq!(
        fault(runtime.arrive_at_resolved_entry(t(1), &id, &args(9), None).map(|_| ())),
        CallFault::ArgumentsChanged
    );
    assert_eq!(
        fault(runtime.arrive_at_resolved_entry(t(3), &id, &args(1), None).map(|_| ())),
        CallFault::NotParticipant
    );
    let unknown = SummarizableCallId { function: swap().id(), call_index: 7 };
    assert_eq!(
        fault(runtime.arrive_at_resolved_entry(t(1), &unknown, &args(1), None).map(|_| ())),
        CallFault::MissingCall
    );
}

#[test]
fn threads_do_not_join_themselves() {
    let mut runtime = SummarizationRuntime::default();
    let r = make_offer(&mut runtime, swap(), Participants::join(t(1)), args(1), t(1), 0, None);
    assert_eq!(r.err(), Some(EntryFault::JoinsItself));
}

#[test]
fn grants_answer_their_offers() {
    let mut runtime = SummarizationRuntime::default();
    let (first, second) = offers(&mut runtime, 1, 2);
    let (own, other) = (first.clone(), second.clone());
    let group = vec![first, second];
    let id = runtime.commit_group(swap().id(), &group).ok().unwrap();
    let sent = grants(&group, t(1), &id);
    assert_eq!(sent.len(), 1);
    assert_eq!(sent[0].offer.participant, t(2));
    assert_eq!(check_grant(&other, &sent[0]), None);
    assert_eq!(check_grant(&own, &sent[0]), Some(EntryFault::WrongGrant));
    assert!(offer_domain_matches(&own, &other.domain()));
}

#[test]
fn groups_are_closed() {
    let mut runtime = SummarizationRuntime::default();
    assert_eq!(check_group(&vec![]), Some(GroupFault::Empty));
    let (first, second) = offers(&mut runtime, 1, 2);
    assert_eq!(check_group(&vec![first.clone(), second.clone()]), None);
    assert_eq!(check_group(&vec![first.clone()]), Some(GroupFault::MissingRequired));
    assert_eq!(check_group(&vec![second.clone()]), Some(GroupFault::ResolverCount));
    assert!(check_group(&vec![first.clone(), first.clone()]).is_some());
    assert_eq!(Resolution::start(second.clone()).err(), Some(GroupFault::NotResolver));
    let mut group = Resolution::start(first.clone()).ok().unwrap();
    assert_eq!(group.accept(first), Some(GroupFault::WrongSender));
    let elsewhere = make_offer(
        &mut runtime,
        SummarizableFunctionDescriptor::new("other"),
        Participants::join(t(1)),
        args(1),
        t(2),
        0,
        None,
    );
    assert_eq!(group.accept(elsewhere.ok().unwrap()), Some(GroupFault::CrossesBoundary));
    assert_eq!(group.accept(second.clone()), None);
    assert_eq!(group.accept(second), Some(GroupFault::NotWaiting));
}

#[test]
fn one_of_the_alternatives_takes_part() {
    let mut runtime = SummarizationRuntime::default();
    let first = make_offer(
        &mut runtime,
        swap(),
        Participants::resolve().exactly_one_of(vec![t(2), t(3)]),
        args(1),
        t(1),
        0,
        None,
    );
    let join = |runtime: &mut SummarizationRuntime, n| {
        make_offer(runtime, swap(), Participants::join(t(1)), args(1), t(n), 0, None).ok().unwrap()
    };
    let (two, three) = (join(&mut runtime, 2), join(&mut runtime, 3));
    let first = first.ok().unwrap();
    let mut group = Resolution::start(first.clone()).ok().unwrap();
    match group.step() {
        Ok(ResolutionStep::Choose(list)) => assert_eq!(list, vec![t(2), t(3)]),
        _ => panic!("one is chosen"),
    }
    assert_eq!(group.accept(three.clone()), None);
    assert!(group.finish().is_ok());
    assert_eq!(check_group(&vec![first, two, three]), Some(GroupFault::ExactlyOne));
}

#[test]
fn nested_calls_stay_within_the_call_around() {
    let mut runtime = SummarizationRuntime::default();
    let (first, second) = offers(&mut runtime, 1, 2);
    let outer = runtime.commit_group(swap().id(), &vec![first, second]).ok().unwrap();
    let p = Participants::resolve().require(vec![t(3)]);
    assert_eq!(
        runtime.validate_nested_specification(&Some(outer.clone()), t(1), &p),
        Some(CallFault::ParticipantOutsideParent)
    );
    let p = Participants::join(t(3));
    assert_eq!(
        runtime.validate_nested_specification(&Some(outer.clone()), t(1), &p),
        Some(CallFault::ResolverOutsideParent)
    );
    let p = Participants::join(t(2));
    assert_eq!(runtime.validate_nested_specification(&Some(outer), t(1), &p), None);
}

#[test]
fn participants_say_how_they_take_part() {
    let p = Participants::resolve().require(vec![t(3), t(2)]).exactly_one_of(vec![t(4), t(5)]);
    assert!(p.is_resolver());
    assert_eq!(p.resolver(t(1)), t(1));
    assert_eq!(p.exactly_one().len(), 1);
    assert_eq!(p.required().len(), 2);
    let q = Participants::join(t(6));
    assert_eq!(q.mode(), ParticipationMode::Join(t(6)));
    assert_eq!(q.resolver(t(1)), t(6));
    assert!(!SummarizationOptions::default().symmetry());
    assert!(SummarizationOptions::default().with_symmetry(true).symmetry());
}

#[test]
fn arrangements_are_complete() {
    let list = permutations(&vec![t(1), t(2), t(3)]);
    assert_eq!(list.len(), 6);
    for (i, a) in list.iter().enumerate() {
        assert!(list[..i].iter().all(|b| a != b));
    }
    assert_eq!(participant_bijections(&vec![t(1), t(2)], &vec![t(3), t(4)]).len(), 2);
    assert_eq!(participant_bijections(&vec![t(1)], &vec![t(3), t(4)]).len(), 0);
}

#[test]
fn symmetric_calls_share_a_summary() {
    let inputs = |a: ThreadId, x: u32, b: ThreadId, y: u32| -> ParticipantArguments {
        ParticipantValues(vec![(a, args(x)), (b, args(y))])
    };
    let case = SummaryCase {
        participants: vec![t(1), t(2)],
        inputs: inputs(t(1), 10, t(2), 20),
        outcomes: vec![returned(vec![(t(1), 20), (t(2), 10)])],
    };
    let found = case
        .instantiate_for(&vec![t(3), t(4)], &inputs(t(3), 20, t(4), 10), true)
        .ok()
        .unwrap()
        .unwrap();
    assert_eq!(found.len(), 1);
    match &found[0].result {
        SummaryResult::Returned(v) => {
            assert_eq!(v.value_for(t(3)).unwrap().clone().into_typed::<u32>(), Some(10));
            assert_eq!(v.value_for(t(4)).unwrap().clone().into_typed::<u32>(), Some(20));
        }
        _ => panic!("values are returned"),
    }
    let r = case.instantiate_for(&vec![t(3), t(4)], &inputs(t(3), 20, t(4), 10), false);
    assert!(matches!(r, Ok(None)));
    let r = case.instantiate_for(&vec![t(1), t(2)], &inputs(t(1), 10, t(2), 20), false);
    assert!(matches!(r, Ok(Some(_))));
}

#[test]
fn erased_values_come_back_as_what_they_were() {
    let v = ErasedSummarizableVal::new((3u8, Some(true), vec!['a', 'b'], "text".to_string()));
    let back = v.clone().into_typed::<(u8, Option<bool>, Vec<char>, String)>();
    assert_eq!(back, Some((3, Some(true), vec!['a', 'b'], "text".to_string())));
    assert_eq!(v.clone().into_typed::<(u8, Option<bool>)>(), None);
    assert!(v.same(&v.clone()));
    let r: Result<i64, ()> = Err(());
    assert_eq!(ErasedSummarizableVal::new(r).into_typed::<Result<i64, ()>>(), Some(Err(())));
    assert_eq!(ErasedSummarizableVal::new(Box::new(-5i128)).into_typed::<Box<i128>>(), Some(Box::new(-5)));
    assert_eq!(ErasedSummarizableVal::new(t(8)).into_typed::<ThreadId>(), Some(t(8)));
    assert_eq!(ErasedSummarizableVal::new(5u8).into_typed::<u16>(), None);
    assert_eq!(u128::from_tree(&u128::MAX.to_tree()), Some(u128::MAX));
    assert_eq!(i8::from_tree(&(-128i8).to_tree()), Some(-128));
}

#[test]
fn arguments_are_read_in_order() {
    let a = SummarizableArguments::new(vec![
        ErasedSummarizableVal::new(1u32),
        ErasedSummarizableVal::new(true),
    ]);
    assert_eq!(a.len(), 2);
    let mut c = a.into_cursor();
    assert_eq!(c.next::<u32>(), Some(1));
    assert_eq!(c.next::<bool>(), Some(true));
    assert_eq!(c.next::<bool>(), None);
    assert!(c.finish());
    assert!(!args(1).into_cursor().finish());
}

#[test]
fn symbolic_inputs_stand_for_what_the_call_gives() {
    let sym = |n| SymExpr::summary_local(n, SymSort::Int) + 1;
    let mut numbering = InputAbstraction::new();
    let stored = (sym(4), t(1)).abstract_input(&mut numbering);
    assert!(stored.0.same(&SymExpr::summary_input(0, SymSort::Int)));
    let pairs = ParticipantBijection::from_pairs(vec![(t(7), t(1))]);
    assert_eq!(pairs.representative_for(t(7)), Some(t(1)));
    assert!(pairs.input_ids_match(t(7), t(1)));
    assert!(!pairs.input_ids_match(t(1), t(1)));
    assert_eq!(pairs.instantiate_id(t(1)), t(7));
    let mut context = MatchContext::new(pairs);
    let actual = (int_val(5), t(7));
    assert!(actual.matches_stored_input(&stored, &mut context));
    assert!(!(int_val(6), t(7)).matches_stored_input(&stored, &mut context));
    let back = stored.instantiate(&context.into_instantiation()).unwrap();
    assert!(back.0.same(&int_val(5)));
    assert_eq!(back.1, t(7));
}

#[test]
fn outputs_are_stored_with_locals() {
    let pos = Event::new(t(1), 4);
    let id = SymVarId::from_event(pos);
    let value = SymExpr::Var { id, sort: SymSort::Int };
    let mut locals = Bindings::new();
    locals.insert(id, SymExpr::summary_local(0, SymSort::Int));
    let n = OutputNormalization::new(locals);
    assert!(value
        .normalize_summary_output(&n)
        .unwrap()
        .same(&SymExpr::summary_local(0, SymSort::Int)));
    let unknown = SymExpr::Var { id: SymVarId::from_event(Event::new(t(1), 5)), sort: SymSort::Int };
    assert!(unknown.normalize_summary_output(&n).is_none());
}

#[test]
fn outcomes_with_the_same_result_are_joined() {
    let guarded = |g: SymExpr, n: u32| SummaryOutcome {
        condition: SummaryCondition::Symbolic { guard: g, local_sorts: vec![] },
        result: SummaryResult::Returned(ParticipantValues(vec![(
            t(1),
            ErasedSummarizableVal::new(n),
        )])),
    };
    let x = || SymExpr::summary_input(0, SymSort::Bool);
    let y = || SymExpr::summary_input(1, SymSort::Bool);
    let mut list = Vec::new();
    insert_summary_outcome(&mut list, guarded(x(), 1));
    insert_summary_outcome(&mut list, guarded(y(), 2));
    insert_summary_outcome(&mut list, guarded(y(), 1));
    assert_eq!(list.len(), 2);
    assert!(list[0].guard().unwrap().same(&x().or(y())));
    let mut list = vec![returned(vec![(t(1), 1)])];
    insert_summary_outcome(&mut list, returned(vec![(t(1), 1)]));
    assert_eq!(list.len(), 1);
    assert!(list[0].guard().is_none());
    insert_summary_outcome(&mut list, SummaryOutcome::ordinary(SummaryResult::Blocked));
    assert_eq!(list.len(), 2);
    assert!(!list[1].is_assumption_failed());
}

#[test]
fn outcomes_get_values_of_the_execution_for_their_locals() {
    let local = SymExpr::summary_local(0, SymSort::Int);
    let outcome = SummaryOutcome {
        condition: SummaryCondition::Symbolic {
            guard: local.clone().gt(int_val(0)),
            local_sorts: vec![SymSort::Int],
        },
        result: SummaryResult::Returned(ParticipantValues(vec![(
            t(1),
            ErasedSummarizableVal::new(local),
        )])),
    };
    assert_eq!(outcome.local_sorts().len(), 1);
    let fresh = SymExpr::Var { id: SymVarId::from_event(Event::new(t(1), 2)), sort: SymSort::Int };
    let copy = outcome.clone();
    assert!(copy.materialize(&vec![t(1)], vec![], false).is_none());
    let made = outcome.materialize(&vec![t(1)], vec![fresh.clone()], false).unwrap();
    assert!(made.guard().unwrap().same(&fresh.clone().gt(int_val(0))));
    let values: &ParticipantReturns = match &made.result {
        SummaryResult::Returned(v) => v,
        _ => panic!("a value is returned"),
    };
    let value = values.value_for(t(1)).unwrap().clone().into_typed::<SymExpr>().unwrap();
    assert!(value.same(&fresh));
}

#[test]
fn entry_actions_lead_on() {
    assert!(matches!(after_arrival(EntryAction::WaitForParticipants), EntryStep::Wait));
    let mut runtime = SummarizationRuntime::default();
    let (_, first, _, _) = call(&mut runtime, 1, 2);
    assert!(matches!(
        after_arrival(first),
        EntryStep::Enter(SummaryDispatch::ExecuteBody { .. })
    ));
}

#[test]
fn arrays_come_back() {
    let erased = ErasedSummarizableVal::new([(1u32, t(2)), (3, t(4))]);
    assert_eq!(erased.clone().into_typed::<[(u32, ThreadId); 2]>(), Some([(1, t(2)), (3, t(4))]));
    assert!(erased.clone().into_typed::<[(u32, ThreadId); 3]>().is_none());
    assert!(erased.into_typed::<Vec<(u32, ThreadId)>>().is_none());
    assert!(<[u8; 3]>::from_tree(&vec![1u8, 2].to_tree()).is_none());
    assert_eq!(<[u8; 2]>::from_tree(&vec![1u8, 2].to_tree()), Some([1, 2]));
    assert_eq!(<[u8; 12]>::kind_name(), "[u8; 12]");
}
