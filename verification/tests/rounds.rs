use traceforge::comm_close::ballot::{BallotLevel, BallotPhase};
use traceforge::comm_close::counter;
use traceforge::comm_close::counter::{RoundFault, RoundId, RoundMsg, TaggedVal, Turn};
use traceforge::comm_close::round::{
    next, DefaultFilter, DefaultMatch, LevelKind, Place, RoundEnum, RoundOrder, RoundScheme,
    RoundStamp, RoundState,
};
use traceforge::comm_close::rounds::Rounds;
use traceforge::comm_close::set::{
    decode_set_remote, encode_set_tag, KeyedRounds, SetInboxPlan, TraceForgeSetTransport,
    TraceForgeSetTransportError,
};
use traceforge::comm_close::transport::{
    decode_inbox, decode_inbox_entry, repeated_recv_bounds, repeated_recv_count, untagged_step,
    FromRoundOn, InboxPlan, Reception, RoundPredicate, SameRound, TraceForgeTransport,
    TraceForgeTransportMode, Untagged,
};
use traceforge::event::{construct_thread_id, main_thread_id, ThreadId};
use traceforge::event_label::Val;
use traceforge::loc::{Predicate, RecvPredicate};

fn place(tid: ThreadId, execution_id: u64) -> Place {
    Place { tid, execution_id, must_id: 1 }
}

fn ballots() -> RoundScheme {
    RoundScheme::lexicographic()
        .from_u32(BallotLevel::Ballot)
        .from_enum::<BallotPhase, BallotLevel>(BallotLevel::Phase)
        .build()
}

#[test]
fn schemes_list_their_levels() {
    let scheme = ballots();
    assert_eq!(scheme.level_count(), 2);
    assert_eq!(scheme.levels()[0].key_name, "Ballot");
    assert!(matches!(scheme.levels()[0].kind, LevelKind::U32));
    assert!(matches!(scheme.level_for_key(BallotLevel::Phase).kind, LevelKind::Enum { .. }));
    assert_eq!(scheme.key_position(BallotLevel::Phase), 1);
    assert_eq!(scheme.default_round_order(), RoundOrder::Lexicographic);
    assert_eq!(scheme.low_components(), vec![0, 0]);
    let codec = scheme.enum_codec::<BallotPhase>();
    assert!(codec.validate(2));
    assert!(!codec.validate(3));
    assert_eq!(codec.next(1), Some(2));
    assert_eq!(codec.next(2), None);
    assert!(scheme.codec(7).is_none());
}

#[test]
fn levels_begin_where_they_are_told_to() {
    let scheme = RoundScheme::component_wise()
        .u32_level(BallotLevel::Ballot)
        .low(5)
        .done()
        .enum_level::<BallotPhase, BallotLevel>(BallotLevel::Phase)
        .low(BallotPhase::Vote)
        .done()
        .build();
    assert_eq!(scheme.low_components(), vec![5, 1]);
    assert_eq!(scheme.default_round_order(), RoundOrder::ComponentWise);
}

#[test]
fn filters_judge_each_level() {
    let filter = DefaultFilter::new()
        .level_match(BallotLevel::Phase, DefaultMatch::Gte)
        .level_match(BallotLevel::Ballot, DefaultMatch::Eq);
    let scheme = RoundScheme::with_default_filter(filter)
        .from_u32(BallotLevel::Ballot)
        .from_enum::<BallotPhase, BallotLevel>(BallotLevel::Phase)
        .build();
    let compiled = scheme.default_filter().unwrap();
    assert_eq!(compiled.order(), RoundOrder::Lexicographic);
    assert_eq!(*compiled.matches(), vec![DefaultMatch::Eq, DefaultMatch::Gte]);
    let plain = ballots();
    assert_eq!(
        *plain.default_filter().unwrap().matches(),
        vec![DefaultMatch::Any, DefaultMatch::Any]
    );
    assert!(RoundScheme::builder().build().default_filter().is_none());
}

#[test]
fn steps_follow_each_other() {
    assert_eq!(next(BallotPhase::Propose), Some(BallotPhase::Vote));
    assert_eq!(next(BallotPhase::Decide), None);
    assert_eq!(BallotPhase::try_from_u32(3), None);
}

#[test]
fn advancing_resets_later_levels() {
    let mut state = RoundState::new();
    let at = place(main_thread_id(), 1);
    let mut rounds = Rounds::with_scheme(ballots(), &mut state, at);
    assert_eq!(*rounds.current(&mut state, at).components(), vec![0, 0]);
    let r = rounds.advance(BallotLevel::Phase, &mut state, at);
    assert_eq!(*r.components(), vec![0, 1]);
    assert_eq!(r.get_enum::<BallotLevel, BallotPhase>(BallotLevel::Phase), BallotPhase::Vote);
    let earlier = r.stamp();
    let r = rounds.advance_round(&mut state, at);
    assert_eq!(*r.components(), vec![1, 0]);
    assert_eq!(r.get_u32(BallotLevel::Ballot), 1);
    let r = rounds.goto_u32(BallotLevel::Ballot, 7, &mut state, at);
    assert_eq!(*r.components(), vec![7, 0]);
    let r = rounds.goto_enum(BallotLevel::Phase, BallotPhase::Decide, &mut state, at);
    assert_eq!(*r.components(), vec![7, 2]);
    assert!(r.assert_current(&mut state, at));
    let r = rounds.jump_if_future(&earlier, &mut state, at);
    assert_eq!(*r.components(), vec![7, 2]);
    let later = RoundStamp::from_components(vec![8, 0]);
    let r = rounds.jump(&later, &mut state, at);
    assert_eq!(*r.components(), vec![8, 0]);
    assert_eq!(rounds.view(&earlier).get_u32(BallotLevel::Phase), 1);
    assert_eq!(
        rounds.view(&earlier).get_enum::<BallotLevel, BallotPhase>(BallotLevel::Phase),
        BallotPhase::Vote
    );
}

#[test]
fn rounds_of_an_earlier_execution_are_forgotten() {
    let mut state = RoundState::new();
    let first = place(main_thread_id(), 1);
    let mut rounds = Rounds::with_scheme(ballots(), &mut state, first);
    let r = rounds.advance_round(&mut state, first);
    assert!(r.assert_current(&mut state, first));
    let stamp = state.current_round_stamp_for_send(first).unwrap();
    assert_eq!(*stamp.components(), vec![1, 0]);
    assert!(state.current_round_stamp_for_send(place(construct_thread_id(4), 1)).is_none());
    assert!(!r.assert_current(&mut state, place(main_thread_id(), 2)));
    assert!(state.current_round_stamp_for_send(first).is_none());
}

#[test]
fn counted_rounds_go_up_for_each_thread() {
    let mut state = counter::RoundState::new();
    let me = Turn { tid: main_thread_id(), execution_id: 3 };
    let other = Turn { tid: construct_thread_id(1), execution_id: 3 };
    let mut rounds = counter::Rounds::new();
    let zero = rounds.current(&mut state, me);
    assert_eq!(zero.id(), RoundId(0));
    let one = rounds.advance(&mut state, me).unwrap();
    assert_eq!(one.tag(), 1);
    assert_eq!(rounds.current(&mut state, other).id(), RoundId(0));
    assert_eq!(one.assert_current(&mut state, me), None);
    assert_eq!(zero.assert_current(&mut state, me), Some(RoundFault::NotCurrent));
    assert_eq!(one.assert_current(&mut state, other), Some(RoundFault::WrongThread));
    let next_execution = Turn { tid: main_thread_id(), execution_id: 4 };
    assert_eq!(rounds.current(&mut state, next_execution).id(), RoundId(0));
}

#[test]
fn messages_of_earlier_rounds_are_not_read() {
    let mut state = counter::RoundState::new();
    let me = Turn { tid: main_thread_id(), execution_id: 3 };
    let mut rounds = counter::Rounds::new();
    let zero = rounds.current(&mut state, me);
    let to = construct_thread_id(2);
    let m = counter::send(to, Val::new(9, 5), &zero, &mut state, me).unwrap();
    assert_eq!((m.to, m.tag, m.lossy), (to, vec![0], false));
    assert!(counter::send_lossy(to, Val::new(9, 5), &zero, &mut state, me).unwrap().lossy);
    let one = rounds.advance(&mut state, me).unwrap();
    assert_eq!(
        counter::send(to, Val::new(9, 5), &zero, &mut state, me).err(),
        Some(RoundFault::NotCurrent)
    );
    let r = counter::recv(&one, &mut state, me).unwrap();
    assert!(!r.blocking);
    assert!(counter::recv_block(&one, &mut state, me).unwrap().blocking);
    let p = counter::predicate(&r);
    assert!(!p.accepts(to, &Some(vec![0])));
    assert!(p.accepts(to, &Some(vec![1])));
    assert!(p.accepts(to, &Some(vec![2])));
    assert!(!p.accepts(to, &None));
    let i = counter::inbox(&one, &mut state, me).unwrap();
    assert_eq!((i.from, i.min, i.max), (1, 0, None));
    let i = counter::inbox_with_bounds(&one, 2, Some(3), &mut state, me).unwrap();
    assert_eq!((i.min, i.max), (2, Some(3)));
    let old = RoundMsg::new(7u64, RoundId(0));
    assert_eq!(old.payload(&one, &mut state, me), Err(RoundFault::EarlierMessage));
    let new = RoundMsg::new(7u64, RoundId(1));
    assert_eq!(new.payload(&one, &mut state, me), Ok(&7));
    assert_eq!(new.with_payload(&one, &mut state, me, |v| *v + 1), Ok(8));
    assert_eq!(new.round_id(), RoundId(1));
}

#[test]
fn received_values_have_their_type() {
    let tagged = TaggedVal { round: RoundId(2), payload: Val::new(9, 5) };
    assert_eq!(counter::opened(tagged, 9).unwrap().round_id(), RoundId(2));
    assert_eq!(counter::opened(tagged, 8).err(), Some(RoundFault::WrongType));
}

#[test]
fn inboxes_yield_messages_one_for_one() {
    let tagged = |round: u32, handle: u64| {
        Some(TaggedVal { round: RoundId(round), payload: Val::new(9, handle) })
    };
    let msgs = counter::inbox_messages(&vec![tagged(2, 5), None, tagged(3, 4)]);
    let rounds: Vec<Option<u32>> =
        msgs.iter().map(|m| m.as_ref().map(|m| m.round_id().0)).collect();
    assert_eq!(rounds, vec![Some(2), None, Some(3)]);
    let me = Turn { tid: main_thread_id(), execution_id: 1 };
    let mut state = counter::RoundState::new();
    let zero = counter::Rounds::new().current(&mut state, me);
    let first = msgs[0].as_ref().unwrap();
    assert_eq!(first.payload(&zero, &mut state, me), Ok(&Val::new(9, 5)));
    assert!(counter::inbox_messages(&Vec::new()).is_empty());
    let plan = counter::inbox_with_bounds(&zero, 1, Some(2), &mut state, me).unwrap();
    assert_eq!((plan.min, plan.max), (1, Some(2)));
    let p = counter::inbox_predicate(&plan);
    assert!(p.accepts(main_thread_id(), &Some(vec![0])));
    assert!(!p.accepts(main_thread_id(), &None));
}

#[test]
fn inbox_entries_have_their_type() {
    let entries = vec![Some(Val::new(9, 5)), None, Some(Val::new(9, 4))];
    assert_eq!(decode_inbox(&entries, 9), Some(entries.clone()));
    assert_eq!(decode_inbox(&entries, 8), None);
    assert_eq!(decode_inbox_entry(None, 8), Some(None));
    assert_eq!(decode_inbox_entry(entries[0], 8), None);
}

#[test]
fn levels_keep_their_order_and_begin_at_a_step() {
    let scheme = RoundScheme::builder()
        .enum_level::<BallotPhase, BallotLevel>(BallotLevel::Phase)
        .low(BallotPhase::Vote)
        .done()
        .from_u32(BallotLevel::Ballot)
        .build();
    assert_eq!(scheme.key_position(BallotLevel::Phase), 0);
    assert_eq!(scheme.key_position(BallotLevel::Ballot), 1);
    assert_eq!(scheme.low_components(), vec![1, 0]);
    let codec = scheme.enum_codec::<BallotPhase>();
    assert_eq!(codec.low, 0);
    for v in 0..6 {
        assert_eq!(codec.validate(v), BallotPhase::try_from_u32(v).is_some());
        let after = BallotPhase::try_from_u32(v).and_then(next).map(|e| e.to_u32());
        assert_eq!(codec.next(v), after);
    }
    assert_eq!(BallotPhase::codes(), vec![0, 1, 2]);
    assert_eq!(
        RoundStamp::from_components(vec![1, 0]),
        RoundStamp::from_components(scheme.low_components())
    );
}

#[test]
fn tags_hold_the_round() {
    let tagged = TraceForgeTransport::new();
    assert_eq!(tagged.mode(), TraceForgeTransportMode::TaggedNativeInbox);
    assert_eq!(tagged.send(&4u32), Some(vec![4]));
    let untagged = TraceForgeTransport::with_mode(TraceForgeTransportMode::UntaggedRepeatedRecv);
    assert_eq!(untagged.send(&4u32), None);
    match tagged.recv(4u32, SameRound {}) {
        Reception::Tagged(p) => {
            assert!(p.accepts(main_thread_id(), &Some(vec![4])));
            assert!(!p.accepts(main_thread_id(), &Some(vec![5])));
            assert!(!p.accepts(main_thread_id(), &Some(vec![4, 4])));
        }
        Reception::Untagged(_) => panic!("tags are used"),
    }
    assert!(matches!(untagged.recv(4u32, FromRoundOn {}), Reception::Untagged(_)));
}

#[test]
fn inboxes_are_read_as_the_mode_says() {
    let native = TraceForgeTransport::new();
    assert!(matches!(
        native.inbox(1u32, SameRound {}, 2, None),
        Some(InboxPlan::Native(_, 2, None))
    ));
    let repeated = TraceForgeTransport::with_mode(TraceForgeTransportMode::TaggedRepeatedRecv);
    assert!(matches!(
        repeated.inbox(1u32, SameRound {}, 2, None),
        Some(InboxPlan::Repeated(_, 2, 2))
    ));
    assert!(repeated.inbox(1u32, SameRound {}, 0, None).is_none());
    let untagged = TraceForgeTransport::with_mode(TraceForgeTransportMode::UntaggedRepeatedRecv);
    assert!(matches!(
        untagged.inbox(1u32, SameRound {}, 0, Some(3)),
        Some(InboxPlan::UntaggedRepeated(_, 0, 3))
    ));
    assert_eq!(repeated_recv_bounds(3, Some(2)), None);
    assert_eq!(repeated_recv_count((1, 3), 2), Some(2));
    assert_eq!(repeated_recv_count((1, 3), 4), None);
}

#[test]
fn receivers_without_tags_drop_what_does_not_pass() {
    let p = RoundPredicate { local: 3u32, filter: FromRoundOn {} };
    assert_eq!(untagged_step(&p, Some(&2)), Untagged::Again);
    assert_eq!(untagged_step(&p, Some(&3)), Untagged::Done);
    assert_eq!(untagged_step(&p, Some(&4)), Untagged::Done);
    assert_eq!(untagged_step(&p, None), Untagged::Done);
}

#[test]
fn set_tags_hold_key_and_round() {
    let tag = encode_set_tag(&7u32, &3u32);
    assert_eq!(tag, vec![7, 3]);
    assert_eq!(decode_set_remote::<u32, u32>(&Some(tag)), Some((7, 3)));
    assert_eq!(decode_set_remote::<u32, u32>(&Some(vec![7])), None);
    assert_eq!(decode_set_remote::<u32, u32>(&None), None);
}

#[test]
fn keys_do_not_receive_from_each_other() {
    let transport = TraceForgeSetTransport::new();
    let p = transport.recv(7u32, 3u32, SameRound {}).unwrap();
    assert!(p.accepts(main_thread_id(), &Some(vec![7, 3])));
    assert!(!p.accepts(main_thread_id(), &Some(vec![8, 3])));
    assert!(!p.accepts(main_thread_id(), &Some(vec![7, 4])));
    let mut rounds = KeyedRounds::new(1u32);
    rounds.enter(7u32, 4);
    assert_eq!(rounds.round(&7), 4);
    assert_eq!(rounds.round(&8), 1);
}

#[test]
fn set_inboxes_are_read_as_the_mode_says() {
    let native = TraceForgeSetTransport::default();
    assert!(matches!(
        native.inbox(7u32, 1u32, SameRound {}, 1, Some(2)),
        Ok(Some(SetInboxPlan::Native(_, 1, Some(2))))
    ));
    let repeated = TraceForgeSetTransport::with_mode(TraceForgeTransportMode::TaggedRepeatedRecv);
    assert!(matches!(
        repeated.inbox(7u32, 1u32, SameRound {}, 1, Some(2)),
        Ok(Some(SetInboxPlan::Repeated(_, 1, 2)))
    ));
    assert!(matches!(repeated.inbox(7u32, 1u32, SameRound {}, 0, None), Ok(None)));
    let mode = TraceForgeTransportMode::UntaggedRepeatedRecv;
    let untagged = TraceForgeSetTransport::with_mode(mode);
    assert_eq!(
        untagged.recv(7u32, 1u32, SameRound {}).err(),
        Some(TraceForgeSetTransportError::UnsupportedMode(mode))
    );
    assert_eq!(
        untagged.inbox(7u32, 1u32, SameRound {}, 0, None).err(),
        Some(TraceForgeSetTransportError::UnsupportedMode(mode))
    );
    assert!(Predicate::Any.accepts(main_thread_id(), &None));
}

#[test]
fn copies_go_their_own_way() {
    let mut state = RoundState::new();
    let at = place(main_thread_id(), 1);
    let mut rounds = Rounds::with_scheme(ballots(), &mut state, at);
    let before = rounds.clone();
    let first = rounds.current(&mut state, at).clone();
    let second = rounds.advance_round(&mut state, at).clone();
    assert_eq!(*first.components(), vec![0, 0]);
    assert_eq!(*second.components(), vec![1, 0]);
    assert_eq!(second.scheme().level_count(), 2);
    assert!(!first.assert_current(&mut state, at));
    assert!(second.assert_current(&mut state, at));
    assert_eq!(*before.current(&mut state, at).components(), vec![0, 0]);
    assert_eq!(*rounds.current(&mut state, at).components(), vec![1, 0]);
    let filter = DefaultFilter::new()
        .round_order(RoundOrder::ComponentWise)
        .level_match(BallotLevel::Ballot, DefaultMatch::Gte);
    let copy = filter.clone().level_match(BallotLevel::Phase, DefaultMatch::Eq);
    assert_eq!((filter.order, filter.matches.len()), (Some(RoundOrder::ComponentWise), 1));
    assert_eq!((copy.order, copy.matches.len()), (filter.order, 2));
    assert_eq!(copy.matches[0], filter.matches[0]);
}
