#![allow(non_snake_case)]

use std::rc::Rc;
use traceforge::comm_close::set::{KeyedPredicate, KeyedRounds, TraceForgeSetTransport};
use traceforge::comm_close::set::TraceForgeSetTransportError;
use traceforge::comm_close::transport::{SameRound, TraceForgeTransportMode};
use traceforge::config::{Config, ConsType, ExplorationMode, SchedulePolicy};
use traceforge::debug::gallery::Manifest;
use traceforge::debug::tikz_log::single_graph_document;
use traceforge::event::{construct_thread_id, main_thread_id, Event, TaskId, ThreadId};
use traceforge::event_label::{BlockType, LabelKind, Val};
use traceforge::layout::GraphKind;
use traceforge::loc::{Loc, Predicate, RecvLoc, RecvPredicate};
use traceforge::must::handle::further_samples;
use traceforge::must::ending::{EndCondition, MonitorSpawnError, Stats};
use traceforge::must::{Must, MustState};
use traceforge::random::schedule_rng;
use traceforge::replay::{ReplayFailure, ReplayInformation};
use traceforge::revisit::RevisitQueue;

/// What a thread does next.
enum Op<P> {
    Send { to: ThreadId, tag: Option<Vec<u32>>, handle: u64 },
    LossySend { to: ThreadId, handle: u64 },
    WatchedSend { to: ThreadId, handle: u64, monitor: ThreadId },
    Recv { predicate: P, blocking: bool },
    Inbox { predicate: P, min: usize, max: Option<usize> },
    Spawn(Program<P>),
    SpawnDouble(Program<P>, ThreadId),
    SpawnMonitor(Program<P>),
    Join(ThreadId),
    Toss,
    Choice(usize, usize),
    Sample(Vec<u64>),
    Assume(bool),
    End,
}

/// What came of it.
#[derive(Clone, Debug, PartialEq)]
enum Res {
    Unit,
    Thread(ThreadId),
    Value(Option<u64>),
    Values(Vec<u64>),
    Flag(bool),
    Number(usize),
}

/// A program: the next operation, from the results of the earlier ones.
type Program<P> = Rc<dyn Fn(&[Res]) -> Op<P>>;

struct Thread<P> {
    tid: ThreadId,
    task: TaskId,
    program: Program<P>,
    history: Vec<Res>,
    finished: bool,
    stuck: bool,
}

fn val(handle: u64) -> Val {
    Val { type_key: 1, handle, pending: false }
}

fn send<P: RecvPredicate>(
    must: &mut Must<P>,
    conf: &Config,
    threads: &mut Vec<Thread<P>>,
    pos: Event,
    to: ThreadId,
    tag: Option<Vec<u32>>,
    handle: u64,
    monitors: Vec<ThreadId>,
    lossy: bool,
) -> Option<Res> {
    let kind = LabelKind::Send {
        loc: Loc::Thread(to),
        tag,
        val: val(handle),
        monitors,
        lossy,
        dropped: false,
        model: conf.cons_type.model(),
    };
    for e in must.handle_send(pos, kind) {
        for t in threads.iter_mut() {
            if t.tid == e.thread && t.stuck && t.history.len() as u32 + 1 == e.index {
                t.stuck = false;
            }
        }
    }
    Some(Res::Unit)
}

fn spawn<P: RecvPredicate>(
    must: &mut Must<P>,
    threads: &mut Vec<Thread<P>>,
    pos: Event,
    program: Program<P>,
    like: Option<ThreadId>,
) -> Res {
    let child = must.next_thread_id(pos);
    let task = TaskId { id: threads.len() };
    must.handle_tcreate(child, task, like, pos, None, false);
    threads.push(Thread {
        tid: child,
        task,
        program,
        history: Vec::new(),
        finished: false,
        stuck: false,
    });
    Res::Thread(child)
}

fn step<P: RecvPredicate>(must: &mut Must<P>, conf: &Config, threads: &mut Vec<Thread<P>>, at: usize) {
    let tid = threads[at].tid;
    let pos = Event::new(tid, threads[at].history.len() as u32 + 1);
    let op = (threads[at].program)(&threads[at].history);
    let res = match op {
        Op::Send { to, tag, handle } => {
            send(must, conf, threads, pos, to, tag, handle, Vec::new(), false)
        }
        Op::LossySend { to, handle } => {
            send(must, conf, threads, pos, to, None, handle, Vec::new(), true)
        }
        Op::WatchedSend { to, handle, monitor } => {
            send(must, conf, threads, pos, to, None, handle, vec![monitor], false)
        }
        Op::Recv { predicate, blocking } => {
            let loc = RecvLoc::new(vec![Loc::Thread(tid)], predicate);
            let (v, _) = must.handle_recv(pos, loc, blocking);
            match v {
                Some(v) if v.pending => {
                    threads[at].stuck = true;
                    None
                }
                Some(v) => Some(Res::Value(Some(v.handle))),
                None if blocking => None,
                None => Some(Res::Value(None)),
            }
        }
        Op::Inbox { predicate, min, max } => {
            let loc = RecvLoc::new(vec![Loc::Thread(tid)], predicate);
            let (vals, _, waits) = must.handle_inbox(pos, loc, min, max);
            if waits {
                None
            } else if vals.iter().any(|v| v.map_or(false, |v| v.pending)) {
                threads[at].stuck = true;
                None
            } else {
                Some(Res::Values(vals.into_iter().flatten().map(|v| v.handle).collect()))
            }
        }
        Op::Spawn(program) => Some(spawn(must, threads, pos, program, None)),
        Op::SpawnDouble(program, like) => Some(spawn(must, threads, pos, program, Some(like))),
        Op::SpawnMonitor(program) => {
            assert_eq!(must.validate_monitor_spawn(pos), Ok(()));
            let child = must.next_thread_id(pos);
            must.handle_register_mon(child);
            Some(spawn(must, threads, pos, program, None))
        }
        Op::Join(child) => match must.handle_tjoin(pos, child) {
            None => None,
            Some(v) if v.pending => {
                threads[at].stuck = true;
                None
            }
            Some(_) => Some(Res::Unit),
        },
        Op::Toss => Some(Res::Flag(must.handle_ctoss(pos))),
        Op::Choice(low, high) => Some(Res::Number(must.handle_choice(pos, low, high))),
        Op::Sample(values) => {
            let n = values.len();
            let first = must.handle_sample(pos, values[0], values[1..].to_vec(), n);
            Some(Res::Number(first as usize))
        }
        Op::Assume(true) => {
            unreachable!("assumptions that hold are no operations")
        }
        Op::Assume(false) => {
            must.handle_block(pos, BlockType::Assume);
            threads[at].finished = true;
            None
        }
        Op::End => {
            must.handle_tend(pos, val(0));
            threads[at].finished = true;
            let stuck: Vec<(TaskId, u32)> = threads
                .iter()
                .filter(|t| t.stuck)
                .map(|t| (t.task, t.history.len() as u32))
                .collect();
            for task in must.unstuck_joiners(&stuck, tid) {
                for t in threads.iter_mut() {
                    if t.task == task {
                        t.stuck = false;
                    }
                }
            }
            None
        }
    };
    if let Some(res) = res {
        threads[at].history.push(res);
    }
}

/// Runs one execution; returns what the threads found out.
fn execute<P: RecvPredicate>(must: &mut Must<P>, conf: &Config, main: &Program<P>) -> Vec<Vec<Res>> {
    let mut rng = schedule_rng(conf);
    must.begin_execution();
    let mut threads = vec![Thread {
        tid: main_thread_id(),
        task: TaskId { id: 0 },
        program: main.clone(),
        history: Vec::new(),
        finished: false,
        stuck: false,
    }];
    loop {
        let runnable: Vec<(TaskId, usize)> = threads
            .iter()
            .filter(|t| !t.finished && !t.stuck)
            .map(|t| (t.task, t.history.len()))
            .collect();
        match must.next_task(&runnable, &mut rng) {
            None => return threads.into_iter().map(|t| t.history).collect(),
            Some(task) => {
                let at = threads.iter().position(|t| t.task == task).unwrap();
                step(must, conf, &mut threads, at);
            }
        }
    }
}

/// Explores all executions; `seen` gets what the threads of each found out.
fn explore_with<P: RecvPredicate, F: FnMut(&[Vec<Res>])>(
    conf: Config,
    main: Program<P>,
    mut seen: F,
) -> Stats {
    let mut must: Must<P> = Must::new(conf, false);
    loop {
        let histories = execute(&mut must, &conf, &main);
        seen(&histories);
        if must.complete_execution() {
            return must.stats();
        }
    }
}

fn explore<P: RecvPredicate>(conf: Config, main: Program<P>) -> Stats {
    explore_with(conf, main, |_| {})
}

/// A straight-line operation of the main thread.
#[derive(Clone, Copy)]
enum Line {
    S,
    Rb,
    Rnb,
    I,
    Ib(usize, Option<usize>),
}

fn line(ops: Vec<Line>) -> Program<Predicate> {
    Rc::new(move |history: &[Res]| match ops.get(history.len()) {
        None => Op::End,
        Some(Line::S) => Op::Send { to: main_thread_id(), tag: None, handle: 7 },
        Some(Line::Rb) => Op::Recv { predicate: Predicate::Any, blocking: true },
        Some(Line::Rnb) => Op::Recv { predicate: Predicate::Any, blocking: false },
        Some(Line::I) => Op::Inbox { predicate: Predicate::Any, min: 0, max: None },
        Some(Line::Ib(min, max)) => Op::Inbox { predicate: Predicate::Any, min: *min, max: *max },
    })
}

fn run(ops: Vec<Line>) -> Stats {
    explore(Config::new(), line(ops))
}

fn run_bag(ops: Vec<Line>) -> Stats {
    explore(Config::new().with_cons_type(ConsType::Bag), line(ops))
}

fn repeat(op: Line, n: u32) -> Vec<Line> {
    (0..n).map(|_| op).collect()
}

fn equiv_test(i_case: Vec<Line>, r_case: Vec<Line>) {
    let i_stats = run(i_case);
    let r_stats = run(r_case);
    assert_eq!(i_stats.execs, r_stats.execs);
    assert_eq!(i_stats.block, r_stats.block);
}

fn not_equiv_test(i_case: Vec<Line>, r_case: Vec<Line>) {
    let i_stats = run(i_case);
    let r_stats = run(r_case);
    assert!(i_stats.execs != r_stats.execs || i_stats.block != r_stats.block);
}

#[test]
fn I_eq_Rnb() {
    equiv_test(vec![Line::I], vec![Line::Rnb]);
}

#[test]
fn I11_eq_Rb() {
    equiv_test(vec![Line::Ib(1, Some(1))], vec![Line::Rb]);
}

#[test]
fn I11_neq_Rnb() {
    not_equiv_test(vec![Line::Ib(1, Some(1))], vec![Line::Rnb]);
}

#[test]
fn I_neq_Rb() {
    not_equiv_test(vec![Line::I], vec![Line::Rb]);
}

#[test]
fn SI_eq_SRnb() {
    equiv_test(vec![Line::S, Line::I], vec![Line::S, Line::Rnb]);
}

#[test]
fn IS_eq_RnbS() {
    equiv_test(vec![Line::I, Line::S], vec![Line::Rnb, Line::S]);
}

#[test]
fn SI_neq_SRb() {
    not_equiv_test(vec![Line::S, Line::I], vec![Line::S, Line::Rb]);
}

#[test]
fn I11S_neq_RnbS() {
    not_equiv_test(vec![Line::Ib(1, Some(1)), Line::S], vec![Line::Rnb, Line::S]);
}

#[test]
fn test_I2S() {
    let stats = run(vec![Line::I, Line::S, Line::S]);
    assert_eq!(stats.execs, 1);
    assert_eq!(stats.block, 0);
}

#[test]
fn test_SIS() {
    let stats = run(vec![Line::S, Line::I, Line::S]);
    assert_eq!(stats.execs, 2);
    assert_eq!(stats.block, 0);
}

#[test]
fn test_2SI() {
    let stats = run_bag(vec![Line::S, Line::S, Line::I]);
    assert_eq!(stats.execs, 4);
    assert_eq!(stats.block, 0);
}

#[test]
fn test_nSIjS() {
    for n in 0..4u32 {
        for j in 0..4u32 {
            let mut ops = repeat(Line::S, n);
            ops.push(Line::I);
            ops.extend(repeat(Line::S, j));
            let stats = run_bag(ops);
            assert_eq!(stats.execs, (1 + 1u64).pow(n));
            assert_eq!(stats.block, 0);
        }
    }
}

#[test]
fn test_2SRnbI() {
    let mut ops = repeat(Line::S, 2);
    ops.push(Line::Rnb);
    ops.push(Line::I);
    let stats = run_bag(ops);
    assert_eq!(stats.execs, 8);
    assert_eq!(stats.block, 0);
}

#[test]
fn test_nSRnbI() {
    for n in 1..4u32 {
        let mut ops = repeat(Line::S, n);
        ops.push(Line::Rnb);
        ops.push(Line::I);
        let stats = run_bag(ops);
        assert_eq!(stats.execs, (2u32.pow(n) + n * 2u32.pow(n - 1)) as u64);
        assert_eq!(stats.block, 0);
    }
}

#[test]
fn test_nSIRnb() {
    for n in 1..4u32 {
        let mut ops = repeat(Line::S, n);
        ops.push(Line::I);
        ops.push(Line::Rnb);
        let stats = run_bag(ops);
        assert_eq!(stats.execs, (2u32.pow(n) + n * 2u32.pow(n - 1)) as u64);
        assert_eq!(stats.block, 0);
    }
}

#[test]
fn test_RnbInS() {
    for n in 1..4u32 {
        let mut ops = vec![Line::Rnb, Line::I];
        ops.extend(repeat(Line::S, n));
        let stats = run_bag(ops);
        assert_eq!(stats.execs, 1);
        assert_eq!(stats.block, 0);
    }
}

#[test]
fn test_IRnbnS() {
    for n in 1..4u32 {
        let mut ops = vec![Line::I, Line::Rnb];
        ops.extend(repeat(Line::S, n));
        let stats = run_bag(ops);
        assert_eq!(stats.execs, 1);
        assert_eq!(stats.block, 0);
    }
}

#[test]
fn test_2SRnbI2SIRn() {
    let mut ops = repeat(Line::S, 2);
    ops.push(Line::Rnb);
    ops.push(Line::I);
    ops.extend(repeat(Line::S, 2));
    ops.push(Line::I);
    ops.push(Line::Rnb);
    let stats = run_bag(ops);
    assert_eq!(
        stats.execs,
        (3 * (2i32.pow(2) + 2 * 2i32.pow(1))
            + 4 * (2i32.pow(3) + 3 * 2i32.pow(2))
            + 1 * (2i32.pow(4) + 4 * 2i32.pow(3))) as u64
    );
    assert_eq!(stats.block, 0);
}

fn two_sends_then(op: Line) -> Stats {
    let mut ops = repeat(Line::S, 2);
    ops.push(Line::Rnb);
    ops.push(op);
    run_bag(ops)
}

#[test]
fn test_2SRnbI1inf() {
    let stats = two_sends_then(Line::Ib(1, None));
    assert_eq!(stats.execs, 5);
    assert_eq!(stats.block, 0);
}

#[test]
fn test_2SRnbI2inf() {
    let stats = two_sends_then(Line::Ib(2, None));
    assert_eq!(stats.execs, 1);
    assert_eq!(stats.block, 2);
}

#[test]
fn test_2SRnbI1x1() {
    let stats = two_sends_then(Line::Ib(1, Some(1)));
    assert_eq!(stats.execs, 4);
    assert_eq!(stats.block, 0);
}

#[test]
fn test_2SRnbI1x2() {
    let stats = two_sends_then(Line::Ib(1, Some(2)));
    assert_eq!(stats.execs, 5);
    assert_eq!(stats.block, 0);
}

#[test]
fn test_2SRnbI2x2() {
    let stats = two_sends_then(Line::Ib(2, Some(2)));
    assert_eq!(stats.execs, 1);
    assert_eq!(stats.block, 2);
}

const ACCEPTED_TAG: u32 = 2;
const INBOX_CALLS: u32 = 1;

fn thread_at(history: &[Res], i: usize) -> ThreadId {
    match history[i] {
        Res::Thread(t) => t,
        _ => panic!("no thread was spawned here"),
    }
}

/// A thread that sends one message.
fn sender<P>(to: ThreadId, tag: Option<Vec<u32>>, handle: u64) -> Program<P> {
    Rc::new(move |history: &[Res]| match history.len() {
        0 => Op::Send { to, tag: tag.clone(), handle },
        _ => Op::End,
    })
}

#[test]
fn inbox_filters_on_tag_predicate() {
    let main: Program<Predicate> = Rc::new(|history: &[Res]| match history.len() {
        0 => Op::Spawn(Rc::new(|history: &[Res]| match history.len() {
            0 => Op::Inbox { predicate: Predicate::TagIs(vec![ACCEPTED_TAG]), min: 0, max: None },
            _ => {
                match &history[0] {
                    Res::Values(msgs) => {
                        assert!(
                            msgs.len() <= 1,
                            "expected at most one tagged message, got {}",
                            msgs.len()
                        );
                        if let Some(v) = msgs.first() {
                            assert_eq!(*v, ACCEPTED_TAG as u64);
                        }
                    }
                    other => panic!("no inbox: {:?}", other),
                }
                Op::End
            }
        })),
        1 => Op::Spawn(sender(
            thread_at(history, 0),
            Some(vec![ACCEPTED_TAG]),
            ACCEPTED_TAG as u64,
        )),
        2 => Op::Spawn(sender(
            thread_at(history, 0),
            Some(vec![ACCEPTED_TAG + 1]),
            ACCEPTED_TAG as u64 + 1,
        )),
        3 => Op::Join(thread_at(history, 1)),
        4 => Op::Join(thread_at(history, 2)),
        5 => Op::Join(thread_at(history, 0)),
        _ => Op::End,
    });
    let stats = explore(Config::new(), main);
    let matching_senders: u32 = 1; // only the ACCEPTED_TAG sender matches the predicate
    let expected_execs = (INBOX_CALLS + 1).pow(matching_senders) as u64;
    assert_eq!(stats.execs, expected_execs);
}

/// The slots, each as the word that stands for it in a tag.
const SLOT_A: u32 = 1;
const SLOT_B: u32 = 2;

const MSG_A: u64 = 10;
const MSG_B: u64 = 20;

type Keyed = KeyedPredicate<u32, u32, SameRound>;

fn on(slot: u32, rounds: &KeyedRounds<u32, u32>) -> Keyed {
    TraceForgeSetTransport::new().recv(slot, rounds.round(&slot), SameRound {}).unwrap()
}

fn tag_of(slot: u32, rounds: &KeyedRounds<u32, u32>) -> Option<Vec<u32>> {
    Some(TraceForgeSetTransport::new().send(&slot, &rounds.round(&slot)).unwrap())
}

#[test]
fn set_comm_rounds_are_independent_per_key() {
    let main: Program<Keyed> = Rc::new(|history: &[Res]| match history.len() {
        0 => Op::Spawn(Rc::new(|history: &[Res]| {
            let rounds = KeyedRounds::new(0u32);
            match history.len() {
                0 => Op::Recv { predicate: on(SLOT_A, &rounds), blocking: true },
                _ => {
                    assert_eq!(history[0], Res::Value(Some(MSG_A)));
                    Op::End
                }
            }
        })),
        1 => {
            let receiver = thread_at(history, 0);
            Op::Spawn(Rc::new(move |history: &[Res]| {
                let mut rounds = KeyedRounds::new(0u32);
                rounds.enter(SLOT_B, 1);
                match history.len() {
                    0 => Op::Send { to: receiver, tag: tag_of(SLOT_A, &rounds), handle: MSG_A },
                    _ => Op::End,
                }
            }))
        }
        2 => Op::Join(thread_at(history, 1)),
        3 => Op::Join(thread_at(history, 0)),
        _ => Op::End,
    });
    let stats = explore(Config::new(), main);
    assert_eq!(stats.block, 0);
    assert!(stats.execs > 0);
}

#[test]
fn set_comm_inbox_is_scoped_to_key() {
    let main: Program<Keyed> = Rc::new(|history: &[Res]| match history.len() {
        0 => Op::Spawn(Rc::new(|history: &[Res]| {
            let rounds = KeyedRounds::new(0u32);
            match history.len() {
                0 => Op::Inbox { predicate: on(SLOT_A, &rounds), min: 1, max: Some(2) },
                1 => {
                    assert_eq!(history[0], Res::Values(vec![MSG_A]));
                    Op::Recv { predicate: on(SLOT_B, &rounds), blocking: true }
                }
                _ => {
                    assert_eq!(history[1], Res::Value(Some(MSG_B)));
                    Op::End
                }
            }
        })),
        1 => {
            let receiver = thread_at(history, 0);
            Op::Spawn(Rc::new(move |history: &[Res]| {
                let rounds = KeyedRounds::new(0u32);
                match history.len() {
                    0 => Op::Send { to: receiver, tag: tag_of(SLOT_A, &rounds), handle: MSG_A },
                    1 => Op::Send { to: receiver, tag: tag_of(SLOT_B, &rounds), handle: MSG_B },
                    _ => Op::End,
                }
            }))
        }
        2 => Op::Join(thread_at(history, 1)),
        3 => Op::Join(thread_at(history, 0)),
        _ => Op::End,
    });
    let stats = explore(Config::new(), main);
    assert_eq!(stats.block, 0);
    assert!(stats.execs > 0);
}

#[test]
fn set_comm_rejects_untagged_transport() {
    let transport = TraceForgeSetTransport::with_mode(TraceForgeTransportMode::UntaggedRepeatedRecv);
    let err = transport.send(&SLOT_A, &0u32).unwrap_err();
    assert_eq!(
        err,
        TraceForgeSetTransportError::UnsupportedMode(TraceForgeTransportMode::UntaggedRepeatedRecv)
    );
    assert_eq!(
        err.message(),
        "keyed comm_close does not support transport mode UntaggedRepeatedRecv"
    );
    assert_eq!(construct_thread_id(0), main_thread_id());
}

/// Senders of one message each to a thread that runs `receiver`; all are joined.
fn fan_in(senders: u32, receiver: Program<Predicate>) -> Program<Predicate> {
    let n = senders as usize;
    Rc::new(move |history: &[Res]| {
        let k = history.len();
        if k == 0 {
            Op::Spawn(receiver.clone())
        } else if k <= n {
            Op::Spawn(sender(thread_at(history, 0), None, k as u64 - 1))
        } else if k <= 2 * n {
            Op::Join(thread_at(history, k - n))
        } else if k == 2 * n + 1 {
            Op::Join(thread_at(history, 0))
        } else {
            Op::End
        }
    })
}

/// The messages that each inbox of the second thread got.
fn inbox_contents(histories: &[Vec<Res>]) -> Vec<Vec<u64>> {
    histories[1]
        .iter()
        .map(|r| match r {
            Res::Values(v) => v.clone(),
            other => panic!("no inbox: {:?}", other),
        })
        .collect()
}

/// Each execution delivers each message at most once, and every way to spread the messages
/// over the inboxes, or to leave them, comes up.
fn simple_inbox(inboxes: u32, senders: u32) {
    let main = fan_in(senders, line(repeat(Line::I, inboxes)));
    let stats = explore_with(Config::new(), main, |histories| {
        let mut seen: u64 = 0;
        for id in inbox_contents(histories).iter().flatten() {
            assert!(*id < senders as u64, "message {} was not sent", id);
            assert_eq!(seen & (1 << id), 0, "message {} came twice", id);
            seen |= 1 << id;
        }
    });
    assert_eq!(stats.execs, (inboxes as u64 + 1).pow(senders));
    assert_eq!(stats.block, 0);
}

#[test]
fn simple_inbox_counts() {
    for inboxes in 0..7 {
        for senders in 0..5 {
            simple_inbox(inboxes, senders);
        }
    }
}

#[test]
fn simple_inbox_counts_with_many_senders() {
    for inboxes in 0..2 {
        for senders in 5..10 {
            simple_inbox(inboxes, senders);
        }
    }
}

#[test]
fn simple_inbox_2_6() {
    simple_inbox(2, 6);
}

#[test]
fn simple_inbox_2_7() {
    simple_inbox(2, 7);
}

#[test]
fn simple_inbox_2_8() {
    simple_inbox(2, 8);
}

#[test]
fn simple_inbox_2_9() {
    simple_inbox(2, 9);
}

#[test]
fn simple_inbox_3_6() {
    simple_inbox(3, 6);
}

#[test]
fn simple_inbox_3_7() {
    simple_inbox(3, 7);
}

#[test]
fn simple_inbox_3_8() {
    simple_inbox(3, 8);
}

#[test]
fn simple_inbox_4_5() {
    simple_inbox(4, 5);
}

#[test]
fn simple_inbox_4_6() {
    simple_inbox(4, 6);
}

#[test]
fn simple_inbox_4_7() {
    simple_inbox(4, 7);
}

#[test]
fn simple_inbox_5_5() {
    simple_inbox(5, 5);
}

#[test]
fn simple_inbox_5_6() {
    simple_inbox(5, 6);
}

#[test]
fn simple_inbox_6_5() {
    simple_inbox(6, 5);
}

#[test]
fn simple_inbox_6_6() {
    simple_inbox(6, 6);
}

#[test]
fn inboxes_deliver_each_message_once() {
    for inboxes in 0..7u32 {
        for senders in 0..4u32 {
            let mut delivered: Vec<Vec<Vec<u64>>> = Vec::new();
            let stats = explore_with(
                Config::new(),
                fan_in(senders, line(repeat(Line::I, inboxes))),
                |histories| delivered.push(inbox_contents(histories)),
            );
            assert_eq!(stats.execs, (inboxes as u64 + 1).pow(senders));
            let count = delivered.len();
            delivered.sort();
            delivered.dedup();
            assert_eq!(delivered.len(), count, "an execution was visited twice");
        }
    }
}

fn combinations(n: u32, k: u32) -> u64 {
    if k > n {
        return 0;
    }
    (0..k).fold(1, |acc: u64, i| acc * (n - i) as u64 / (i + 1) as u64)
}

#[test]
fn blocking_min() {
    for senders in 0..4 {
        let stats = explore(Config::new(), fan_in(senders, line(vec![Line::Ib(2, None)])));
        let expected = if senders < 2 {
            (0, 1)
        } else {
            ((2..=senders).map(|k| combinations(senders, k)).sum(), 0)
        };
        assert_eq!((stats.execs, stats.block), expected);
    }
}

#[test]
fn max_one() {
    for senders in 0..4 {
        let stats = explore(Config::new(), fan_in(senders, line(vec![Line::Ib(0, Some(1))])));
        assert_eq!((stats.execs, stats.block), (1 + combinations(senders, 1), 0));
    }
}

#[test]
fn two_blocking_one_each() {
    for senders in 0..4u32 {
        let ops = vec![Line::Ib(1, Some(1)), Line::Ib(1, Some(1))];
        let stats = explore(Config::new(), fan_in(senders, line(ops)));
        let expected = if senders < 2 {
            (0, 1)
        } else {
            (senders as u64 * (senders as u64 - 1), 0)
        };
        assert_eq!((stats.execs, stats.block), expected, "{} senders", senders);
    }
}

#[test]
fn two_nonblocking_max_one() {
    for senders in 0..4u64 {
        let ops = vec![Line::Ib(0, Some(1)), Line::Ib(0, Some(1))];
        let stats = explore(Config::new(), fan_in(senders as u32, line(ops)));
        let execs = (1 + senders) + senders * (1 + senders.saturating_sub(1));
        assert_eq!((stats.execs, stats.block), (execs, 0));
    }
}

/// The values that the senders send: `dominant` of them 0, the others in turn the values
/// from 1 on.
fn sender_values(senders: u32, values: u32, dominant: u32) -> Vec<u64> {
    (0..senders)
        .map(|i| match values {
            _ if i < dominant => 0,
            1 => 0,
            _ => ((i - dominant) % (values - 1) + 1) as u64,
        })
        .collect()
}

/// The value that came most often, the largest of those; 0 where nothing came.
fn decide_value(got: &Res) -> u64 {
    let values = match got {
        Res::Values(v) => v,
        other => panic!("no inbox: {:?}", other),
    };
    let count = |x: u64| values.iter().filter(|v| **v == x).count();
    values.iter().cloned().max_by_key(|v| (count(*v), *v)).unwrap_or(0)
}

/// Threads that collect the values of all senders, decide on one, and tell the first of
/// them what they decided.
fn quorum(collectors: u32, values: Vec<u64>) -> Stats {
    let (c, n) = (collectors as usize, values.len());
    let wanted = decide_value(&Res::Values(values.clone()));
    let main: Program<Predicate> = Rc::new(move |history: &[Res]| {
        let k = history.len();
        if k == 0 {
            Op::Spawn(Rc::new(move |h: &[Res]| match h.len() {
                0 => Op::Inbox { predicate: Predicate::TagIs(vec![1]), min: n, max: None },
                1 => Op::Inbox { predicate: Predicate::TagIs(vec![2]), min: c - 1, max: None },
                _ => Op::End,
            }))
        } else if k < c {
            let first = thread_at(history, 0);
            Op::Spawn(Rc::new(move |h: &[Res]| match h.len() {
                0 => Op::Inbox { predicate: Predicate::TagIs(vec![1]), min: n, max: None },
                1 => Op::Send { to: first, tag: Some(vec![2]), handle: decide_value(&h[0]) },
                _ => Op::End,
            }))
        } else if k < c + n {
            let receivers: Vec<ThreadId> = (0..c).map(|i| thread_at(history, i)).collect();
            let value = values[k - c];
            Op::Spawn(Rc::new(move |h: &[Res]| match receivers.get(h.len()) {
                Some(to) => Op::Send { to: *to, tag: Some(vec![1]), handle: value },
                None => Op::End,
            }))
        } else if k < c + 2 * n {
            Op::Join(thread_at(history, k - n))
        } else if k < 2 * c + 2 * n - 1 {
            Op::Join(thread_at(history, k - c - 2 * n + 1))
        } else if k == 2 * c + 2 * n - 1 {
            Op::Join(thread_at(history, 0))
        } else {
            Op::End
        }
    });
    explore_with(Config::new(), main, |histories| {
        let decided = decide_value(&histories[1][0]);
        assert_eq!(decided, wanted);
        assert_eq!(histories[1][1], Res::Values(vec![decided; c - 1]));
    })
}

fn quorums(collectors: u32) {
    for senders in 0..5 {
        for values in 1..5 {
            for dominant in 0..=senders {
                let stats = quorum(collectors, sender_values(senders, values, dominant));
                assert_eq!(
                    (stats.execs, stats.block),
                    (1, 0),
                    "{} collectors, {} senders, {} values, {} dominant",
                    collectors,
                    senders,
                    values,
                    dominant
                );
            }
        }
    }
}

#[test]
fn one_collector_decides() {
    quorums(1);
}

#[test]
fn two_collectors_agree() {
    quorums(2);
}

#[test]
fn three_collectors_agree() {
    quorums(3);
}

#[test]
fn four_collectors_agree() {
    quorums(4);
}

#[test]
fn decisions_go_by_number_and_then_by_value() {
    assert_eq!(sender_values(4, 3, 1), vec![0, 1, 2, 1]);
    assert_eq!(sender_values(3, 1, 0), vec![0, 0, 0]);
    assert_eq!(decide_value(&Res::Values(vec![])), 0);
    assert_eq!(decide_value(&Res::Values(vec![0, 1, 0])), 0);
    assert_eq!(decide_value(&Res::Values(vec![2, 0, 1])), 2);
}

#[test]
fn receives_take_messages_in_every_order() {
    for senders in 1..5u64 {
        let mut orders: Vec<Vec<Res>> = Vec::new();
        let stats = explore_with(
            Config::new(),
            fan_in(senders as u32, line(repeat(Line::Rb, senders as u32))),
            |histories| orders.push(histories[1].clone()),
        );
        assert_eq!((stats.execs, stats.block), ((1..=senders).product(), 0));
        for (i, a) in orders.iter().enumerate() {
            assert!(orders[..i].iter().all(|b| a != b));
        }
    }
}

/// A thread that sends two messages in a row to a thread that receives twice.
fn two_in_a_row() -> Program<Predicate> {
    Rc::new(|history: &[Res]| match history.len() {
        0 => Op::Spawn(line(vec![Line::Rb, Line::Rb])),
        1 => Op::Send { to: thread_at(history, 0), tag: None, handle: 1 },
        2 => Op::Send { to: thread_at(history, 0), tag: None, handle: 2 },
        _ => Op::End,
    })
}

#[test]
fn messages_of_one_thread_arrive_in_order() {
    let stats = explore_with(Config::new(), two_in_a_row(), |histories| {
        assert_eq!(histories[1], vec![Res::Value(Some(1)), Res::Value(Some(2))]);
    });
    assert_eq!((stats.execs, stats.block), (1, 0));
    let bag = Config::new().with_cons_type(ConsType::Bag);
    let stats = explore(bag, two_in_a_row());
    assert_eq!((stats.execs, stats.block), (2, 0));
}

/// An inbox that waits for two messages of one thread gets both, in their order.
#[test]
fn inboxes_wait_for_messages_of_one_thread() {
    let main: Program<Predicate> = Rc::new(|history: &[Res]| match history.len() {
        0 => Op::Spawn(line(vec![Line::Ib(2, None)])),
        1 => Op::Send { to: thread_at(history, 0), tag: None, handle: 1 },
        2 => Op::Send { to: thread_at(history, 0), tag: None, handle: 2 },
        _ => Op::End,
    });
    for cons_type in [ConsType::FIFO, ConsType::Bag] {
        let conf = Config::new().with_cons_type(cons_type);
        let stats = explore_with(conf, main.clone(), |histories| {
            assert_eq!(histories[1], vec![Res::Values(vec![1, 2])]);
        });
        assert_eq!((stats.execs, stats.block), (1, 0));
    }
}

/// Without order an inbox can take the second message and leave the first; in order it
/// cannot.
#[test]
fn inboxes_take_no_message_before_an_earlier_one() {
    let main: Program<Predicate> = Rc::new(|history: &[Res]| match history.len() {
        0 => Op::Spawn(line(vec![Line::I])),
        1 => Op::Send { to: thread_at(history, 0), tag: None, handle: 1 },
        2 => Op::Send { to: thread_at(history, 0), tag: None, handle: 2 },
        _ => Op::End,
    });
    for (cons_type, wanted) in [
        (ConsType::FIFO, vec![vec![], vec![1], vec![1, 2]]),
        (ConsType::Bag, vec![vec![], vec![1], vec![1, 2], vec![2]]),
    ] {
        let mut got: Vec<Vec<u64>> = Vec::new();
        let conf = Config::new().with_cons_type(cons_type);
        explore_with(conf, main.clone(), |h| got.extend(inbox_contents(h)));
        got.sort();
        assert_eq!(got, wanted);
    }
}

#[test]
fn waiting_receives_block() {
    let stats = run(vec![Line::Rb]);
    assert_eq!((stats.execs, stats.block), (0, 1));
    let stats = run(vec![Line::S, Line::Rb, Line::Rb]);
    assert_eq!((stats.execs, stats.block), (0, 1));
}

#[test]
fn choices_take_every_number() {
    let mut seen: Vec<Res> = Vec::new();
    let main: Program<Predicate> = Rc::new(|history: &[Res]| match history.len() {
        0 => Op::Choice(3, 6),
        _ => Op::End,
    });
    let stats = explore_with(Config::new(), main, |histories| seen.push(histories[0][0].clone()));
    assert_eq!(stats.execs, 4);
    assert_eq!(
        seen,
        vec![Res::Number(3), Res::Number(4), Res::Number(5), Res::Number(6)]
    );
}

#[test]
fn tosses_fall_both_ways() {
    let mut seen: Vec<Vec<Res>> = Vec::new();
    let main: Program<Predicate> = Rc::new(|history: &[Res]| match history.len() {
        0 | 1 => Op::Toss,
        _ => Op::End,
    });
    let stats = explore_with(Config::new(), main, |histories| seen.push(histories[0].clone()));
    assert_eq!(stats.execs, 4);
    for a in [true, false] {
        for b in [true, false] {
            assert!(seen.contains(&vec![Res::Flag(a), Res::Flag(b)]));
        }
    }
}

#[test]
fn failed_assumptions_block_the_execution() {
    let main: Program<Predicate> = Rc::new(|history: &[Res]| match history.len() {
        0 => Op::Toss,
        _ => {
            if history[0] == Res::Flag(true) {
                Op::Assume(false)
            } else {
                Op::End
            }
        }
    });
    let stats = explore(Config::new(), main);
    assert_eq!((stats.execs, stats.block), (1, 1));
}

#[test]
fn one_sample_fewer_is_drawn_than_is_left() {
    assert_eq!(further_samples(1), 0);
    assert_eq!(further_samples(2), 0);
    assert_eq!(further_samples(5), 3);
}

#[test]
fn samples_are_taken_in_turn() {
    let mut seen: Vec<Res> = Vec::new();
    let main: Program<Predicate> = Rc::new(|history: &[Res]| match history.len() {
        0 => Op::Sample(vec![8, 6, 7]),
        _ => Op::End,
    });
    let stats = explore_with(Config::new(), main, |histories| seen.push(histories[0][0].clone()));
    assert_eq!(stats.execs, 3);
    assert_eq!(seen, vec![Res::Number(8), Res::Number(6), Res::Number(7)]);
}

#[test]
fn messages_get_lost_within_the_budget() {
    let main = |n: usize| -> Program<Predicate> {
        Rc::new(move |history: &[Res]| {
            if history.len() < n {
                Op::LossySend { to: main_thread_id(), handle: 1 }
            } else if history.len() == n {
                Op::Recv { predicate: Predicate::Any, blocking: false }
            } else {
                Op::End
            }
        })
    };
    let budget = |b: usize| Config { lossy_budget: b, ..Config::new() };
    assert_eq!(explore(budget(0), main(1)).execs, 2);
    assert_eq!(explore(budget(1), main(1)).execs, 3);
    // Nothing lost: none or the first is read. One lost: none or the other is read.
    assert_eq!(explore(budget(1), main(2)).execs, 6);
    assert_eq!(explore(budget(2), main(2)).execs, 7);
}

#[test]
fn doubles_are_not_told_apart() {
    let main = |double: bool| -> Program<Predicate> {
        Rc::new(move |history: &[Res]| match history.len() {
            0 => Op::Spawn(sender(main_thread_id(), None, 1)),
            1 => {
                let program = sender(main_thread_id(), None, 1);
                if double {
                    Op::SpawnDouble(program, thread_at(history, 0))
                } else {
                    Op::Spawn(program)
                }
            }
            2 | 3 => Op::Recv { predicate: Predicate::Any, blocking: true },
            _ => Op::End,
        })
    };
    let conf = Config { symmetry: true, ..Config::new() };
    assert_eq!(explore(conf, main(false)).execs, 2);
    assert_eq!(explore(conf, main(true)).execs, 1);
}

#[test]
fn monitors_see_what_others_receive() {
    let main: Program<Predicate> = Rc::new(|history: &[Res]| match history.len() {
        0 => Op::SpawnMonitor(line(vec![Line::Rb])),
        1 => Op::Spawn(line(vec![Line::Rb])),
        2 => Op::WatchedSend {
            to: thread_at(history, 1),
            handle: 5,
            monitor: thread_at(history, 0),
        },
        _ => Op::End,
    });
    let stats = explore_with(Config::new(), main, |histories| {
        assert_eq!(histories[1], vec![Res::Value(Some(5))]);
        assert_eq!(histories[2], vec![Res::Value(Some(5))]);
    });
    assert_eq!((stats.execs, stats.block), (1, 0));
}

/// Both readers of a send are told of it when it is executed again: the receiver first,
/// then the monitor, though the monitor read it earlier.
#[test]
fn senders_name_their_reader_before_the_monitors() {
    let conf = Config::new();
    let mut must: Must<Predicate> = Must::new(conf, false);
    let (monitor, receiver) = (construct_thread_id(1), construct_thread_id(2));
    let at = |t: ThreadId, i: u32| Event::new(t, i);
    let main = main_thread_id();
    for round in 0..2 {
        must.begin_execution();
        must.handle_register_mon(monitor);
        must.handle_tcreate(monitor, TaskId { id: 1 }, None, at(main, 1), None, false);
        must.handle_tcreate(receiver, TaskId { id: 2 }, None, at(main, 2), None, false);
        let kind = LabelKind::Send {
            loc: Loc::Thread(receiver),
            tag: None,
            val: val(5),
            monitors: vec![monitor],
            lossy: false,
            dropped: false,
            model: conf.cons_type.model(),
        };
        let told = must.handle_send(at(main, 3), kind);
        if round == 0 {
            assert_eq!(told, vec![]);
            for t in [monitor, receiver] {
                let loc = RecvLoc::new(vec![Loc::Thread(t)], Predicate::Any);
                assert_eq!(must.handle_recv(at(t, 1), loc, true).0, Some(val(5)));
            }
        } else {
            assert_eq!(told, vec![at(receiver, 1), at(monitor, 1)]);
        }
    }
}

#[test]
fn monitors_are_told_in_ascending_order() {
    let mut must: Must<Predicate> = Must::new(Config::new(), false);
    for id in [5, 2, 5, 3] {
        must.handle_register_mon(construct_thread_id(id));
    }
    let ids: Vec<u32> = must.monitors.iter().map(|t| t.id).collect();
    assert_eq!(ids, vec![2, 3, 5]);
    must.publish(main_thread_id(), val(4));
    assert!(must.is_consistent());
    let end = must.invoke_on_stop();
    assert_eq!(end.condition, EndCondition::MonitorTerminated);
    assert_eq!(end.published, vec![(main_thread_id(), 1, val(4))]);
    must.handle_tend(Event::new(main_thread_id(), 1), val(0));
    let ending = must.end_execution();
    assert_eq!(ending.condition, EndCondition::AllThreadsCompleted);
    let told: Vec<u32> = ending.monitors.iter().map(|t| t.id).collect();
    assert_eq!(told, vec![2, 3, 5]);
    assert_eq!(ending.published, vec![(main_thread_id(), 1, val(4))]);
    assert!(must.published.is_empty() && must.monitors.is_empty());
    assert_eq!((must.stats().execs, must.stats().block), (1, 0));
}

#[test]
fn threads_keep_their_names() {
    let mut must: Must<Predicate> = Must::new(Config::new(), false);
    must.begin_execution();
    let pos = Event::new(main_thread_id(), 1);
    let child = must.next_thread_id(pos);
    must.handle_tcreate(child, TaskId { id: 1 }, None, pos, Some("worker".to_string()), true);
    match &must.current.graph.copy().label(pos).kind {
        LabelKind::TCreate { cid, name, daemon, .. } => {
            assert_eq!((*cid, name.as_deref(), *daemon), (child, Some("worker"), true));
        }
        _ => panic!("no thread was created"),
    }
}

/// A picture that could not be written takes its slot, but nothing hangs on it.
#[test]
fn pictures_that_fail_keep_their_slot() {
    let conf = Config { tikz: true, ..Config::new() };
    let mut must: Must<Predicate> = Must::new(conf, false);
    must.log_tikz_graph(GraphKind::Snapshot);
    assert_eq!((must.layout.col, must.layout.last_graph), (1, Some((0, 0))));
    must.note_page(false);
    must.log_tikz_graph(GraphKind::Snapshot);
    assert_eq!((must.layout.col, must.layout.last_graph), (2, Some((0, 0))));
    must.note_page(true);
    must.log_tikz_graph(GraphKind::Complete);
    assert_eq!((must.layout.row, must.layout.last_graph), (1, Some((0, 2))));
    assert_eq!(must.pages.len(), 3);
}

#[test]
fn monitors_are_spawned_first() {
    let mut must: Must<Predicate> = Must::new(Config::new(), false);
    must.begin_execution();
    assert_eq!(
        must.validate_monitor_spawn(Event::new(construct_thread_id(1), 1)),
        Err(MonitorSpawnError::NotMainThread)
    );
    must.handle_ctoss(Event::new(main_thread_id(), 1));
    assert_eq!(
        must.validate_monitor_spawn(Event::new(main_thread_id(), 2)),
        Err(MonitorSpawnError::NotFirst)
    );
}

#[test]
fn graphs_can_be_handed_to_other_workers() {
    let conf = Config::new();
    let main = fan_in(3, line(repeat(Line::Rb, 3)));
    let mut worker: Must<Predicate> = Must::new(conf, false);
    worker.set_parallel_queues(100);
    let mut waiting = Vec::new();
    let mut visited = 0;
    loop {
        execute(&mut worker, &conf, &main);
        visited += 1;
        let done = worker.complete_execution();
        waiting.append(&mut worker.handoffs);
        if done {
            match waiting.pop() {
                Some(graph) => worker.reset_execution_graph(graph),
                None => break,
            }
        }
    }
    assert_eq!(visited, 6);
    assert_eq!(worker.stats().execs, 6);
}

#[test]
fn estimates_count_alternatives() {
    let conf = Config { mode: ExplorationMode::Estimation, ..Config::new() };
    let mut must: Must<Predicate> = Must::new(conf, false);
    must.begin_execution();
    assert!(must.handle_ctoss_with(Event::new(main_thread_id(), 1), true));
    assert!(!must.handle_ctoss_with(Event::new(main_thread_id(), 2), false));
    assert_eq!(must.handle_choice_with(Event::new(main_thread_id(), 3), 4, 9, 7), 7);
    let drawn = must.handle_choice(Event::new(main_thread_id(), 4), 4, 9);
    assert!((4..=9).contains(&drawn));
    assert_eq!(must.estimates, vec![2, 2, 6, 6]);
}

#[test]
fn random_schedules_visit_the_same_executions() {
    let conf = Config { schedule_policy: SchedulePolicy::Arbitrary, seed: 7, ..Config::new() };
    for senders in 1..4u64 {
        let stats = explore(conf, fan_in(senders as u32, line(repeat(Line::Rb, senders as u32))));
        assert_eq!((stats.execs, stats.block), ((1..=senders).product(), 0));
        let stats = explore(conf, fan_in(senders as u32, line(repeat(Line::I, 2))));
        assert_eq!((stats.execs, stats.block), (3u64.pow(senders as u32), 0));
    }
}

#[test]
fn executions_are_visited_up_to_the_limit() {
    let conf = Config { max_iterations: Some(4), ..Config::new() };
    let stats = explore(conf, fan_in(3, line(repeat(Line::Rb, 3))));
    assert_eq!(stats.execs, 4);
}

#[test]
fn failing_executions_can_be_replayed() {
    let conf = Config { error_trace: true, ..Config::new() };
    let main = fan_in(2, line(vec![Line::Rb, Line::Rb]));
    let mut must: Must<Predicate> = Must::new(conf, false);
    execute(&mut must, &conf, &main);
    assert!(!must.complete_execution());
    let first = execute(&mut must, &conf, &main);
    assert_eq!(first[1], vec![Res::Value(Some(1)), Res::Value(Some(0))]);
    let error = Event::new(construct_thread_id(1), 2);
    must.config.error_trace = false;
    assert!(!must.store_replay_information(Some(error)));
    assert!(!must.replay_info.error_found && !must.replay_info.replay_mode);
    must.config.error_trace = true;
    assert!(must.store_replay_information(Some(error)));
    assert!(!must.store_replay_information(None));
    let order = must.replay_info.order.clone();
    assert_eq!(order.last(), Some(&error));
    assert_eq!(order[0], Event::new(main_thread_id(), 0));

    let mut replay: Must<Predicate> = Must::new(conf, true);
    let state = MustState { graph: must.current.graph.copy(), rqueue: RevisitQueue::new() };
    replay.config.seed = 1;
    replay.load_replay_information(ReplayInformation::create(order, must.config), state);
    assert_eq!(replay.config, must.config);
    assert_eq!(replay.replay_info.config(), must.config);
    let mut info = ReplayInformation::create(replay.replay_info.order.clone(), conf);
    assert_eq!(info.next_task(), Some(main_thread_id()));
    let wrong = Event::new(main_thread_id(), 1);
    assert_eq!(
        info.consume(wrong),
        Err(ReplayFailure { executing: wrong, expected: Event::new(main_thread_id(), 0) })
    );
    assert_eq!(info.consume(Event::new(main_thread_id(), 0)), Ok(()));
    assert_eq!(replay.try_consume(wrong), Ok(()));
}

#[test]
fn graphs_are_written_out() {
    let conf = Config::new();
    let main = fan_in(1, line(vec![Line::Rb]));
    let mut must: Must<Predicate> = Must::new(conf, false);
    execute(&mut must, &conf, &main);
    let dot = must.print_graph_dot(None);
    assert!(dot.starts_with("strict digraph {"));
    assert!(dot.contains("[color=green]"));
    let trace = must.print_graph_trace(None);
    let events = must.trace_events(None);
    assert_eq!(trace.lines().count(), events.len() + 1);
    assert!(trace.ends_with("\n\n"));
    let send = Event::new(construct_thread_id(2), 1);
    let recv = Event::new(construct_thread_id(1), 1);
    let at = |e: Event| events.iter().position(|x| *x == e).unwrap();
    assert!(at(send) < at(recv));
    assert!(must.print_graph().contains("(t1, 1)"));
}

#[test]
fn pictures_are_taken_of_each_step() {
    let conf = Config { tikz: true, ..Config::new() };
    let main = fan_in(2, line(vec![Line::Rb, Line::Rb]));
    let mut must: Must<Predicate> = Must::new(conf, false);
    loop {
        execute(&mut must, &conf, &main);
        if must.complete_execution() {
            break;
        }
    }
    let complete = must.pages.iter().filter(|p| p.kind == GraphKind::Complete).count();
    assert_eq!(complete as u64, must.stats().execs);
    let mut manifest = Manifest::new();
    for p in must.pages.iter() {
        manifest.add_graph(p.row, p.col, p.row_start, p.kind == GraphKind::Complete);
        let doc = single_graph_document(&p.graph);
        assert!(doc.contains("\\begin{tikzpicture}"));
    }
    let lines = manifest.save_manifest();
    let back = Manifest::load_manifest(&lines);
    assert_eq!(back.save_manifest(), lines);
    assert_eq!(back.next_graph_index(), must.pages.len());
    let html = back.gallery_html("trace");
    assert!(html.contains("trace"));
}

#[test]
fn values_are_published_by_type() {
    let mut must: Must<Predicate> = Must::new(Config::new(), false);
    must.begin_execution();
    must.publish(main_thread_id(), Val::new(1, 10));
    must.publish(main_thread_id(), Val::new(2, 20));
    must.publish(main_thread_id(), Val::new(1, 11));
    assert_eq!(must.published.len(), 2);
    assert_eq!(must.published[0].2.handle, 11);
    assert_eq!(must.published[1].2.handle, 20);
}

#[test]
fn large_threads_draw_one_warning() {
    let conf = Config { thread_threshold: 3, ..Config::new() };
    let mut must: Must<Predicate> = Must::new(conf, false);
    execute(&mut must, &conf, &line(repeat(Line::S, 6)));
    assert_eq!(must.warnings.len(), 1);
    assert_eq!(must.warn_limit, 0);
}

#[test]
fn progress_is_reported_ever_more_rarely() {
    for n in [1u64, 2, 9, 10, 20, 90, 100, 7000] {
        assert!(Must::<Predicate>::should_report(n));
    }
    for n in [11u64, 15, 101, 110, 7001] {
        assert!(!Must::<Predicate>::should_report(n));
    }
}

/// What a thread of a small program does in one step: the receiver and the value of a
/// message, whether a receive waits, the bounds of an inbox, a toss, or the thread that it
/// waits for.
#[derive(Clone, Copy, Debug)]
enum Step {
    Send(usize, u64),
    Recv(bool),
    Inbox(usize, Option<usize>),
    Toss,
    Join(usize),
}

/// What each thread got from each of its receives, inboxes and tosses.
type Reads = Vec<Vec<Vec<u64>>>;

/// A small program: what each thread does. All but the first are spawned by the first.
type Small = Vec<Vec<Step>>;

/// The operations of thread `t`.
fn small_thread(program: Small, t: usize) -> Program<Predicate> {
    let spawns = if t == 0 { program.len() - 1 } else { 0 };
    Rc::new(move |history: &[Res]| {
        let k = history.len();
        if k < spawns {
            return Op::Spawn(small_thread(program.clone(), k + 1));
        }
        match program[t].get(k - spawns) {
            None => Op::End,
            Some(Step::Send(to, handle)) => {
                Op::Send { to: construct_thread_id(*to as u32), tag: None, handle: *handle }
            }
            Some(Step::Recv(blocking)) => {
                Op::Recv { predicate: Predicate::Any, blocking: *blocking }
            }
            Some(Step::Inbox(min, max)) => {
                Op::Inbox { predicate: Predicate::Any, min: *min, max: *max }
            }
            Some(Step::Toss) => Op::Toss,
            Some(Step::Join(thread)) => Op::Join(construct_thread_id(*thread as u32)),
        }
    })
}

/// What the threads read, by all schedules: `got` so far, and the messages under way as
/// sender, receiver and value.
fn all_outcomes(
    program: &Small,
    fifo: bool,
    at: Vec<usize>,
    got: Reads,
    mail: Vec<(usize, usize, u64)>,
    out: &mut Vec<Reads>,
) {
    let mut moved = false;
    for t in 0..program.len() {
        let (min, max) = match program[t].get(at[t]) {
            None => continue,
            Some(Step::Send(to, handle)) => {
                let mut at2 = at.clone();
                at2[t] += 1;
                let mut mail2 = mail.clone();
                mail2.push((t, *to, *handle));
                all_outcomes(program, fifo, at2, got, mail2, out);
                // Sending commutes with what the others do next.
                return;
            }
            Some(Step::Toss) => {
                for side in 0..2 {
                    let mut at2 = at.clone();
                    at2[t] += 1;
                    let mut got2 = got.clone();
                    got2[t].push(vec![side]);
                    all_outcomes(program, fifo, at2, got2, mail.clone(), out);
                }
                return;
            }
            Some(Step::Join(thread)) => {
                if at[*thread] < program[*thread].len() {
                    continue;
                }
                let mut at2 = at.clone();
                at2[t] += 1;
                all_outcomes(program, fifo, at2, got, mail, out);
                return;
            }
            Some(Step::Recv(true)) => (1, 1),
            Some(Step::Recv(false)) => (0, 1),
            Some(Step::Inbox(min, max)) => (*min, max.unwrap_or(mail.len())),
        };
        let waiting: Vec<usize> = (0..mail.len()).filter(|&i| mail[i].1 == t).collect();
        for chosen in 0..1usize << waiting.len() {
            let taken: Vec<usize> =
                (0..waiting.len()).filter(|k| chosen >> k & 1 == 1).map(|k| waiting[k]).collect();
            let in_order = taken.iter().all(|&i| {
                waiting.iter().all(|&k| k >= i || mail[k].0 != mail[i].0 || taken.contains(&k))
            });
            if min <= taken.len() && taken.len() <= max && (in_order || !fifo) {
                moved = true;
                let mut at2 = at.clone();
                at2[t] += 1;
                let mut got2 = got.clone();
                let mut values: Vec<u64> = taken.iter().map(|&i| mail[i].2).collect();
                values.sort();
                got2[t].push(values);
                let mail2 =
                    (0..mail.len()).filter(|i| !taken.contains(i)).map(|i| mail[i]).collect();
                all_outcomes(program, fifo, at2, got2, mail2, out);
            }
        }
    }
    if !moved && !out.contains(&got) {
        out.push(got);
    }
}

fn small_program(seed: u64, varied: bool) -> Small {
    let mut state = seed.wrapping_mul(6364136223846793005).wrapping_add(1442695040888963407);
    let mut draw = |n: u64| {
        state = state.wrapping_mul(6364136223846793005).wrapping_add(1442695040888963407);
        (state >> 33) % n
    };
    let threads = 2 + draw(3) as usize;
    let mut handle = 0;
    (0..threads)
        .map(|t| {
            (0..draw(4))
                .map(|_| match draw(if varied { 9 } else { 5 }) {
                    0 => Step::Recv(true),
                    1 | 2 => Step::Recv(false),
                    5 | 6 => {
                        let min = draw(3) as usize;
                        let limit = 1 + draw(2) as usize;
                        let max = if min == 0 && draw(2) == 0 { Some(limit) } else { None };
                        Step::Inbox(min, max)
                    }
                    7 => Step::Toss,
                    8 if t == 0 => Step::Join(1 + draw(threads as u64 - 1) as usize),
                    _ => {
                        handle += 1;
                        Step::Send(draw(threads as u64) as usize, handle)
                    }
                })
                .collect()
        })
        .collect()
}

fn reads(program: &Small, histories: &[Vec<Res>]) -> Reads {
    let mut r: Reads = histories
        .iter()
        .map(|h| {
            h.iter()
                .filter_map(|x| match x {
                    Res::Value(v) => Some(v.iter().copied().collect()),
                    Res::Flag(side) => Some(vec![*side as u64]),
                    Res::Values(vs) => {
                        let mut vs = vs.clone();
                        vs.sort();
                        Some(vs)
                    }
                    _ => None,
                })
                .collect()
        })
        .collect();
    r.resize(program.len(), Vec::new());
    r
}

/// Explores a program under the given policy; returns what was found, execution by
/// execution and sorted, and what was to be found.
fn found_and_expected(
    program: &Small,
    cons_type: ConsType,
    policy: SchedulePolicy,
    seed: u64,
) -> (Vec<Reads>, Vec<Reads>) {
    let conf = Config { cons_type, schedule_policy: policy, seed, ..Config::new() };
    let mut found = Vec::new();
    explore_with(conf, small_thread(program.clone(), 0), |histories| {
        found.push(reads(program, histories));
    });
    found.sort();
    let mut expected = Vec::new();
    let n = program.len();
    all_outcomes(
        program,
        cons_type == ConsType::FIFO,
        vec![0; n],
        vec![Vec::new(); n],
        Vec::new(),
        &mut expected,
    );
    expected.sort();
    (found, expected)
}

#[test]
fn small_programs_are_explored_completely_and_without_repetition() {
    for seed in 0..400 {
        for varied in [false, true] {
            let program = small_program(seed, varied);
            for cons_type in [ConsType::FIFO, ConsType::Bag] {
                for policy in [SchedulePolicy::LTR, SchedulePolicy::Arbitrary] {
                    let (found, expected) = found_and_expected(&program, cons_type, policy, seed);
                    assert_eq!(found, expected, "{:?} {:?} {:?}", program, cons_type, policy);
                }
            }
        }
    }
}

#[test]
fn full_inboxes_are_not_revisited() {
    let program: Small = vec![
        vec![Step::Recv(false), Step::Send(1, 1), Step::Send(1, 2)],
        vec![Step::Inbox(1, Some(2))],
        vec![Step::Send(1, 3)],
    ];
    let (found, expected) =
        found_and_expected(&program, ConsType::Bag, SchedulePolicy::LTR, 0);
    assert_eq!(expected.len(), 6);
    assert_eq!(found.len(), 3);
    assert!(found.iter().all(|reads| expected.contains(reads) && !reads[1][0].contains(&3)));
}

#[test]
fn channels_are_recorded() {
    let mut must: Must<Predicate> = Must::new(Config::new(), false);
    must.begin_execution();
    let pos = Event::new(main_thread_id(), 1);
    assert_eq!(must.handle_unique(pos, Loc::Channel(3)), Loc::Channel(3));
    let label = must.current.graph.label_opt(pos).unwrap();
    assert!(matches!(label.kind, LabelKind::Unique { loc: Loc::Channel(3) }));
}

/// An exploration in which the main thread received nothing and then sent itself a message.
fn received_and_sent() -> (Must<Predicate>, Event, Event) {
    let mut must: Must<Predicate> = Must::new(Config::new(), false);
    must.begin_execution();
    let main = main_thread_id();
    let (recv, send) = (Event::new(main, 1), Event::new(main, 2));
    must.handle_recv(recv, RecvLoc::new(vec![Loc::Thread(main)], Predicate::Any), false);
    must.handle_send(
        send,
        LabelKind::Send {
            loc: Loc::Thread(main),
            tag: None,
            val: val(1),
            monitors: Vec::new(),
            lossy: false,
            dropped: false,
            model: ConsType::FIFO.model(),
        },
    );
    (must, recv, send)
}

#[test]
fn picked_revisits_end_the_execution() {
    let (mut must, recv, send) = received_and_sent();
    must.pick_revisit_with(&vec![recv], send, 0);
    assert!(must.is_stopped());
    assert_eq!(must.estimates, vec![2]);
    assert_eq!(must.check_blocked(), Some(BlockType::Assume));
    assert!(!must.current.rqueue.is_empty());

    let (mut must, recv, send) = received_and_sent();
    must.pick_revisit_with(&vec![recv], send, 1);
    assert!(!must.is_stopped());
    assert_eq!(must.estimates, vec![2]);
    assert!(must.current.rqueue.is_empty());

    let (mut must, recv, send) = received_and_sent();
    must.pick_revisit(&vec![recv], send);
    assert_eq!(must.is_stopped(), !must.current.rqueue.is_empty());
}
