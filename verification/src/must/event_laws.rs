//! What recording an event, executing it again and revisiting it keeps and changes.

use crate::cons::stamp_of;
use crate::event::{Event, TaskId};
use crate::event_label::{KindView, LabelView};
use crate::exec_graph::{
    comes_before, dropped_upto, frozen, graph_wf, in_log, index_of, label_at, lemma_frozen,
    lemma_index_of, lemma_restricted, lemma_with_kind, ready, restricted, thread_of, GraphView,
};
use crate::loc::RecvPredicate;
use crate::must::backward::{revisits_from, revisits_noted};
use crate::must::handle::{
    choice_added, comes_next, lemma_comes_next, replayable, replayed, sent, spawned,
};
use crate::must::revisit_laws::lemma_with_revisits;
use crate::must::sched::{first_runnable, is_ready, ready_tasks, runnable_at, scheduled};
use crate::must::step::{
    dequeued, forwarded, hands_off, has_more, init_event, next_alternative, revisit_next,
    revisited_graph, with_placement,
};
use crate::must::visit::forward_to;
use crate::must::{added, log_of, must_ok, with_revisit, MustView};
use crate::random::{is_order, lemma_order};
use crate::revisit::{lemma_pushed, sends_of, PlacementView, RevisitView};
use vstd::prelude::*;

verus! {

/// A new event comes last in the log, under the next stamp; nothing that was recorded
/// changes, and no revisit comes or goes.
pub proof fn law_new_events_come_last<P>(v: MustView<P>, pos: Event, kind: KindView)
    requires
        must_ok(v),
        comes_next(v, pos),
    ensures
        ({
            let w = added(v, pos, kind);
            &&& log_of(w) == log_of(v).push(LabelView { pos, stamp: v.current.graph.stamp, kind })
            &&& w.current.graph.stamp == v.current.graph.stamp + 1
            &&& w.current.graph.tasks == v.current.graph.tasks
            &&& w.current.rqueue == v.current.rqueue
            &&& w.states == v.states
            &&& w.locs == v.locs
            &&& w.monitors == v.monitors
            &&& w.published == v.published
            &&& w.replay == v.replay
            &&& w.execs == v.execs && w.blocked == v.blocked
        }),
{
    let log = log_of(v);
    if log.len() > 0 && log.last().pos == pos {
        assert(log[log.len() - 1].pos == pos);
    }
}

/// Whether what an event did stays, as far as it was decided.
pub open spec fn same_decision(a: KindView, b: KindView) -> bool {
    match (a, b) {
        (
            KindView::Recv { blocking, rf, revisitable, .. },
            KindView::Recv { blocking: x, rf: y, revisitable: z, .. },
        ) => blocking == x && rf == y && revisitable == z,
        (
            KindView::Inbox { min, max, rfs, revisitable, .. },
            KindView::Inbox { min: w, max: x, rfs: y, revisitable: z, .. },
        ) => min == w && max == x && rfs == y && revisitable == z,
        (
            KindView::Send { lossy, dropped, model, .. },
            KindView::Send { lossy: x, dropped: y, model: z, .. },
        ) => lossy == x && dropped == y && model == z,
        (KindView::End { .. }, KindView::End { .. }) => true,
        _ => a == b,
    }
}

/// An event that is executed again does what was decided before: it reads what it read, it
/// stands at the alternative at which it stood, and it is lost or not as it was. A send and
/// the end of a thread have the values that they produce now. No other event changes.
pub proof fn law_repeated_events_keep_their_decisions<P>(
    v: MustView<P>,
    pos: Event,
    kind: KindView,
)
    requires
        must_ok(v),
        replayable(v, pos, kind),
    ensures
        ({
            let w = replayed(v, pos, kind);
            let before = label_at(log_of(v), pos);
            let after = label_at(log_of(w), pos);
            &&& log_of(w).len() == log_of(v).len()
            &&& forall|i: int|
                0 <= i < log_of(v).len() && log_of(v)[i].pos != pos ==> #[trigger] log_of(w)[i]
                    == log_of(v)[i]
            &&& after.pos == pos && after.stamp == before.stamp
            &&& same_decision(before.kind, after.kind)
            &&& kind matches KindView::Send { val, .. } ==> after.kind->val == val
            &&& kind matches KindView::End { result } ==> after.kind->End_result == result
            &&& !v.replay.replay_mode && before.kind is Send ==> after.kind->Send_loc
                == before.kind->Send_loc && after.kind->tag == before.kind->tag
            &&& w.current.rqueue == v.current.rqueue
            &&& w.states == v.states
        }),
{
    let log = log_of(v);
    let k = index_of(log, pos);
    lemma_index_of(log, k);
    let next = crate::must::handle::recovered_kind(
        label_at(log, pos).kind,
        kind,
        v.replay.replay_mode,
    );
    lemma_with_kind(v.current.graph, pos, next);
}

/// A choice whose alternatives are visited in turn waits in the worklist to be revisited,
/// next to all that waited before.
pub proof fn law_choices_wait_for_their_revisit<P>(v: MustView<P>, pos: Event, kind: KindView)
    requires
        must_ok(v),
        comes_next(v, pos),
    ensures
        ({
            let w = choice_added(v, pos, kind, true);
            let u = choice_added(v, pos, kind, false);
            &&& w.current.rqueue.contains((v.current.graph.stamp, forward_to(pos, init_event())))
            &&& w.current.rqueue.len() == v.current.rqueue.len() + 1
            &&& forall|k: int|
                0 <= k < v.current.rqueue.len() ==> w.current.rqueue.contains(
                    #[trigger] v.current.rqueue[k],
                )
            &&& u.current.rqueue == v.current.rqueue
            &&& log_of(w).last() == (LabelView { pos, stamp: v.current.graph.stamp, kind })
            &&& log_of(u) == log_of(w)
        }),
{
    law_new_events_come_last(v, pos, kind);
    lemma_pushed(v.current.rqueue, v.current.graph.stamp, forward_to(pos, init_event()));
}

/// The next alternative of an event: a toss falls to the other side, a choice takes the
/// next number, a sample the next value, and a message is lost. A receive reads what it was
/// revisited for.
pub proof fn law_next_alternatives(kind: KindView, placement: PlacementView)
    ensures
        kind matches KindView::CToss { result } ==> next_alternative(kind, placement)
            == (KindView::CToss { result: !result }),
        kind matches KindView::Choice { start, end, result } ==> (result < end ==> next_alternative(
            kind,
            placement,
        ) == (KindView::Choice { start, end, result: (result + 1) as usize })),
        kind matches KindView::Sample { current, rest } ==> (rest.len() > 0 ==> next_alternative(
            kind,
            placement,
        ) == (KindView::Sample { current: rest[0], rest: rest.subrange(1, rest.len() as int) })),
        kind matches KindView::Send { loc, tag, val, monitors, lossy, dropped, model }
            ==> next_alternative(kind, placement) == (KindView::Send {
            loc,
            tag,
            val,
            monitors,
            lossy,
            dropped: true,
            model,
        }),
        kind matches KindView::Recv { loc, blocking, rf, revisitable } ==> (placement
            matches PlacementView::Default(e) ==> next_alternative(kind, placement)
            == (KindView::Recv { loc, blocking, rf: Some(e), revisitable })),
        has_more(kind) <==> (kind matches KindView::Choice { end, result, .. } && result + 1 < end)
            || (kind matches KindView::Sample { rest, .. } && rest.len() > 1),
{
    if let KindView::Sample { rest, .. } = kind {
        if rest.len() > 0 {
            assert(rest.drop_first() =~= rest.subrange(1, rest.len() as int));
        }
    }
}

/// A sample runs through its values: each revisit takes the next one, and another revisit
/// waits as long as one is left.
pub proof fn law_samples_run_through_their_values<P>(
    v: MustView<P>,
    pos: Event,
    current: u64,
    rest: Seq<u64>,
)
    requires
        must_ok(v),
        in_log(log_of(v), pos),
        rest.len() > 0,
        label_at(log_of(v), pos).kind == (KindView::Sample { current, rest }),
    ensures
        ({
            let w = forwarded(v, forward_to(pos, init_event()));
            let entry = (label_at(log_of(v), pos).stamp, forward_to(pos, init_event()));
            &&& label_at(log_of(w), pos).kind == (KindView::Sample {
                current: rest[0],
                rest: rest.subrange(1, rest.len() as int),
            })
            &&& rest.len() > 1 ==> w.current.rqueue.contains(entry)
            &&& rest.len() == 1 ==> w.current.rqueue == v.current.rqueue
        }),
{
    let r = forward_to(pos, init_event());
    crate::must::laws::law_forward_revisits_change_one_event(v, r);
    law_next_alternatives(label_at(log_of(v), pos).kind, r.rev);
    lemma_pushed(v.current.rqueue, label_at(log_of(v), pos).stamp, r);
}

/// How many of the first `n` labels are lost sends is their number.
proof fn lemma_lost(log: Seq<LabelView>, n: nat)
    requires
        n <= log.len(),
    ensures
        dropped_upto(log, n) == lost_places(log, n).len(),
        lost_places(log, n).finite(),
    decreases n,
{
    if n == 0 {
        assert(lost_places(log, 0) =~= Set::<int>::empty());
    } else {
        let m = (n - 1) as nat;
        lemma_lost(log, m);
        if crate::exec_graph::is_dropped(log[n - 1]) {
            assert(lost_places(log, n) =~= lost_places(log, m).insert(n - 1));
        } else {
            assert(lost_places(log, n) =~= lost_places(log, m));
        }
    }
}

/// Where among the first `n` labels messages were lost.
pub open spec fn lost_places(log: Seq<LabelView>, n: nat) -> Set<int> {
    Set::new(
        |i: int|
            0 <= i < n && (log[i].kind matches KindView::Send { dropped, .. } && dropped),
    )
}

/// A message that may be lost is lost in a revisit exactly if fewer messages than allowed
/// have been lost so far.
pub proof fn law_messages_are_lost_within_the_budget<P: RecvPredicate>(
    v: MustView<P>,
    pos: Event,
    kind: KindView,
)
    requires
        must_ok(v),
        comes_next(v, pos),
        kind is Send,
        !kind->dropped,
    ensures
        sent(v, pos, kind).current.rqueue.contains(
            (v.current.graph.stamp, forward_to(pos, init_event())),
        ) <==> kind->lossy && lost_places(log_of(v), log_of(v).len()).len()
            < v.config.lossy_budget,
        log_of(sent(v, pos, kind)) == log_of(v).push(
            LabelView { pos, stamp: v.current.graph.stamp, kind },
        ),
{
    let w = added(v, pos, kind);
    let stamp = v.current.graph.stamp;
    let r = forward_to(pos, init_event());
    law_new_events_come_last(v, pos, kind);
    lemma_comes_next(v, pos, kind);
    let n = log_of(v).len();
    lemma_lost(log_of(w), n + 1);
    lemma_lost(log_of(v), n);
    assert(lost_places(log_of(w), n + 1) =~= lost_places(log_of(v), n)) by {
        assert forall|i: int| 0 <= i < n implies log_of(w)[i] == log_of(v)[i] by {}
    }
    let lossy = kind->lossy && lost_places(log_of(v), n).len() < v.config.lossy_budget;
    let u = if lossy {
        with_revisit(w, stamp, r)
    } else {
        w
    };
    lemma_pushed(w.current.rqueue, stamp, r);
    let revs = revisits_from(u, pos, log_of(u).len());
    assert(must_ok(u)) by {
        if lossy {
            crate::must::lemma_revisit_ok(w, stamp, r);
        }
    }
    lemma_with_revisits(u.current.rqueue, label_at(log_of(u), pos).stamp, revs, revs.len());
    assert(sent(v, pos, kind) == revisits_noted(u, pos));
    if !lossy {
        assert(!u.current.rqueue.contains((stamp, r))) by {
            if u.current.rqueue.contains((stamp, r)) {
                let k = choose|k: int|
                    0 <= k < v.current.rqueue.len() && v.current.rqueue[k] == (stamp, r);
                assert(v.current.rqueue[k].0 < v.current.graph.stamp);
            }
        }
    }
    crate::must::laws::law_sends_make_sound_revisits(u, pos, log_of(u).len());
    if revs.take(revs.len() as int).contains(r) {
        let k = choose|k: int| 0 <= k < revs.len() && revs.take(revs.len() as int)[k] == r;
        assert(revs[k] == r);
        assert(crate::must::laws::sound_revisit(u, pos, revs[k]));
    }
}

/// A thread that is created begins with its first event, which names the event that created
/// it, and is run by its task.
pub proof fn law_created_threads_have_begun<P>(
    v: MustView<P>,
    pos: Event,
    kind: KindView,
    tid: crate::event::ThreadId,
    task: TaskId,
    sym_cid: Option<crate::event::ThreadId>,
)
    requires
        must_ok(v),
        comes_next(v, pos),
        !in_log(log_of(v), Event { thread: tid, index: 0 }),
        tid != pos.thread,
    ensures
        ({
            let w = spawned(v, pos, kind, tid, task, sym_cid);
            let stamp = v.current.graph.stamp;
            &&& log_of(w) == log_of(v).push(LabelView { pos, stamp, kind }).push(
                LabelView {
                    pos: Event { thread: tid, index: 0 },
                    stamp: (stamp + 1) as usize,
                    kind: KindView::Begin { parent: Some(pos), sym_id: sym_cid },
                },
            )
            &&& thread_of(w.current.graph.tasks, task) == Some(tid)
            &&& w.current.rqueue == v.current.rqueue
        }),
{
    law_new_events_come_last(v, pos, kind);
    let u = added(v, pos, kind);
    assert(log_of(u).last().pos == pos);
}

/// Before an execution is run again all events stand as recorded, with the values of sends
/// and of ended threads still to come, and the main task alone runs.
pub proof fn law_executions_are_run_again_as_recorded(g: GraphView, i: int)
    requires
        graph_wf(g),
        0 <= i < g.log.len(),
    ensures
        ({
            let after = ready(g).log[i];
            &&& ready(g).log.len() == g.log.len()
            &&& after.pos == g.log[i].pos && after.stamp == g.log[i].stamp
            &&& same_decision(g.log[i].kind, after.kind)
            &&& g.log[i].kind is Send ==> after.kind->val.pending && after.kind->val.handle
                == g.log[i].kind->val.handle && after.kind->Send_loc == g.log[i].kind->Send_loc
                && after.kind->tag == g.log[i].kind->tag
            &&& g.log[i].kind is End ==> after.kind->End_result.pending
            &&& !(g.log[i].kind is Send) && !(g.log[i].kind is End) ==> after == g.log[i]
            &&& ready(g).tasks.len() == 1
        }),
{
}

/// What a backward revisit keeps it keeps as it was, but that the receives which come before
/// the sends are final from now on. The revisited receive is final exactly if it comes
/// before the sends.
pub proof fn law_backward_revisits_change_nothing_else(g: GraphView, r: RevisitView, e: Event)
    requires
        graph_wf(g),
        in_log(g.log, r.pos),
        in_log(revisited_graph(g, r).log, e),
        e != r.pos,
    ensures
        ({
            let kept = restricted(g, stamp_of(g.log, r.pos), sends_of(r.rev)).log;
            let before = label_at(g.log, e);
            let after = label_at(revisited_graph(g, r).log, e);
            &&& after.pos == before.pos && after.stamp == before.stamp
            &&& !comes_before(kept, sends_of(r.rev), e) || !(before.kind is Recv
                || before.kind is Inbox) ==> after.kind == before.kind
            &&& comes_before(kept, sends_of(r.rev), e) ==> (before.kind
                matches KindView::Recv { loc, blocking, rf, .. } ==> after.kind
                == (KindView::Recv { loc, blocking, rf, revisitable: false }))
            &&& comes_before(kept, sends_of(r.rev), e) ==> (before.kind
                matches KindView::Inbox { loc, min, max, rfs, .. } ==> after.kind
                == (KindView::Inbox { loc, min, max, rfs, revisitable: false }))
        }),
{
    let seeds = sends_of(r.rev);
    let stamp = stamp_of(g.log, r.pos);
    let kept = restricted(g, stamp, seeds);
    lemma_restricted(g, stamp, seeds);
    lemma_index_of(g.log, index_of(g.log, r.pos));
    assert(in_log(kept.log, r.pos));
    let h = frozen(kept, seeds);
    lemma_frozen(kept, seeds);
    assert(in_log(h.log, r.pos));
    let kind = with_placement(label_at(h.log, r.pos).kind, r.rev);
    lemma_with_kind(h, r.pos, kind);
    assert(in_log(h.log, e));
    assert(in_log(kept.log, e));
    let i = index_of(kept.log, e);
    lemma_index_of(kept.log, i);
    assert(h.log[i].pos == e);
    lemma_index_of(h.log, i);
    assert(label_at(kept.log, e) == label_at(g.log, e));
}

/// The next execution makes one revisit, the last of the worklist, and loses no other. After
/// a forward revisit the others still wait; after a backward revisit they wait in the state
/// that is kept, whose graph is as it was.
pub proof fn law_one_revisit_is_made_at_a_time<P>(v: MustView<P>)
    requires
        must_ok(v),
        v.current.rqueue.len() > 0,
        !hands_off(v),
    ensures
        ({
            let w = revisit_next(v).0;
            let r = v.current.rqueue.last().1;
            &&& revisit_next(v).1
            &&& !r.backward ==> w.states == v.states && forall|k: int|
                0 <= k < v.current.rqueue.len() - 1 ==> w.current.rqueue.contains(
                    #[trigger] v.current.rqueue[k],
                )
            &&& r.backward ==> w.current.rqueue.len() == 0 && w.states.len() == v.states.len() + 1
                && w.states.last().0.graph == v.current.graph && w.states.last().0.rqueue
                == v.current.rqueue.drop_last() && (forall|k: int|
                0 <= k < v.states.len() ==> #[trigger] w.states[k] == v.states[k])
            &&& r.backward ==> w.current.graph == revisited_graph(v.current.graph, r)
            &&& w.locs == v.locs && w.config == v.config && w.execs == v.execs && w.blocked
                == v.blocked
        }),
{
    let queue = v.current.rqueue;
    let r = queue.last().1;
    let w = dequeued(v);
    crate::must::step::lemma_dequeued_ok(v);
    if !r.backward {
        let stamp = label_at(log_of(w), r.pos).stamp;
        lemma_pushed(w.current.rqueue, stamp, forward_to(r.pos, init_event()));
        let f = forwarded(w, r);
        assert forall|k: int| 0 <= k < queue.len() - 1 implies f.current.rqueue.contains(
            #[trigger] queue[k],
        ) by {
            assert(w.current.rqueue[k] == queue[k]);
            if has_more(label_at(log_of(w), r.pos).kind) {
                assert(f.current.rqueue.contains(w.current.rqueue[k]));
            } else {
                assert(f.current.rqueue[k] == queue[k]);
            }
        }
    }
}

proof fn lemma_first_runnable<P>(
    v: MustView<P>,
    tasks: Seq<(TaskId, usize)>,
    order: Seq<usize>,
    n: nat,
)
    requires
        n <= order.len(),
    ensures
        match first_runnable(v, tasks, order, n) {
            Some(t) => exists|k: int|
                0 <= k < n && t == tasks[#[trigger] order[k] as int].0 && runnable_at(
                    v,
                    t,
                    tasks[order[k] as int].1,
                ) && forall|j: int|
                    0 <= j < k ==> !runnable_at(
                        v,
                        tasks[#[trigger] order[j] as int].0,
                        tasks[order[j] as int].1,
                    ),
            None => forall|k: int|
                0 <= k < n ==> !runnable_at(
                    v,
                    tasks[#[trigger] order[k] as int].0,
                    tasks[order[k] as int].1,
                ),
        },
    decreases n,
{
    if n > 0 {
        lemma_first_runnable(v, tasks, order, (n - 1) as nat);
        if first_runnable(v, tasks, order, (n - 1) as nat) is None {
            let here = order[n - 1];
            assert(order[n - 1] == here);
        }
    }
}

proof fn lemma_ready_tasks<P: RecvPredicate>(
    v: MustView<P>,
    tasks: Seq<(TaskId, usize)>,
    n: nat,
)
    requires
        n <= tasks.len(),
    ensures
        forall|k: int|
            0 <= k < n && (thread_of(v.current.graph.tasks, (#[trigger] tasks[k]).0) matches Some(t)
                && is_ready(v, t)) ==> ready_tasks(v, tasks, n).contains(tasks[k].0),
        forall|i: int|
            0 <= i < ready_tasks(v, tasks, n).len() ==> (thread_of(
                v.current.graph.tasks,
                #[trigger] ready_tasks(v, tasks, n)[i],
            ) matches Some(t) && is_ready(v, t)),
    decreases n,
{
    if n > 0 {
        let m = (n - 1) as nat;
        lemma_ready_tasks(v, tasks, m);
        let before = ready_tasks(v, tasks, m);
        let after = ready_tasks(v, tasks, n);
        assert forall|k: int|
            0 <= k < n && (thread_of(v.current.graph.tasks, (#[trigger] tasks[k]).0) matches Some(t)
                && is_ready(v, t)) implies after.contains(tasks[k].0) by {
            if k < m {
                let i = choose|i: int| 0 <= i < before.len() && before[i] == tasks[k].0;
                assert(after[i] == tasks[k].0);
            } else {
                assert(after[before.len() as int] == tasks[k].0);
            }
        }
        assert forall|i: int| 0 <= i < after.len() implies (thread_of(
            v.current.graph.tasks,
            #[trigger] after[i],
        ) matches Some(t) && is_ready(v, t)) by {
            if i < before.len() {
                assert(after[i] == before[i]);
            }
        }
    }
}

/// A task runs next if one can: the first in the order that can go on, or else one whose
/// thread waits for something that has come. Nothing runs next exactly if no task can go on
/// and no thread waits for something that has come.
pub proof fn law_a_task_runs_while_one_can<P: RecvPredicate>(
    v: MustView<P>,
    tasks: Seq<(TaskId, usize)>,
    order: Seq<usize>,
)
    requires
        is_order(order, tasks.len()),
        tasks.len() <= usize::MAX,
    ensures
        scheduled(v, tasks, order).1 is None ==> forall|k: int|
            0 <= k < tasks.len() ==> !(#[trigger] can_run(v, tasks, k)) && !waits_no_more(
                v,
                tasks[k].0,
            ),
        scheduled(v, tasks, order).1 matches Some(t) ==> waits_no_more(v, t) || exists|k: int|
            0 <= k < tasks.len() && t == (#[trigger] tasks[k]).0 && can_run(v, tasks, k),
{
    lemma_order(order, tasks.len());
    lemma_first_runnable(v, tasks, order, order.len());
    lemma_ready_tasks(v, tasks, tasks.len());
    let ready = ready_tasks(v, tasks, tasks.len());
    match first_runnable(v, tasks, order, order.len()) {
        Some(t) => {
            let k = choose|k: int|
                0 <= k < order.len() && t == tasks[#[trigger] order[k] as int].0 && runnable_at(
                    v,
                    t,
                    tasks[order[k] as int].1,
                );
            assert(order[k] < tasks.len());
            assert(can_run(v, tasks, order[k] as int));
        },
        None => {
            assert forall|k: int| 0 <= k < tasks.len() implies !(#[trigger] can_run(v, tasks, k)) by {
                lemma_in_order(order, tasks.len(), k);
                let j = choose|j: int| 0 <= j < order.len() && order[j] == k;
                assert(order[j] as int == k);
            }
            if ready.len() > 0 {
                assert(thread_of(v.current.graph.tasks, ready[0]) is Some);
            } else {
                assert forall|k: int| 0 <= k < tasks.len() implies !(#[trigger] waits_no_more(
                    v,
                    tasks[k].0,
                )) by {
                    if waits_no_more(v, tasks[k].0) {
                        assert(ready.contains(tasks[k].0));
                    }
                }
            }
        },
    }
}

/// Whether the task at `k` can go on.
pub open spec fn can_run<P>(v: MustView<P>, tasks: Seq<(TaskId, usize)>, k: int) -> bool {
    runnable_at(v, tasks[k].0, tasks[k].1)
}

/// Whether the thread of `task` waits for something that has come.
pub open spec fn waits_no_more<P: RecvPredicate>(v: MustView<P>, task: TaskId) -> bool {
    thread_of(v.current.graph.tasks, task) matches Some(t) && is_ready(v, t)
}

/// An order names every number.
proof fn lemma_in_order(order: Seq<usize>, n: nat, k: int)
    requires
        is_order(order, n),
        n <= usize::MAX,
        0 <= k < n,
    ensures
        exists|j: int| 0 <= j < order.len() && order[j] == k,
{
    let plain = Seq::new(n, |i: int| i as usize);
    order.to_multiset_ensures();
    plain.to_multiset_ensures();
    assert(plain[k] == k as usize);
    assert(plain.contains(k as usize));
    assert(order.to_multiset().count(k as usize) > 0);
    assert(order.contains(k as usize));
}

} // verus!
