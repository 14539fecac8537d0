//! In every execution of an exploration each message is taken once.

use crate::cons::stamp_of;
use crate::event::{Event, TaskId, ThreadId};
use crate::event_label::{KindView, LabelView};
use crate::exec_graph::{
    first_event, has_thread, in_log, index_of, label_at, last_place, lemma_index_of,
    lemma_last_place, lemma_prefix, lemma_thread_size, lemma_with_kind, log_wf, ready,
    thread_complete, with_kind, GraphView,
};
use crate::loc::RecvPredicate;
use crate::must::delivery::revisits::lemma_revisited_sound;
use crate::must::delivery::steps::{
    lemma_at_end, lemma_inbox, lemma_noted_more, lemma_reads_nothing, lemma_receive, lemma_recorded,
    lemma_send, lemma_upto_push, soundly_noted,
};
use crate::must::delivery::{
    blocks_at, delivered_once, free_for, is_reader, lemma_append, lemma_drop_last, lemma_same_entry,
    lemma_same_events, lemma_same_sound, lemma_unblock_entry, lemma_unblock_events,
    lemma_unblock_sound, lemma_upto, lemma_upto_is, listed, may_append, reads_sends, same_effect,
    same_effects, sound_entry, sound_log, sound_state, stays, takes, upto,
};
use crate::must::handle::{
    choice_added, choice_picked, comes_next, inbox_kind, lemma_comes_next, recv_kind, replayable,
    replayed, sent, spawned,
};
use crate::must::sched::{all_unblocked, lemma_unblocked_ok, unblocked};
use crate::must::step::{
    backwarded, dequeued, forwarded, hands_off, has_more, init_event, lemma_backward_weight,
    lemma_dequeued_ok, lemma_revisited_graph, next_alternative, popped, revisit_next, weight,
    with_placement,
};
use crate::must::visit::{forward_to, inbox_visited, pick_in_range, visited};
use crate::must::{
    added, entry_ok, has_alternatives, log_of, must_ok, state_ok, with_graph, MustView, StateView,
};
use crate::revisit::{lemma_pushed, sends_of, PlacementView, RevisitView};
use vstd::prelude::*;

verus! {

/// The labels up to a stamp have the same effects where all labels have.
proof fn lemma_same_upto(a: Seq<LabelView>, b: Seq<LabelView>, stamp: usize)
    requires
        log_wf(a),
        same_effects(a, b),
    ensures
        same_effects(upto(a, stamp), upto(b, stamp)),
{
    lemma_same_events(a, b);
    lemma_upto(a, stamp);
    let n = upto(a, stamp).len() as int;
    if n > 0 {
        assert(upto(a, stamp)[n - 1] == a[n - 1]);
        assert(same_effect(a[n - 1], b[n - 1]));
    }
    if n < a.len() {
        assert(same_effect(a[n], b[n]));
    }
    lemma_upto_is(b, stamp, n);
    assert forall|i: int| 0 <= i < n implies same_effect(
        #[trigger] upto(a, stamp)[i],
        #[trigger] upto(b, stamp)[i],
    ) by {
        assert(same_effect(a[i], b[i]));
    }
}

/// Messages are taken once when only values change.
proof fn lemma_same_state(s: StateView, t: StateView)
    requires
        sound_state(s),
        same_effects(s.graph.log, t.graph.log),
        t.rqueue == s.rqueue,
    ensures
        sound_state(t),
{
    lemma_same_sound(s.graph.log, t.graph.log);
    assert(log_wf(s.graph.log)) by {
        reveal(sound_log);
    }
    assert forall|k: int| 0 <= k < t.rqueue.len() implies sound_log(
        upto(t.graph.log, (#[trigger] t.rqueue[k]).0),
    ) && sound_entry(upto(t.graph.log, t.rqueue[k].0), t.rqueue[k].1) by {
        let stamp = s.rqueue[k].0;
        lemma_same_upto(s.graph.log, t.graph.log, stamp);
        lemma_same_sound(upto(s.graph.log, stamp), upto(t.graph.log, stamp));
        lemma_same_entry(upto(s.graph.log, stamp), upto(t.graph.log, stamp), s.rqueue[k].1);
    }
}

/// The labels up to a stamp without a block.
proof fn lemma_unblock_upto(log: Seq<LabelView>, k: int, stamp: usize)
    requires
        log_wf(log),
        blocks_at(log, k),
    ensures
        k < upto(log, stamp).len() ==> blocks_at(upto(log, stamp), k) && upto(log.remove(k), stamp)
            == upto(log, stamp).remove(k),
        k >= upto(log, stamp).len() ==> upto(log.remove(k), stamp) == upto(log, stamp),
{
    let part = upto(log, stamp);
    let after = log.remove(k);
    lemma_upto(log, stamp);
    lemma_unblock_events(log, k);
    let n = part.len() as int;
    assert(part =~= log.take(n));
    assert forall|j: int| 0 <= j < n implies #[trigger] part[j] == log[j] by {}
    if k < n {
        assert(after.take(n - 1) =~= part.remove(k));
        if n > 1 {
            assert(part[n - 2] == log[n - 2] && part[n - 1] == log[n - 1]);
            assert(after[n - 2].stamp <= stamp);
        }
        if n < log.len() {
            assert(after[n - 1] == log[n]);
        }
        lemma_upto_is(after, stamp, n - 1);
    } else {
        assert(after.take(n) =~= part);
        if n > 0 {
            assert(after[n - 1] == log[n - 1]);
            assert(part[n - 1] == log[n - 1]);
        }
        if n < after.len() {
            assert(log[n].stamp > stamp);
            assert(log[n + 1].stamp > stamp);
        }
        lemma_upto_is(after, stamp, n);
    }
}

/// Messages are taken once when a thread is no longer blocked.
proof fn lemma_unblock(s: StateView, t: ThreadId)
    requires
        state_ok(s),
        sound_state(s),
    ensures
        sound_state(StateView { graph: unblocked(s.graph, t), ..s }),
        state_ok(StateView { graph: unblocked(s.graph, t), ..s }),
{
    let g = s.graph;
    let log = g.log;
    let h = unblocked(g, t);
    lemma_unblocked_ok(s, t);
    if crate::exec_graph::block_of(log, t) is Some {
        let k = last_place(log, t, log.len()) - 1;
        lemma_last_place(log, t, log.len());
        assert(blocks_at(log, k));
        lemma_unblock_sound(log, k);
        let after = log.remove(k);
        assert forall|i: int| 0 <= i < s.rqueue.len() implies sound_log(
            upto(after, (#[trigger] s.rqueue[i]).0),
        ) && sound_entry(upto(after, s.rqueue[i].0), s.rqueue[i].1) by {
            let entry = s.rqueue[i];
            let part = upto(log, entry.0);
            lemma_unblock_upto(log, k, entry.0);
            if k < part.len() {
                assert(entry_ok(log, entry));
                lemma_upto(log, entry.0);
                assert(in_log(part, entry.1.pos));
                assert(!(label_at(part, entry.1.pos).kind is Block));
                lemma_unblock_sound(part, k);
                lemma_unblock_entry(part, k, entry.1);
            }
        }
    } else {
        assert(StateView { graph: h, ..s } == s);
    }
}

/// The same for several threads.
proof fn lemma_unblock_all(s: StateView, tasks: Seq<TaskId>, n: nat)
    requires
        state_ok(s),
        sound_state(s),
    ensures
        sound_state(StateView { graph: all_unblocked(s.graph, tasks, n), ..s }),
        state_ok(StateView { graph: all_unblocked(s.graph, tasks, n), ..s }),
    decreases n,
{
    if n > 0 {
        lemma_unblock_all(s, tasks, (n - 1) as nat);
        let mid = StateView { graph: all_unblocked(s.graph, tasks, (n - 1) as nat), ..s };
        if let Some(t) = crate::exec_graph::thread_of(s.graph.tasks, tasks[n - 1]) {
            lemma_unblock(mid, t);
        }
    } else {
        assert(StateView { graph: s.graph, ..s } == s);
    }
}

/// Messages are taken once when something is recorded that reads nothing.
proof fn lemma_record<P>(v: MustView<P>, pos: Event, kind: KindView)
    requires
        must_ok(v),
        sound_state(v.current),
        comes_next(v, pos),
        !thread_complete(log_of(v), pos.thread),
        !(kind is Recv) && !(kind is Inbox) && !(kind is Begin),
        kind matches KindView::TJoin { cid } ==> thread_complete(log_of(v), cid),
    ensures
        sound_state(added(v, pos, kind).current),
        added(v, pos, kind).states == v.states,
{
    let log = log_of(v);
    let l = LabelView { pos, stamp: v.current.graph.stamp, kind };
    let w = added(v, pos, kind);
    lemma_at_end(v, pos, kind);
    lemma_reads_nothing(log, l);
    assert(soundly_noted(v.current.rqueue, w.current.rqueue, log_of(w)));
    lemma_recorded(v.current, w.current, l);
}

/// Messages are taken once when a choice is recorded.
proof fn lemma_choice<P>(v: MustView<P>, pos: Event, kind: KindView, revisit: bool)
    requires
        must_ok(v),
        sound_state(v.current),
        comes_next(v, pos),
        !thread_complete(log_of(v), pos.thread),
        kind is CToss || kind is Choice || kind is Sample,
    ensures
        sound_state(choice_added(v, pos, kind, revisit).current),
        choice_added(v, pos, kind, revisit).states == v.states,
{
    let log = log_of(v);
    let stamp = v.current.graph.stamp;
    let l = LabelView { pos, stamp, kind };
    let w = added(v, pos, kind);
    lemma_at_end(v, pos, kind);
    lemma_reads_nothing(log, l);
    let after = log.push(l);
    lemma_index_of(after, log.len() as int);
    let r = forward_to(pos, init_event());
    assert(sound_entry(after, r));
    assert(soundly_noted(v.current.rqueue, w.current.rqueue, after));
    lemma_noted_more(v.current.rqueue, w.current.rqueue, stamp, r, after);
    lemma_recorded(v.current, choice_added(v, pos, kind, revisit).current, l);
}

/// Messages are taken once when a choice is made at random.
proof fn lemma_random_choice<P>(
    v: MustView<P>,
    pos: Event,
    kind: KindView,
    picked: KindView,
    alternatives: u64,
)
    requires
        must_ok(v),
        sound_state(v.current),
        comes_next(v, pos),
        !thread_complete(log_of(v), pos.thread),
        kind is CToss && picked is CToss || kind is Choice && picked is Choice,
    ensures
        sound_state(choice_picked(v, pos, kind, picked, alternatives).current),
        choice_picked(v, pos, kind, picked, alternatives).states == v.states,
{
    let log = log_of(v);
    let w = added(v, pos, kind);
    let z = choice_picked(v, pos, kind, picked, alternatives);
    lemma_record(v, pos, kind);
    lemma_at_end(v, pos, kind);
    lemma_index_of(log_of(w), log.len() as int);
    assert forall|i: int| 0 <= i < log_of(w).len() implies same_effect(
        #[trigger] log_of(w)[i],
        #[trigger] log_of(z)[i],
    ) by {
        if i == log.len() {
            assert(log_of(w)[i].kind == kind);
        }
    }
    lemma_same_state(w.current, z.current);
}

/// Messages are taken once when a thread is created.
proof fn lemma_spawn<P>(
    v: MustView<P>,
    pos: Event,
    kind: KindView,
    tid: ThreadId,
    task: TaskId,
    sym_cid: Option<ThreadId>,
)
    requires
        must_ok(v),
        sound_state(v.current),
        comes_next(v, pos),
        !thread_complete(log_of(v), pos.thread),
        kind is TCreate,
        !in_log(log_of(v), first_event(tid)),
        tid != pos.thread,
    ensures
        sound_state(spawned(v, pos, kind, tid, task, sym_cid).current),
        spawned(v, pos, kind, tid, task, sym_cid).states == v.states,
{
    let log = log_of(v);
    let stamp = v.current.graph.stamp;
    let w = added(v, pos, kind);
    let u = with_graph(
        w,
        GraphView { tasks: w.current.graph.tasks.push((task, tid)), ..w.current.graph },
    );
    lemma_record(v, pos, kind);
    lemma_comes_next(v, pos, kind);
    lemma_at_end(v, pos, kind);
    let mid = log_of(u);
    assert(mid == log.push(LabelView { pos, stamp, kind }));
    assert(sound_state(u.current)) by {
        assert forall|i: int| 0 <= i < mid.len() implies same_effect(
            #[trigger] log_of(w)[i],
            #[trigger] mid[i],
        ) by {}
        lemma_same_state(w.current, u.current);
    }
    assert(must_ok(u)) by {
        assert(u.states == w.states);
    }
    let first = first_event(tid);
    let begin = KindView::Begin { parent: Some(pos), sym_id: sym_cid };
    assert(!in_log(mid, first)) by {
        if in_log(mid, first) {
            let i = index_of(mid, first);
            assert(mid[i].pos == first);
            assert(i < log.len());
            assert(log[i].pos == first);
        }
    }
    lemma_at_end(u, first, begin);
    let l = LabelView { pos: first, stamp: u.current.graph.stamp, kind: begin };
    assert(may_append(mid, l)) by {
        reveal(sound_log);
        assert(in_log(mid, pos));
        assert forall|k: int| 0 <= k < mid.len() implies ((
        #[trigger] mid[k]).kind matches KindView::TJoin { cid } ==> cid != tid) by {
            if let KindView::TJoin { cid } = mid[k].kind {
                if cid == tid {
                    assert(has_thread(mid, tid));
                    lemma_thread_size(mid, tid, 0);
                }
            }
        }
    }
    let z = spawned(v, pos, kind, tid, task, sym_cid);
    assert(soundly_noted(u.current.rqueue, z.current.rqueue, log_of(z)));
    lemma_recorded(u.current, z.current, l);
}

/// The labels up to a stamp stay when newer labels go.
proof fn lemma_upto_take(log: Seq<LabelView>, m: int, stamp: usize)
    requires
        log_wf(log),
        0 <= m <= log.len(),
        m < log.len() ==> log[m].stamp > stamp,
    ensures
        upto(log.take(m), stamp) == upto(log, stamp),
{
    let part = log.take(m);
    lemma_prefix(log, m);
    lemma_upto(log, stamp);
    let n = upto(log, stamp).len() as int;
    assert(upto(log, stamp) =~= log.take(n));
    if n > m {
        assert(upto(log, stamp)[m] == log[m]);
    }
    if n > 0 {
        assert(upto(log, stamp)[n - 1] == log[n - 1]);
        assert(part[n - 1] == log[n - 1]);
    }
    if n < m {
        assert(part[n] == log[n]);
    }
    lemma_upto_is(part, stamp, n);
    assert(part.take(n) =~= log.take(n));
}

/// The receive recorded last may read what a revisit makes it read.
#[verifier::spinoff_prover]
proof fn lemma_forward_reads(log: Seq<LabelView>, r: RevisitView, l: LabelView)
    requires
        sound_log(log),
        sound_entry(log, r),
        !r.backward,
        is_reader(log.last()),
        l.pos == log.last().pos,
        l.kind == with_placement(log.last().kind, r.rev),
        log_wf(log.drop_last().push(l)),
    ensures
        sound_log(log.drop_last().push(l)),
{
    let before = log.drop_last();
    let n = before.len() as int;
    lemma_drop_last(log);
    assert(log_wf(log)) by {
        reveal(sound_log);
    }
    lemma_index_of(log, n);
    let sends = sends_of(r.rev);
    assert forall|e: Event| #[trigger] l.reads(e) implies sends.contains(e) by {
        match r.rev {
            PlacementView::Default(s) => {
                assert(sends[0] == e);
            },
            PlacementView::Inbox(es) => {
                crate::cons::lemma_normalized(es, es.len());
                assert(es.take(es.len() as int) =~= es);
            },
        }
    }
    assert forall|e: Event| #[trigger] l.reads(e) implies in_log(before, e) && label_at(
        before,
        e,
    ).kind is Send && (listed(before, e, l.pos.thread) || forall|k: int|
        0 <= k < before.len() ==> !takes(before, #[trigger] before[k], e)) by {
        let i = choose|i: int| 0 <= i < sends.len() && sends[i] == e;
        assert(free_for(log, r, sends[i]));
        assert(in_log(log, e));
        assert(e != log.last().pos);
        assert(label_at(before, e) == label_at(log, e));
        if !listed(before, e, l.pos.thread) {
            assert forall|k: int| 0 <= k < before.len() implies !takes(
                before,
                #[trigger] before[k],
                e,
            ) by {
                assert(before[k] == log[k]);
                lemma_index_of(log, k);
                assert(log[k].pos != r.pos);
                assert(!takes(log, log[k], e));
            }
        }
    }
    assert(may_append(before, l)) by {
        assert forall|k: int| 0 <= k < before.len() implies ((
        #[trigger] before[k]).kind matches KindView::TJoin { cid } ==> cid != l.pos.thread) by {
            assert(before[k] == log[k]);
        }
    }
    lemma_append(before, l);
}

/// Other revisits of the receive recorded last read what nothing else takes, whatever the
/// receive reads.
proof fn lemma_forward_entry(log: Seq<LabelView>, l: LabelView, r: RevisitView)
    requires
        log_wf(log),
        sound_entry(log, r),
        is_reader(log.last()),
        l.pos == log.last().pos,
        l.kind is Recv <==> log.last().kind is Recv,
        l.kind is Inbox <==> log.last().kind is Inbox,
        log_wf(log.drop_last().push(l)),
    ensures
        sound_entry(log.drop_last().push(l), r),
{
    let after = log.drop_last().push(l);
    let n = log.len() - 1;
    assert(!r.backward);
    lemma_index_of(log, n);
    lemma_index_of(after, n);
    let sends = sends_of(r.rev);
    assert forall|i: int| 0 <= i < sends.len() implies free_for(after, r, #[trigger] sends[i]) by {
        let e = sends[i];
        assert(free_for(log, r, e));
        let m = index_of(log, e);
        assert(log[m].pos == e);
        assert(m < n);
        assert(after[m] == log[m]);
        lemma_index_of(after, m);
        if !listed(after, e, r.pos.thread) {
            assert forall|k: int|
                0 <= k < after.len() && stays(after, r, #[trigger] after[k]) && after[k].pos
                    != r.pos implies !takes(after, after[k], e) by {
                assert(k < n);
                assert(after[k] == log[k]);
                assert(stays(log, r, log[k]));
                assert(!takes(log, log[k], e));
            }
        }
    }
}

/// What a forward revisit leaves of the log: the labels up to the revisited event, which
/// takes another alternative.
proof fn lemma_forwarded_log<P>(v: MustView<P>)
    requires
        must_ok(v),
        sound_state(v.current),
        v.current.rqueue.len() > 0,
        !v.current.rqueue.last().1.backward,
    ensures
        ({
            let (stamp, r) = v.current.rqueue.last();
            let part = upto(log_of(v), stamp);
            let l = LabelView {
                pos: r.pos,
                stamp,
                kind: next_alternative(part.last().kind, r.rev),
            };
            &&& part.len() > 0
            &&& part == log_of(v).take(part.len() as int)
            &&& part.last() == label_at(log_of(v), r.pos)
            &&& part.last().pos == r.pos
            &&& part.last().stamp == stamp
            &&& has_alternatives(part.last().kind)
            &&& log_of(forwarded(dequeued(v), r)) == part.drop_last().push(l)
            &&& log_wf(part.drop_last().push(l))
        }),
{
    let (stamp, r) = v.current.rqueue.last();
    let log = log_of(v);
    let g = v.current.graph;
    let part = upto(log, stamp);
    let n = part.len() as int;
    lemma_upto(log, stamp);
    assert(sound_entry(upto(log, v.current.rqueue[v.current.rqueue.len() - 1].0), r));
    assert(entry_ok(log, v.current.rqueue[v.current.rqueue.len() - 1]));
    assert(part =~= log.take(n));
    assert(part[n - 1] == log[n - 1]);
    lemma_index_of(log, n - 1);
    let kind = next_alternative(log[n - 1].kind, r.rev);
    let l = LabelView { pos: r.pos, stamp, kind };
    lemma_with_kind(g, r.pos, kind);
    let other = with_kind(g, r.pos, kind).log;
    assert(other =~= log.update(n - 1, l));
    if n < log.len() {
        assert(other[n] == log[n]);
    }
    lemma_upto_is(other, stamp, n);
    lemma_prefix(other, n);
    assert(other.take(n) =~= part.drop_last().push(l));
}

/// After the last label took another alternative, revisits noted before are sound still.
proof fn lemma_forward_kept(log: Seq<LabelView>, n: int, l: LabelView, entry: (usize, RevisitView))
    requires
        log_wf(log),
        0 < n <= log.len(),
        n < log.len() ==> log[n].stamp > l.stamp,
        l.pos == log[n - 1].pos,
        l.stamp == log[n - 1].stamp,
        entry.0 <= l.stamp,
        sound_log(upto(log, entry.0)),
        sound_entry(upto(log, entry.0), entry.1),
        is_reader(log[n - 1]) ==> (l.kind is Recv <==> log[n - 1].kind is Recv) && (l.kind is Inbox
            <==> log[n - 1].kind is Inbox),
        !is_reader(log[n - 1]) ==> same_effect(log[n - 1], l),
        log_wf(log.take(n - 1).push(l)),
        sound_log(log.take(n - 1).push(l)),
    ensures
        sound_log(upto(log.take(n - 1).push(l), entry.0)),
        sound_entry(upto(log.take(n - 1).push(l), entry.0), entry.1),
{
    let before = log.take(n - 1);
    let after = before.push(l);
    if entry.0 < l.stamp {
        lemma_upto_take(log, n - 1, entry.0);
        lemma_prefix(log, n - 1);
        lemma_upto_push(before, l, entry.0);
    } else {
        let part = log.take(n);
        lemma_upto_is(log, entry.0, n);
        lemma_upto_is(after, entry.0, n);
        assert(after.take(n) =~= after);
        assert(part.drop_last() =~= before);
        lemma_prefix(log, n);
        if is_reader(log[n - 1]) {
            lemma_forward_entry(part, l, entry.1);
        } else {
            assert forall|i: int| 0 <= i < part.len() implies same_effect(
                #[trigger] part[i],
                #[trigger] after[i],
            ) by {
                if i == n - 1 {
                    assert(part[i] == log[n - 1]);
                }
            }
            lemma_same_entry(part, after, entry.1);
        }
    }
}

/// The log stays sound when the last label takes another alternative.
proof fn lemma_forward_log(part: Seq<LabelView>, r: RevisitView, l: LabelView)
    requires
        sound_log(part),
        sound_entry(part, r),
        !r.backward,
        has_alternatives(part.last().kind),
        l.pos == part.last().pos,
        l.stamp == part.last().stamp,
        l.kind == next_alternative(part.last().kind, r.rev),
        log_wf(part.drop_last().push(l)),
    ensures
        sound_log(part.drop_last().push(l)),
{
    if is_reader(part.last()) {
        lemma_forward_reads(part, r, l);
    } else {
        let after = part.drop_last().push(l);
        assert forall|i: int| 0 <= i < part.len() implies same_effect(
            #[trigger] part[i],
            #[trigger] after[i],
        ) by {
            if i == part.len() - 1 {
                assert(part[i] == part.last());
            }
        }
        lemma_same_sound(part, after);
    }
}

/// Messages are taken once after a forward revisit.
proof fn lemma_forward<P>(v: MustView<P>)
    requires
        must_ok(v),
        sound_state(v.current),
        v.current.rqueue.len() > 0,
        !v.current.rqueue.last().1.backward,
    ensures
        sound_state(forwarded(dequeued(v), v.current.rqueue.last().1).current),
        forwarded(dequeued(v), v.current.rqueue.last().1).states == v.states,
{
    let (stamp, r) = v.current.rqueue.last();
    let queue = v.current.rqueue;
    let log = log_of(v);
    let part = upto(log, stamp);
    let w = dequeued(v);
    let z = forwarded(w, r);
    lemma_forwarded_log(v);
    lemma_dequeued_ok(v);
    let l = LabelView { pos: r.pos, stamp, kind: next_alternative(part.last().kind, r.rev) };
    let after = part.drop_last().push(l);
    let n = part.len() as int;
    assert(queue[queue.len() - 1] == (stamp, r));
    lemma_forward_log(part, r, l);
    lemma_upto(log, stamp);
    assert(part[n - 1] == log[n - 1]);
    assert(part.last() == log[n - 1]);
    assert(part.drop_last() =~= log.take(n - 1)) by {
        assert(part.drop_last().len() == n - 1);
        assert forall|i: int| 0 <= i < n - 1 implies #[trigger] part.drop_last()[i] == log.take(
            n - 1,
        )[i] by {
            assert(part[i] == log[i]);
        }
    }
    lemma_index_of(after, n - 1);
    let again = forward_to(r.pos, init_event());
    lemma_pushed(w.current.rqueue, stamp, again);
    assert forall|k: int| 0 <= k < z.current.rqueue.len() implies sound_log(
        upto(after, (#[trigger] z.current.rqueue[k]).0),
    ) && sound_entry(upto(after, z.current.rqueue[k].0), z.current.rqueue[k].1) by {
        let entry = z.current.rqueue[k];
        if w.current.rqueue.contains(entry) {
            let m = choose|m: int| 0 <= m < w.current.rqueue.len() && w.current.rqueue[m] == entry;
            assert(queue[m] == entry);
            assert(w.current.rqueue[m].0 <= stamp);
            lemma_forward_kept(log, n, l, entry);
        } else {
            assert(entry == (stamp, again));
            assert(has_more(part.last().kind));
            lemma_upto_is(after, stamp, n);
            assert(after.take(n) =~= after);
        }
    }
}

/// Whether in all states of an exploration each message is taken once, now and by the
/// revisits to come.
pub open spec fn sound<P>(v: MustView<P>) -> bool {
    &&& sound_state(v.current)
    &&& forall|i: int| 0 <= i < v.states.len() ==> sound_state((#[trigger] v.states[i]).0)
}

/// Messages are taken once after a backward revisit, and in the state before it.
proof fn lemma_backward<P>(v: MustView<P>)
    requires
        must_ok(v),
        sound(v),
        v.current.rqueue.len() > 0,
        v.current.rqueue.last().1.backward,
    ensures
        sound(backwarded(dequeued(v), v.current.rqueue.last().1)),
        must_ok(backwarded(dequeued(v), v.current.rqueue.last().1)),
{
    let (stamp, r) = v.current.rqueue.last();
    let queue = v.current.rqueue;
    let g = v.current.graph;
    let w = dequeued(v);
    let z = backwarded(w, r);
    lemma_dequeued_ok(v);
    assert(queue[queue.len() - 1] == (stamp, r));
    assert(sound_log(upto(g.log, stamp)) && sound_entry(upto(g.log, stamp), r));
    lemma_revisited_sound(g, stamp, r);
    lemma_revisited_graph(g, r);
    let h = crate::exec_graph::frozen(
        crate::exec_graph::restricted(g, stamp_of(g.log, r.pos), sends_of(r.rev)),
        sends_of(r.rev),
    );
    lemma_with_kind(h, r.pos, with_placement(label_at(h.log, r.pos).kind, r.rev));
    assert(sound_state(w.current)) by {
        assert forall|k: int| 0 <= k < w.current.rqueue.len() implies sound_log(
            upto(g.log, (#[trigger] w.current.rqueue[k]).0),
        ) && sound_entry(upto(g.log, w.current.rqueue[k].0), w.current.rqueue[k].1) by {
            assert(w.current.rqueue[k] == queue[k]);
        }
    }
    assert forall|i: int| 0 <= i < z.states.len() implies sound_state((#[trigger] z.states[i]).0)
        && state_ok(z.states[i].0) by {
        if i < v.states.len() {
            assert(z.states[i] == v.states[i]);
        }
    }
}

/// Messages are taken once in the next execution.
proof fn lemma_next<P>(v: MustView<P>)
    requires
        must_ok(v),
        sound(v),
    ensures
        sound(revisit_next(v).0),
    decreases weight(v),
{
    if v.current.rqueue.len() == 0 {
        if v.states.len() > 0 {
            let w = popped(v);
            assert(v.states[v.states.len() - 1] == v.states.last());
            assert forall|i: int| 0 <= i < w.states.len() implies sound_state(
                (#[trigger] w.states[i]).0,
            ) && state_ok(w.states[i].0) by {
                assert(w.states[i] == v.states[i]);
            }
            lemma_next(w);
        }
    } else {
        let r = v.current.rqueue.last().1;
        let w = dequeued(v);
        if !r.backward {
            lemma_forward(v);
            let z = forwarded(w, r);
            assert forall|i: int| 0 <= i < z.states.len() implies sound_state(
                (#[trigger] z.states[i]).0,
            ) by {
                assert(z.states[i] == v.states[i]);
            }
        } else {
            lemma_backward(v);
            if hands_off(w) {
                lemma_backward_weight(v);
                lemma_next(backwarded(w, r));
            }
        }
    }
}

/// What an exploration can do next. The operations of the library are made of these.
pub enum Move<P> {
    /// A receive that looks at the `loc`-th location gets what it reads, or waits.
    Receive { pos: Event, loc: usize, blocking: bool, pick: nat },
    /// An inbox that looks at the `loc`-th location gets what it reads, or waits.
    Collect { pos: Event, loc: usize, min: usize, max: Option<usize> },
    /// A message is sent.
    Send { pos: Event, kind: KindView },
    /// A thread is created, and begins.
    Spawn { pos: Event, kind: KindView, tid: ThreadId, task: TaskId, sym: Option<ThreadId> },
    /// A thread joins, ends, is blocked, or makes a channel.
    Record { pos: Event, kind: KindView },
    /// A choice is made, whose alternatives are visited in turn.
    Choose { pos: Event, kind: KindView, revisit: bool },
    /// A choice is made at random.
    Pick { pos: Event, kind: KindView, picked: KindView, alternatives: u64 },
    /// A recorded event is executed again.
    Repeat { pos: Event, kind: KindView },
    /// A recorded execution begins again.
    Begin,
    /// Threads that waited go on.
    Unblock { tasks: Seq<TaskId> },
    /// The exploration goes on to the next execution.
    Next,
    /// Something is noted besides the graphs and the revisits to make.
    Note { to: MustView<P> },
}

/// Whether a thread can go on with a new event `pos`: it has not ended.
pub open spec fn goes_on<P>(v: MustView<P>, pos: Event) -> bool {
    comes_next(v, pos) && !thread_complete(log_of(v), pos.thread)
}

/// Whether the exploration `v` can do `m`.
pub open spec fn can_do<P: RecvPredicate>(v: MustView<P>, m: Move<P>) -> bool {
    match m {
        Move::Receive { pos, loc, blocking, pick } => goes_on(v, pos) && pick_in_range(
            added(v, pos, recv_kind(loc, blocking)),
            pos,
            blocking,
            pick,
        ),
        Move::Collect { pos, .. } => goes_on(v, pos),
        Move::Send { pos, kind } => goes_on(v, pos) && kind is Send,
        Move::Spawn { pos, kind, tid, .. } => goes_on(v, pos) && kind is TCreate && !in_log(
            log_of(v),
            first_event(tid),
        ) && tid != pos.thread,
        Move::Record { pos, kind } => goes_on(v, pos) && match kind {
            KindView::TJoin { cid } => thread_complete(log_of(v), cid),
            KindView::End { .. } => true,
            KindView::Block { .. } => true,
            KindView::Unique { .. } => true,
            _ => false,
        },
        Move::Choose { pos, kind, .. } => goes_on(v, pos) && (kind is CToss || kind is Choice
            || kind is Sample),
        Move::Pick { pos, kind, picked, .. } => goes_on(v, pos) && (kind is CToss && picked is CToss
            || kind is Choice && picked is Choice),
        Move::Repeat { pos, kind } => replayable(v, pos, kind) && !v.replay.replay_mode,
        Move::Begin => true,
        Move::Unblock { .. } => true,
        Move::Next => true,
        Move::Note { to } => to.states == v.states && to.current.rqueue == v.current.rqueue
            && log_of(to) == log_of(v),
    }
}

/// The exploration after `v` did `m`.
pub open spec fn after_move<P: RecvPredicate>(v: MustView<P>, m: Move<P>) -> MustView<P> {
    match m {
        Move::Receive { pos, loc, blocking, pick } => visited(
            added(v, pos, recv_kind(loc, blocking)),
            pos,
            blocking,
            pick,
        ),
        Move::Collect { pos, loc, min, max } => inbox_visited(
            added(v, pos, inbox_kind(loc, min, max)),
            pos,
        ),
        Move::Send { pos, kind } => sent(v, pos, kind),
        Move::Spawn { pos, kind, tid, task, sym } => spawned(v, pos, kind, tid, task, sym),
        Move::Record { pos, kind } => added(v, pos, kind),
        Move::Choose { pos, kind, revisit } => choice_added(v, pos, kind, revisit),
        Move::Pick { pos, kind, picked, alternatives } => choice_picked(
            v,
            pos,
            kind,
            picked,
            alternatives,
        ),
        Move::Repeat { pos, kind } => replayed(v, pos, kind),
        Move::Begin => with_graph(v, ready(v.current.graph)),
        Move::Unblock { tasks } => with_graph(
            v,
            all_unblocked(v.current.graph, tasks, tasks.len()),
        ),
        Move::Next => revisit_next(v).0,
        Move::Note { to } => to,
    }
}

/// Messages are taken once when an event is executed again.
proof fn lemma_repeat<P>(v: MustView<P>, pos: Event, kind: KindView)
    requires
        must_ok(v),
        sound_state(v.current),
        in_log(log_of(v), pos),
        !v.replay.replay_mode,
    ensures
        sound_state(replayed(v, pos, kind).current),
        replayed(v, pos, kind).states == v.states,
{
    let log = log_of(v);
    let z = replayed(v, pos, kind);
    let k = index_of(log, pos);
    assert(log[k].pos == pos);
    assert forall|i: int| 0 <= i < log.len() implies same_effect(
        #[trigger] log[i],
        #[trigger] log_of(z)[i],
    ) by {
        if i != k {
            assert(log_of(z)[i] == log[i]);
        }
    }
    lemma_same_state(v.current, z.current);
}

/// Messages are taken once when an execution begins again.
proof fn lemma_begin<P>(v: MustView<P>)
    requires
        must_ok(v),
        sound_state(v.current),
    ensures
        sound_state(with_graph(v, ready(v.current.graph)).current),
{
    let log = log_of(v);
    let z = with_graph(v, ready(v.current.graph));
    assert forall|i: int| 0 <= i < log.len() implies same_effect(
        #[trigger] log[i],
        #[trigger] log_of(z)[i],
    ) by {}
    lemma_same_state(v.current, z.current);
}

/// Whatever an exploration does next, each message is taken once.
pub proof fn law_every_move_keeps_deliveries_single<P: RecvPredicate>(v: MustView<P>, m: Move<P>)
    requires
        must_ok(v),
        sound(v),
        can_do(v, m),
    ensures
        sound(after_move(v, m)),
{
    let w = after_move(v, m);
    match m {
        Move::Receive { pos, loc, blocking, pick } => {
            lemma_receive(v, pos, loc, blocking, pick);
        },
        Move::Collect { pos, loc, min, max } => {
            lemma_inbox(v, pos, loc, min, max);
        },
        Move::Send { pos, kind } => {
            lemma_send(v, pos, kind);
        },
        Move::Spawn { pos, kind, tid, task, sym } => {
            lemma_spawn(v, pos, kind, tid, task, sym);
        },
        Move::Record { pos, kind } => {
            lemma_record(v, pos, kind);
        },
        Move::Choose { pos, kind, revisit } => {
            lemma_choice(v, pos, kind, revisit);
        },
        Move::Pick { pos, kind, picked, alternatives } => {
            lemma_random_choice(v, pos, kind, picked, alternatives);
        },
        Move::Repeat { pos, kind } => {
            lemma_repeat(v, pos, kind);
        },
        Move::Begin => {
            lemma_begin(v);
        },
        Move::Unblock { tasks } => {
            lemma_unblock_all(v.current, tasks, tasks.len());
        },
        Move::Next => {
            lemma_next(v);
        },
        Move::Note { to } => {
            let log = log_of(v);
            assert forall|i: int| 0 <= i < log.len() implies same_effect(
                #[trigger] log[i],
                #[trigger] log_of(to)[i],
            ) by {}
            lemma_same_state(v.current, to.current);
        },
    }
}

/// Whether an exploration is about to visit its first execution.
pub open spec fn is_start<P>(v: MustView<P>) -> bool {
    &&& v.states.len() == 0
    &&& v.current.rqueue.len() == 0
    &&& log_of(v).len() == 1
    &&& log_of(v)[0].kind matches KindView::Begin { parent: None, .. }
}

/// Whether an exploration went through the states `run` by the moves `moves`.
pub open spec fn is_run<P: RecvPredicate>(run: Seq<MustView<P>>, moves: Seq<Move<P>>) -> bool {
    &&& run.len() == moves.len() + 1
    &&& is_start(run[0])
    &&& forall|i: int| 0 <= i < run.len() ==> must_ok(#[trigger] run[i])
    &&& forall|i: int|
        0 <= i < moves.len() ==> can_do(run[i], #[trigger] moves[i]) && run[i + 1] == after_move(
            run[i],
            moves[i],
        )
}

/// What a run has come to is sound.
proof fn lemma_run<P: RecvPredicate>(run: Seq<MustView<P>>, moves: Seq<Move<P>>, i: int)
    requires
        is_run(run, moves),
        0 <= i < run.len(),
    ensures
        sound(run[i]),
    decreases i,
{
    if i == 0 {
        let v = run[0];
        reveal(sound_log);
        assert(state_ok(v.current));
        assert(sound_log(log_of(v)));
    } else {
        lemma_run(run, moves, i - 1);
        assert(can_do(run[i - 1], moves[i - 1]));
        law_every_move_keeps_deliveries_single(run[i - 1], moves[i - 1]);
    }
}

/// Each message is taken once: however an exploration goes on from its start, in every
/// execution that it visits no two receives or inboxes take the same message, and what
/// they read was sent. Only monitors read messages that others take.
pub proof fn law_messages_are_taken_once<P: RecvPredicate>(
    run: Seq<MustView<P>>,
    moves: Seq<Move<P>>,
)
    requires
        is_run(run, moves),
    ensures
        forall|i: int|
            0 <= i < run.len() ==> delivered_once(log_of(#[trigger] run[i])) && reads_sends(
                log_of(run[i]),
            ),
{
    assert forall|i: int| 0 <= i < run.len() implies delivered_once(log_of(#[trigger] run[i]))
        && reads_sends(log_of(run[i])) by {
        lemma_run(run, moves, i);
        reveal(sound_log);
    }
}

} // verus!
