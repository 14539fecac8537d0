//! Laws of what can be asked of an exploration: what was received, from where and by whom,
//! what threads ended with, which task runs which thread, and who is blocked or handed on.
use crate::event::{Event, TaskId, ThreadId};
use crate::event_label::{BlockType, KindView, LabelView};
use crate::exec_graph::{
    creation_place, has_thread, in_log, is_daemon, label_at, last_label, last_place,
    lemma_index_of, lemma_last_place, lemma_thread_size, log_wf, origination, received_value,
    received_values, task_of, thread_complete, thread_of,
};
use crate::loc::{Loc, RecvPredicate};
use crate::must::blocking::all_blocked;
use crate::must::delivery::listed;
use crate::must::handle::{
    place_of, readers_as, readers_of, receiving_index, receiving_indexes, source_index,
    thread_result,
};
use crate::must::sched::{joiners, joins};
use crate::must::step::{backwarded, popped, revisited_graph};
use crate::must::{added, log_of, must_ok, MustView};
use crate::revisit::RevisitView;
use vstd::prelude::*;

verus! {

/// A receive gets the value of the send that it reads, and nothing where it reads nothing. An
/// inbox gets the values of the sends that it reads, in their order.
pub proof fn law_what_was_sent_is_received(log: Seq<LabelView>, i: int, j: int, k: int)
    requires
        log_wf(log),
        0 <= i < log.len(),
        0 <= j < log.len(),
    ensures
        log[i].kind matches KindView::Recv { rf, .. } ==> {
            &&& rf is None ==> received_value(log, log[i].pos) is None
            &&& rf == Some(log[j].pos) ==> (log[j].kind matches KindView::Send { val, .. }
                ==> received_value(log, log[i].pos) == Some(val))
        },
        log[i].kind matches KindView::Inbox { rfs, .. } ==> {
            &&& rfs is None ==> received_values(log, log[i].pos).len() == 0
            &&& rfs matches Some(sends) ==> {
                &&& received_values(log, log[i].pos).len() == sends.len()
                &&& 0 <= k < sends.len() && sends[k] == log[j].pos ==> (
                log[j].kind matches KindView::Send { val, .. } ==> received_values(
                    log,
                    log[i].pos,
                )[k] == Some(val))
            }
        },
        !(log[i].kind is Recv) ==> received_value(log, log[i].pos) is None,
        !(log[i].kind is Inbox) ==> received_values(log, log[i].pos).len() == 0,
{
    lemma_index_of(log, i);
    lemma_index_of(log, j);
}

proof fn lemma_place_of(locs: Seq<Loc>, loc: Loc, n: nat)
    requires
        n <= locs.len(),
        n <= usize::MAX,
    ensures
        match place_of(locs, loc, n) {
            None => forall|k: int| 0 <= k < n ==> #[trigger] locs[k] != loc,
            Some(p) => p < n && locs[p as int] == loc && forall|k: int|
                0 <= k < p ==> #[trigger] locs[k] != loc,
        },
    decreases n,
{
    if n > 0 {
        lemma_place_of(locs, loc, (n - 1) as nat);
    }
}

/// The message of a receive came from the first of its locations that is the one that the
/// message was sent to; each message of an inbox likewise.
pub proof fn law_messages_came_from_where_they_were_sent<P: RecvPredicate>(
    v: MustView<P>,
    i: int,
    j: int,
    k: int,
    place: usize,
)
    requires
        log_wf(log_of(v)),
        0 <= i < log_of(v).len(),
        0 <= j < log_of(v).len(),
    ensures
        ({
            let log = log_of(v);
            log[j].kind matches KindView::Send { loc: to, .. } ==> {
                &&& log[i].kind matches KindView::Recv { loc, rf, .. } ==> (rf == Some(log[j].pos)
                    && loc < v.locs.len() && v.locs[loc as int].locs@.len() <= usize::MAX ==> {
                    let locs = v.locs[loc as int].locs@;
                    receiving_index(v, log[i].pos) == Some(place) <==> {
                        &&& place < locs.len()
                        &&& locs[place as int] == to
                        &&& forall|p: int| 0 <= p < place ==> #[trigger] locs[p] != to
                    }
                })
                &&& log[i].kind matches KindView::Inbox { loc, rfs: Some(sends), .. } ==> (0 <= k
                    < sends.len() && sends[k] == log[j].pos && loc < v.locs.len()
                    && v.locs[loc as int].locs@.len() <= usize::MAX ==> {
                    let locs = v.locs[loc as int].locs@;
                    &&& receiving_indexes(v, log[i].pos).len() == sends.len()
                    &&& receiving_indexes(v, log[i].pos)[k] == Some(place) <==> {
                        &&& place < locs.len()
                        &&& locs[place as int] == to
                        &&& forall|p: int| 0 <= p < place ==> #[trigger] locs[p] != to
                    }
                })
            }
        }),
{
    let log = log_of(v);
    lemma_index_of(log, i);
    lemma_index_of(log, j);
    if let KindView::Send { loc: to, .. } = log[j].kind {
        if let KindView::Recv { loc, .. } = log[i].kind {
            if loc < v.locs.len() && v.locs[loc as int].locs@.len() <= usize::MAX {
                let locs = v.locs[loc as int].locs@;
                lemma_place_of(locs, to, locs.len());
            }
        }
        if let KindView::Inbox { loc, rfs: Some(sends), .. } = log[i].kind {
            if loc < v.locs.len() && v.locs[loc as int].locs@.len() <= usize::MAX && 0 <= k
                < sends.len() && sends[k] == log[j].pos {
                let locs = v.locs[loc as int].locs@;
                lemma_place_of(locs, to, locs.len());
                assert(receiving_indexes(v, log[i].pos)[k] == source_index(v, loc, sends[k]));
            }
        }
    }
}

/// Whether the event labelled `l` reads the message of `send`.
pub open spec fn has_read(l: LabelView, send: Event) -> bool {
    match l.kind {
        KindView::Recv { rf, .. } => rf == Some(send),
        KindView::Inbox { rfs, .. } => rfs matches Some(sends) && exists|k: int|
            0 <= k < sends.len() && #[trigger] sends[k] == send,
        _ => false,
    }
}

/// Whether the label is one of a monitor that gets the message of `send` too.
pub open spec fn as_monitor(log: Seq<LabelView>, send: Event, l: LabelView) -> bool {
    label_at(log, send).kind matches KindView::Send { monitors, .. } && monitors.contains(
        l.pos.thread,
    )
}

proof fn lemma_readers_as(log: Seq<LabelView>, send: Event, monitors: bool, n: nat)
    requires
        log_wf(log),
        n <= log.len(),
    ensures
        readers_as(log, send, monitors, n).no_duplicates(),
        forall|e: Event|
            readers_as(log, send, monitors, n).contains(e) <==> exists|i: int|
                0 <= i < n && #[trigger] log[i].pos == e && has_read(log[i], send) && as_monitor(
                    log,
                    send,
                    log[i],
                ) == monitors,
    decreases n,
{
    if n > 0 {
        lemma_readers_as(log, send, monitors, (n - 1) as nat);
        let before = readers_as(log, send, monitors, (n - 1) as nat);
        let all = readers_as(log, send, monitors, n);
        let l = log[n - 1];
        assert(l.reads(send) <==> has_read(l, send)) by {
            if let KindView::Inbox { rfs: Some(sends), .. } = l.kind {
                if sends.contains(send) {
                    let k = choose|k: int| 0 <= k < sends.len() && sends[k] == send;
                    assert(sends[k] == send);
                }
            }
        }
        assert(listed(log, send, l.pos.thread) == as_monitor(log, send, l));
        assert(!before.contains(l.pos)) by {
            if before.contains(l.pos) {
                let i = choose|i: int|
                    0 <= i < n - 1 && #[trigger] log[i].pos == l.pos && has_read(log[i], send)
                        && as_monitor(log, send, log[i]) == monitors;
                lemma_index_of(log, i);
                lemma_index_of(log, n - 1);
            }
        }
        assert forall|e: Event|
            all.contains(e) <==> exists|i: int|
                0 <= i < n && #[trigger] log[i].pos == e && has_read(log[i], send) && as_monitor(
                    log,
                    send,
                    log[i],
                ) == monitors by {
            if all.contains(e) {
                let k = choose|k: int| 0 <= k < all.len() && all[k] == e;
                if k < before.len() {
                    assert(before.contains(e));
                } else {
                    assert(log[n - 1].pos == e);
                }
            }
            if before.contains(e) {
                let k = choose|k: int| 0 <= k < before.len() && before[k] == e;
                assert(all[k] == e);
            }
            if l.pos == e && has_read(l, send) && as_monitor(log, send, l) == monitors {
                assert(all[before.len() as int] == e);
            }
        }
        assert forall|i: int, j: int|
            0 <= i < all.len() && 0 <= j < all.len() && i != j implies all[i] != all[j] by {
            if all.len() > before.len() {
                if i == before.len() {
                    assert(before.contains(before[j]));
                } else if j == before.len() {
                    assert(before.contains(before[i]));
                }
            }
        }
    }
}

/// The readers of a send are exactly the events that read it, each once, and those that read
/// it as monitors come behind the others.
pub proof fn law_readers_are_those_who_read(log: Seq<LabelView>, send: Event)
    requires
        log_wf(log),
    ensures
        ({
            let readers = readers_of(log, send);
            &&& readers.no_duplicates()
            &&& forall|i: int|
                0 <= i < log.len() ==> (readers.contains((#[trigger] log[i]).pos) <==> has_read(
                    log[i],
                    send,
                ))
            &&& forall|e: Event| #[trigger] readers.contains(e) ==> in_log(log, e)
            &&& forall|a: int, b: int|
                0 <= a < b < readers.len() && as_monitor(
                    log,
                    send,
                    label_at(log, #[trigger] readers[a]),
                ) ==> as_monitor(log, send, label_at(log, #[trigger] readers[b]))
        }),
{
    lemma_readers_as(log, send, false, log.len());
    lemma_readers_as(log, send, true, log.len());
    let first = readers_as(log, send, false, log.len());
    let second = readers_as(log, send, true, log.len());
    let readers = readers_of(log, send);
    assert forall|e: Event| first.contains(e) implies in_log(log, e) && has_read(
        label_at(log, e),
        send,
    ) && !as_monitor(log, send, label_at(log, e)) by {
        let i = choose|i: int|
            0 <= i < log.len() && #[trigger] log[i].pos == e && has_read(log[i], send)
                && as_monitor(log, send, log[i]) == false;
        lemma_index_of(log, i);
    }
    assert forall|e: Event| second.contains(e) implies in_log(log, e) && has_read(
        label_at(log, e),
        send,
    ) && as_monitor(log, send, label_at(log, e)) by {
        let i = choose|i: int|
            0 <= i < log.len() && #[trigger] log[i].pos == e && has_read(log[i], send)
                && as_monitor(log, send, log[i]) == true;
        lemma_index_of(log, i);
    }
    assert forall|e: Event| #[trigger] readers.contains(e) <==> first.contains(e)
        || second.contains(e) by {
        if readers.contains(e) {
            let k = choose|k: int| 0 <= k < readers.len() && readers[k] == e;
            if k < first.len() {
                assert(first[k] == e);
            } else {
                assert(second[k - first.len()] == e);
            }
        }
        if first.contains(e) {
            let k = choose|k: int| 0 <= k < first.len() && first[k] == e;
            assert(readers[k] == e);
        }
        if second.contains(e) {
            let k = choose|k: int| 0 <= k < second.len() && second[k] == e;
            assert(readers[first.len() + k] == e);
        }
    }
    assert forall|a: int| 0 <= a < readers.len() implies if a < first.len() {
        first.contains(#[trigger] readers[a])
    } else {
        second.contains(readers[a])
    } by {
        if a < first.len() {
            assert(first[a] == readers[a]);
        } else {
            assert(second[a - first.len()] == readers[a]);
        }
    }
    assert forall|i: int| 0 <= i < log.len() implies (readers.contains((#[trigger] log[i]).pos)
        <==> has_read(log[i], send)) by {
        lemma_index_of(log, i);
        if has_read(log[i], send) {
            if as_monitor(log, send, log[i]) {
                assert(second.contains(log[i].pos));
            } else {
                assert(first.contains(log[i].pos));
            }
        }
    }
    assert forall|a: int, b: int|
        0 <= a < readers.len() && 0 <= b < readers.len() && a != b implies readers[a]
        != readers[b] by {
        if a < first.len() && b < first.len() {
            assert(first[a] != first[b]);
        } else if a >= first.len() && b >= first.len() {
            assert(second[a - first.len()] != second[b - first.len()]);
        }
    }
}

/// A thread has a result exactly when the last of its events is its end, and that is what it
/// ended with.
pub proof fn law_threads_result_in_what_they_end_with(log: Seq<LabelView>, i: int)
    requires
        0 <= i < log.len(),
        forall|j: int| i < j < log.len() ==> (#[trigger] log[j]).pos.thread != log[i].pos.thread,
    ensures
        thread_complete(log, log[i].pos.thread) <==> log[i].kind is End,
        log[i].kind matches KindView::End { result } ==> thread_result(log, log[i].pos.thread)
            == Some(result),
        !(log[i].kind is End) ==> thread_result(log, log[i].pos.thread) is None,
{
    lemma_last_place(log, log[i].pos.thread, log.len());
}

/// Whether the event after the `at`-th of thread `t` joins `finished`.
pub open spec fn joins_next(
    log: Seq<LabelView>,
    t: ThreadId,
    at: u32,
    finished: ThreadId,
) -> bool {
    exists|i: int|
        0 <= i < log.len() && (#[trigger] log[i]).pos.thread == t && log[i].pos.index == at + 1
            && log[i].kind == (KindView::TJoin { cid: finished })
}

/// The tasks that go on when a thread has finished are exactly the stuck ones whose next
/// event joins it.
pub proof fn law_joining_tasks_go_on<P>(
    v: MustView<P>,
    stuck: Seq<(TaskId, u32)>,
    finished: ThreadId,
    task: TaskId,
    n: nat,
)
    requires
        log_wf(log_of(v)),
        n <= stuck.len(),
    ensures
        joiners(v, stuck, finished, n).contains(task) <==> exists|k: int|
            0 <= k < n && (#[trigger] stuck[k]).0 == task && (thread_of(
                v.current.graph.tasks,
                task,
            ) matches Some(t) && joins_next(log_of(v), t, stuck[k].1, finished)),
    decreases n,
{
    if n > 0 {
        law_joining_tasks_go_on(v, stuck, finished, task, (n - 1) as nat);
        let before = joiners(v, stuck, finished, (n - 1) as nat);
        let all = joiners(v, stuck, finished, n);
        let (own, at) = stuck[n - 1];
        if let Some(t) = thread_of(v.current.graph.tasks, own) {
            let log = log_of(v);
            if joins_next(log, t, at, finished) {
                let i = choose|i: int|
                    0 <= i < log.len() && (#[trigger] log[i]).pos.thread == t && log[i].pos.index
                        == at + 1 && log[i].kind == (KindView::TJoin { cid: finished });
                lemma_index_of(log, i);
                assert(log[i].pos == Event { thread: t, index: (at + 1) as u32 });
            }
            assert(joins(v, own, at, finished) <==> joins_next(log, t, at, finished));
        }
        if before.contains(task) {
            let k = choose|k: int| 0 <= k < before.len() && before[k] == task;
            assert(all[k] == task);
        }
        if all.contains(task) && !before.contains(task) {
            let k = choose|k: int| 0 <= k < all.len() && all[k] == task;
            assert(k == before.len());
            assert(stuck[n - 1].0 == task);
        }
        if joins(v, own, at, finished) {
            assert(all[before.len() as int] == own);
        }
    }
}

/// A task that is bound to a thread runs that thread and is the one that runs it; what other
/// tasks run, and who runs other threads, stays.
pub proof fn law_tasks_run_the_threads_they_are_bound_to(
    tasks: Seq<(TaskId, ThreadId)>,
    task: TaskId,
    tid: ThreadId,
    other: TaskId,
    elsewhere: ThreadId,
)
    ensures
        ({
            let bound = tasks.push((task, tid));
            &&& thread_of(bound, task) == Some(tid)
            &&& task_of(bound, tid) == Some(task)
            &&& other != task ==> thread_of(bound, other) == thread_of(tasks, other)
            &&& elsewhere != tid ==> task_of(bound, elsewhere) == task_of(tasks, elsewhere)
        }),
        thread_of(Seq::empty(), task) is None,
        task_of(Seq::empty(), tid) is None,
{
    assert(tasks.push((task, tid)).drop_last() =~= tasks);
}

proof fn lemma_creation(log: Seq<LabelView>, t: ThreadId, i: int, n: nat)
    requires
        0 <= i < n <= log.len(),
        log[i].kind matches KindView::TCreate { cid, .. } && cid == t,
        forall|j: int|
            i < j < n ==> !((#[trigger] log[j]).kind matches KindView::TCreate { cid, .. } && cid
                == t),
    ensures
        creation_place(log, t, n) == i + 1,
    decreases n,
{
    if n > i + 1 {
        assert(!(log[n - 1].kind matches KindView::TCreate { cid, .. } && cid == t));
        lemma_creation(log, t, i, (n - 1) as nat);
    }
}

/// A thread is a daemon exactly when it was created as one, and it has the origin that it
/// was created with.
pub proof fn law_threads_are_as_they_were_created(log: Seq<LabelView>, t: ThreadId, i: int)
    requires
        0 <= i < log.len(),
        log[i].kind matches KindView::TCreate { cid, .. } && cid == t,
        forall|j: int|
            i < j < log.len() ==> !((#[trigger] log[j]).kind matches KindView::TCreate { cid, .. }
                && cid == t),
    ensures
        is_daemon(log, t) == log[i].kind->daemon,
        origination(log, t) == log[i].kind->origination,
{
    lemma_creation(log, t, i, log.len());
}

/// A backward revisit is made here and can be returned from: what was explored before it is
/// found again as it was. Where there is room for it, its graph is handed on besides, and
/// never more than there is room for.
pub proof fn law_revisited_graphs_are_handed_on<P>(v: MustView<P>, r: RevisitView)
    ensures
        ({
            let w = backwarded(v, r);
            let g = revisited_graph(v.current.graph, r);
            &&& w.current.graph == g && w.current.rqueue.len() == 0
            &&& popped(w).current == v.current && popped(w).states == v.states
            &&& v.handoffs.len() < v.room ==> w.handoffs == v.handoffs.push(g)
            &&& v.handoffs.len() >= v.room ==> w.handoffs == v.handoffs
            &&& v.handoffs.len() <= v.room ==> w.handoffs.len() <= w.room
            &&& popped(w).handoffs == w.handoffs
        }),
{
    let w = backwarded(v, r);
    assert(popped(w).states =~= v.states);
}

proof fn lemma_last_kept(log: Seq<LabelView>, l: LabelView, t: ThreadId)
    ensures
        l.pos.thread != t ==> has_thread(log.push(l), t) == has_thread(log, t) && (has_thread(
            log,
            t,
        ) ==> last_label(log.push(l), t) == last_label(log, t)),
{
    let all = log.push(l);
    lemma_last_place(log, t, log.len());
    lemma_last_place(all, t, all.len());
    if l.pos.thread != t {
        let a = last_place(log, t, log.len());
        let b = last_place(all, t, all.len());
        assert(b <= log.len()) by {
            assert(all[log.len() as int] == l);
        }
        if a < b {
            assert(log[b - 1] == all[b - 1]);
            assert(log[b - 1].pos.thread != t);
        }
        if b < a {
            assert(all[a - 1] == log[a - 1]);
            assert(all[a - 1].pos.thread != t);
        }
    }
}

/// Whether thread `t` has the same last event in both logs, or none in both.
pub open spec fn same_end(a: Seq<LabelView>, b: Seq<LabelView>, t: ThreadId) -> bool {
    has_thread(a, t) == has_thread(b, t) && (has_thread(b, t) ==> last_label(a, t) == last_label(
        b,
        t,
    ))
}

/// Blocking threads records one event for each of them, behind its last one, in their
/// order, and changes nothing that was recorded; no other thread gets an event.
pub proof fn law_each_thread_is_blocked_once<P>(
    v: MustView<P>,
    threads: Seq<ThreadId>,
    btype: BlockType,
    n: nat,
)
    requires
        n <= threads.len(),
        threads.no_duplicates(),
        forall|k: int|
            0 <= k < n ==> has_thread(log_of(v), #[trigger] threads[k]) && last_label(
                log_of(v),
                threads[k],
            ).pos.index < u32::MAX,
    ensures
        ({
            let log = log_of(v);
            let after = log_of(all_blocked(v, threads, btype, n));
            &&& after.len() == log.len() + n
            &&& after.take(log.len() as int) == log
            &&& forall|k: int|
                0 <= k < n ==> {
                    let l = after[log.len() + k];
                    &&& l.kind == (KindView::Block { btype })
                    &&& l.pos.thread == #[trigger] threads[k]
                    &&& l.pos.index == last_label(log, threads[k]).pos.index + 1
                }
            &&& forall|t: ThreadId|
                !threads.take(n as int).contains(t) ==> #[trigger] same_end(after, log, t)
        }),
    decreases n,
{
    let log = log_of(v);
    if n == 0 {
        assert(log.take(log.len() as int) =~= log);
    } else {
        law_each_thread_is_blocked_once(v, threads, btype, (n - 1) as nat);
        let middle = all_blocked(v, threads, btype, (n - 1) as nat);
        let before = log_of(middle);
        let after = log_of(all_blocked(v, threads, btype, n));
        let t = threads[n - 1];
        assert(!threads.take(n - 1).contains(t)) by {
            if threads.take(n - 1).contains(t) {
                let k = choose|k: int| 0 <= k < n - 1 && #[trigger] threads[k] == t;
                assert(threads[k] == threads[n - 1]);
            }
        }
        assert(same_end(before, log, t));
        lemma_last_place(before, t, before.len());
        let last = last_label(before, t).pos;
        let pos = Event { thread: last.thread, index: (last.index + 1) as u32 };
        let l = LabelView { pos, stamp: middle.current.graph.stamp, kind: KindView::Block { btype } };
        if before.last().pos == pos {
            assert(before[before.len() - 1].pos.thread == t);
            assert(last_place(before, t, before.len()) == before.len());
        }
        assert(after == before.push(l));
        assert(after.take(log.len() as int) =~= before.take(log.len() as int));
        assert forall|k: int| 0 <= k < n implies {
            let l = after[log.len() + k];
            &&& l.kind == (KindView::Block { btype })
            &&& l.pos.thread == #[trigger] threads[k]
            &&& l.pos.index == last_label(log, threads[k]).pos.index + 1
        } by {
            if k < n - 1 {
                assert(after[log.len() + k] == before[log.len() + k]);
            }
        }
        assert forall|u: ThreadId| !threads.take(n as int).contains(u) implies #[trigger] same_end(
            after,
            log,
            u,
        ) by {
            assert(threads.take(n as int)[n - 1] == t);
            if threads.take(n - 1).contains(u) {
                let k = choose|k: int| 0 <= k < n - 1 && #[trigger] threads[k] == u;
                assert(threads.take(n as int)[k] == u);
            }
            lemma_last_kept(before, l, u);
            assert(same_end(before, log, u));
        }
    }
}

/// Recording an event of a thread warns, once for each warning that is left, exactly when
/// the thread has an event beyond the threshold; the execution then stops.
pub proof fn law_large_threads_are_warned_of<P>(v: MustView<P>, pos: Event, kind: KindView)
    requires
        must_ok(v),
    ensures
        ({
            let w = added(v, pos, kind);
            let large = in_log(
                log_of(v),
                Event { thread: pos.thread, index: v.config.thread_threshold },
            );
            &&& large && v.warn_limit > 0 ==> w.stopped && w.warn_limit == v.warn_limit - 1
                && w.warnings.len() == v.warnings.len() + 1
            &&& !large || v.warn_limit == 0 ==> w.stopped == v.stopped && w.warn_limit
                == v.warn_limit && w.warnings == v.warnings
        }),
{
    lemma_thread_size(log_of(v), pos.thread, v.config.thread_threshold);
}

} // verus!
