//! What comes before what in an execution, and which messages can be read in it.

use crate::cons::{readable, stamp_of};
use crate::event::{Event, ThreadId};
use crate::event_label::{KindView, LabelView, Val};
use crate::exec_graph::{
    closed_clock, comes_before, covers_all, has_thread, in_log, index_of, is_cause, label_at,
    largest_id, last_label, last_place, lemma_below, lemma_index_of, lemma_last_place, log_wf,
    next_thread, previous, spawned_by, thread_size, GraphView,
};
use crate::linear::{can_run, exhausted, fits, runs, wanted};
use crate::loc::{CommunicationModel, RecvLoc, RecvPredicate};
use crate::must::ending::with_published;
use crate::must::ending_laws::ends_thread;
use crate::must::sched::unblocked;
use crate::must::visit::{asymmetric_rfs, is_symmetric_rf, sym_of};
use crate::vector_clock::{clock_with, covers};
use vstd::prelude::*;

verus! {

/// Whether the event `x` is just before the event `y`: the previous one of its thread, what
/// it reads, what created its thread, or the last event of the thread that it joins.
pub open spec fn is_just_before(log: Seq<LabelView>, x: Event, y: Event) -> bool {
    &&& in_log(log, x)
    &&& in_log(log, y)
    &&& (x.thread == y.thread && x.index + 1 == y.index) || match label_at(log, y).kind {
        KindView::Recv { rf, .. } => rf == Some(x),
        KindView::Inbox { rfs, .. } => rfs matches Some(es) && es.contains(x),
        KindView::Begin { parent, .. } => parent == Some(x),
        KindView::TJoin { cid } => x.thread == cid && !in_log(
            log,
            Event { thread: cid, index: (x.index + 1) as u32 },
        ) && x.index < u32::MAX,
        _ => false,
    }
}

/// Whether each event of a path is just before the next one.
pub open spec fn is_path(log: Seq<LabelView>, path: Seq<Event>) -> bool {
    &&& path.len() > 0
    &&& forall|i: int| 0 <= i < path.len() ==> in_log(log, #[trigger] path[i])
    &&& forall|i: int, j: int|
        0 <= i && j == i + 1 && j < path.len() ==> is_just_before(
            log,
            #[trigger] path[i],
            #[trigger] path[j],
        )
}

/// Whether a path leads from `x` to `y`.
pub open spec fn leads_to(log: Seq<LabelView>, x: Event, y: Event) -> bool {
    exists|path: Seq<Event>| #[trigger] is_path(log, path) && path[0] == x && path.last() == y
}

proof fn lemma_here(log: Seq<LabelView>, x: Event)
    requires
        in_log(log, x),
    ensures
        leads_to(log, x, x),
{
    let path = seq![x];
    assert(is_path(log, path));
    assert(path[0] == x && path.last() == x);
}

proof fn lemma_one_more(log: Seq<LabelView>, x: Event, y: Event, z: Event)
    requires
        is_just_before(log, x, y),
        leads_to(log, y, z),
    ensures
        leads_to(log, x, z),
{
    let path = choose|path: Seq<Event>| #[trigger]
        is_path(log, path) && path[0] == y && path.last() == z;
    let longer = seq![x] + path;
    assert forall|i: int| 0 <= i < longer.len() implies in_log(log, #[trigger] longer[i]) by {
        if i > 0 {
            assert(longer[i] == path[i - 1]);
        }
    }
    assert forall|i: int, j: int|
        0 <= i && j == i + 1 && j < longer.len() implies is_just_before(
        log,
        #[trigger] longer[i],
        #[trigger] longer[j],
    ) by {
        assert(longer[j] == path[j - 1]);
        if i > 0 {
            assert(longer[i] == path[i - 1]);
        }
    }
    assert(is_path(log, longer));
    assert(longer[0] == x && longer.last() == z);
}

/// Within a thread a path leads from each event to the later ones.
proof fn lemma_along_thread(log: Seq<LabelView>, x: Event, y: Event)
    requires
        log_wf(log),
        in_log(log, x),
        in_log(log, y),
        x.thread == y.thread,
        x.index <= y.index,
    ensures
        leads_to(log, x, y),
    decreases y.index - x.index,
{
    if x.index == y.index {
        lemma_here(log, x);
    } else {
        let next = Event { thread: x.thread, index: (x.index + 1) as u32 };
        let i = index_of(log, y);
        assert(log[i].pos == y);
        lemma_below(log, i, next.index);
        lemma_along_thread(log, next, y);
        lemma_one_more(log, x, next, y);
    }
}

/// The last event of a thread has no event after it.
proof fn lemma_last_event(log: Seq<LabelView>, t: ThreadId, x: Event)
    requires
        log_wf(log),
        in_log(log, x),
        x.thread == t,
        thread_size(log, t) <= u32::MAX,
    ensures
        has_thread(log, t),
        last_label(log, t).pos == x <==> !in_log(
            log,
            Event { thread: t, index: (x.index + 1) as u32 },
        ) && x.index < u32::MAX,
{
    lemma_last_place(log, t, log.len());
    let i = index_of(log, x);
    assert(log[i].pos == x);
    let n = last_place(log, t, log.len());
    crate::exec_graph::lemma_thread_size(log, t, x.index);
    if x.index < u32::MAX {
        crate::exec_graph::lemma_thread_size(log, t, (x.index + 1) as u32);
    }
    assert(log[n - 1].pos.thread == t);
}

/// The steps of a path are those of a thread and the causes.
pub proof fn lemma_causes(log: Seq<LabelView>, i: int, c: Event)
    requires
        log_wf(log),
        0 <= i < log.len(),
        forall|t: ThreadId| #[trigger] thread_size(log, t) <= u32::MAX,
    ensures
        is_just_before(log, c, log[i].pos) <==> is_cause(log, log[i], c) || (in_log(log, c)
            && c.thread == log[i].pos.thread && c.index + 1 == log[i].pos.index),
{
    lemma_index_of(log, i);
    if in_log(log, c) {
        if let KindView::TJoin { cid } = log[i].kind {
            assert(thread_size(log, cid) <= u32::MAX);
            if c.thread == cid {
                lemma_last_event(log, cid, c);
            } else {
                lemma_last_place(log, cid, log.len());
            }
        }
    }
}

/// The clock of what leads to `e` among the first `n` labels.
spec fn clock_before(log: Seq<LabelView>, e: Event, n: nat) -> Map<ThreadId, u32>
    decreases n,
{
    if n == 0 {
        Map::empty()
    } else if leads_to(log, log[n - 1].pos, e) {
        clock_with(clock_before(log, e, (n - 1) as nat), log[n - 1].pos)
    } else {
        clock_before(log, e, (n - 1) as nat)
    }
}

proof fn lemma_clock_before(log: Seq<LabelView>, e: Event, x: Event, n: nat)
    requires
        n <= log.len(),
    ensures
        covers(clock_before(log, e, n), x) <==> exists|i: int|
            0 <= i < n && (#[trigger] log[i]).pos.thread == x.thread && x.index <= log[i].pos.index
                && leads_to(log, log[i].pos, e),
    decreases n,
{
    if n > 0 {
        lemma_clock_before(log, e, x, (n - 1) as nat);
        let l = log[n - 1];
        if leads_to(log, l.pos, e) {
            lemma_clock_before(log, e, l.pos, (n - 1) as nat);
            if covers(clock_before(log, e, n), x) && !covers(
                clock_before(log, e, (n - 1) as nat),
                x,
            ) {
                assert(log[n - 1].pos.thread == x.thread);
            }
            assert(covers(clock_before(log, e, n), l.pos));
        }
        if exists|i: int|
            0 <= i < n && (#[trigger] log[i]).pos.thread == x.thread && x.index <= log[i].pos.index
                && leads_to(log, log[i].pos, e) {
            let i = choose|i: int|
                0 <= i < n && (#[trigger] log[i]).pos.thread == x.thread && x.index
                    <= log[i].pos.index && leads_to(log, log[i].pos, e);
            if i < n - 1 {
                assert(covers(clock_before(log, e, (n - 1) as nat), x));
            }
        }
    }
}

/// An event comes before another one exactly if a path leads from it to the other: along
/// the threads, from sends to what reads them, from the creation of a thread to its
/// beginning, and from its end to what joins it.
pub proof fn law_what_comes_before_leads_there(log: Seq<LabelView>, x: Event, e: Event)
    requires
        log_wf(log),
        in_log(log, e),
        forall|t: ThreadId| #[trigger] thread_size(log, t) <= u32::MAX,
    ensures
        comes_before(log, seq![e], x) <==> leads_to(log, x, e),
{
    if leads_to(log, x, e) {
        let path = choose|path: Seq<Event>| #[trigger]
            is_path(log, path) && path[0] == x && path.last() == e;
        assert forall|clock: Map<ThreadId, u32>| #[trigger]
            closed_clock(log, clock) && covers_all(clock, seq![e]) implies covers(clock, x) by {
            assert(seq![e][0] == e);
            lemma_back_along(log, clock, path, path.len());
        }
    }
    if comes_before(log, seq![e], x) {
        let clock = clock_before(log, e, log.len());
        assert(closed_clock(log, clock)) by {
            assert forall|i: int, c: Event|
                0 <= i < log.len() && covers(clock, log[i].pos) && #[trigger] is_cause(
                    log,
                    log[i],
                    c,
                ) implies covers(clock, c) by {
                lemma_clock_before(log, e, log[i].pos, log.len());
                let k = choose|k: int|
                    0 <= k < log.len() && (#[trigger] log[k]).pos.thread == log[i].pos.thread
                        && log[i].pos.index <= log[k].pos.index && leads_to(log, log[k].pos, e);
                lemma_index_of(log, i);
                lemma_index_of(log, k);
                lemma_along_thread(log, log[i].pos, log[k].pos);
                lemma_joined(log, log[i].pos, log[k].pos, e);
                lemma_causes(log, i, c);
                lemma_one_more(log, c, log[i].pos, e);
                let j = index_of(log, c);
                assert(log[j].pos == c);
                lemma_clock_before(log, e, c, log.len());
            }
        }
        assert(covers_all(clock, seq![e])) by {
            lemma_here(log, e);
            let j = index_of(log, e);
            assert(log[j].pos == e);
            lemma_clock_before(log, e, e, log.len());
        }
        assert(covers(clock, x));
        lemma_clock_before(log, e, x, log.len());
        let k = choose|k: int|
            0 <= k < log.len() && (#[trigger] log[k]).pos.thread == x.thread && x.index
                <= log[k].pos.index && leads_to(log, log[k].pos, e);
        lemma_index_of(log, k);
        lemma_below(log, k, x.index);
        assert(Event { thread: log[k].pos.thread, index: x.index } == x);
        lemma_along_thread(log, x, log[k].pos);
        lemma_joined(log, x, log[k].pos, e);
    }
}

proof fn lemma_joined(log: Seq<LabelView>, x: Event, y: Event, z: Event)
    requires
        leads_to(log, x, y),
        leads_to(log, y, z),
    ensures
        leads_to(log, x, z),
{
    let a = choose|path: Seq<Event>| #[trigger]
        is_path(log, path) && path[0] == x && path.last() == y;
    lemma_joined_along(log, a, 0, z);
}

proof fn lemma_joined_along(log: Seq<LabelView>, path: Seq<Event>, k: int, z: Event)
    requires
        is_path(log, path),
        0 <= k < path.len(),
        leads_to(log, path.last(), z),
    ensures
        leads_to(log, path[k], z),
    decreases path.len() - k,
{
    if k < path.len() - 1 {
        lemma_joined_along(log, path, k + 1, z);
        assert(is_just_before(log, path[k], path[k + 1]));
        lemma_one_more(log, path[k], path[k + 1], z);
    }
}

proof fn lemma_back_along(
    log: Seq<LabelView>,
    clock: Map<ThreadId, u32>,
    path: Seq<Event>,
    n: nat,
)
    requires
        log_wf(log),
        forall|t: ThreadId| #[trigger] thread_size(log, t) <= u32::MAX,
        is_path(log, path),
        closed_clock(log, clock),
        covers(clock, path.last()),
        0 < n <= path.len(),
    ensures
        covers(clock, path[path.len() - n]),
    decreases n,
{
    if n > 1 {
        lemma_back_along(log, clock, path, (n - 1) as nat);
        let x = path[path.len() - n];
        let y = path[path.len() - n + 1];
        assert(is_just_before(log, x, y));
        let i = index_of(log, y);
        assert(log[i].pos == y);
        lemma_causes(log, i, x);
        if is_cause(log, log[i], x) {
            assert(covers(clock, x));
        }
    }
}

/// Whether the message that `l` sent is one that `reader` takes: a monitor takes what names
/// it as a monitor, others what is sent to one of their places and is accepted there. A lost
/// message is none.
pub open spec fn is_for<P: RecvPredicate>(
    locs: Seq<RecvLoc<P>>,
    loc: usize,
    reader: Event,
    monitor: bool,
    l: LabelView,
) -> bool {
    l.kind matches KindView::Send { loc: to, tag, monitors, dropped, .. } && !dropped && if monitor {
        monitors.contains(reader.thread)
    } else {
        loc < locs.len() && locs[loc as int].locs@.contains(to)
            && locs[loc as int].predicate.accepted(l.pos.thread, tag)
    }
}

/// Whether another event has the message that `l` sent: for a monitor another of its own
/// events, for others one that is not a monitor's.
pub open spec fn is_gone(log: Seq<LabelView>, reader: Event, monitor: bool, l: LabelView) -> bool {
    exists|k: int|
        0 <= k < log.len() && (#[trigger] log[k]).pos != reader && (match log[k].kind {
            KindView::Recv { rf, .. } => rf == Some(l.pos),
            KindView::Inbox { rfs, .. } => rfs matches Some(es) && es.contains(l.pos),
            _ => false,
        }) && if monitor {
            log[k].pos.thread == reader.thread
        } else {
            !(l.kind matches KindView::Send { monitors, .. } && monitors.contains(
                log[k].pos.thread,
            ))
        }
}

/// A message can be read exactly if it is for the reader, nobody else has it, and, where
/// messages arrive in order, no earlier message of its sender to the same place is for the
/// reader and still there.
pub proof fn law_messages_that_can_be_read<P: RecvPredicate>(
    log: Seq<LabelView>,
    locs: Seq<RecvLoc<P>>,
    loc: usize,
    reader: Event,
    monitor: bool,
    l: LabelView,
)
    ensures
        readable(log, locs, loc, reader, monitor, l) <==> is_for(locs, loc, reader, monitor, l)
            && !is_gone(log, reader, monitor, l) && !(l.kind
            matches KindView::Send { model: CommunicationModel::LocalOrder, .. } && exists|k: int|
            0 <= k < log.len() && (#[trigger] log[k]).pos.thread == l.pos.thread && log[k].pos.index
                < l.pos.index && log[k].kind is Send && log[k].kind->Send_loc == l.kind->Send_loc
                && is_for(locs, loc, reader, monitor, log[k]) && !is_gone(
                log,
                reader,
                monitor,
                log[k],
            )),
{
    assert forall|s: LabelView| #[trigger]
        crate::cons::on_offer(log, locs, loc, reader, monitor, s) == (is_for(
            locs,
            loc,
            reader,
            monitor,
            s,
        ) && !is_gone(log, reader, monitor, s)) by {
        lemma_gone(log, reader, monitor, s);
    }
    if crate::cons::overtaking(log, locs, loc, reader, monitor, l) {
        let k = choose|k: int|
            0 <= k < log.len() && crate::cons::arrives_first(#[trigger] log[k], l)
                && crate::cons::on_offer(log, locs, loc, reader, monitor, log[k]);
        assert(log[k].pos.thread == l.pos.thread);
    }
    if l.kind is Send && exists|k: int|
        0 <= k < log.len() && (#[trigger] log[k]).pos.thread == l.pos.thread && log[k].pos.index
            < l.pos.index && log[k].kind is Send && log[k].kind->Send_loc == l.kind->Send_loc
            && is_for(locs, loc, reader, monitor, log[k]) && !is_gone(
            log,
            reader,
            monitor,
            log[k],
        ) && l.kind->model == CommunicationModel::LocalOrder {
        let k = choose|k: int|
            0 <= k < log.len() && (#[trigger] log[k]).pos.thread == l.pos.thread && log[k].pos.index
                < l.pos.index && log[k].kind is Send && log[k].kind->Send_loc == l.kind->Send_loc
                && is_for(locs, loc, reader, monitor, log[k]) && !is_gone(
                log,
                reader,
                monitor,
                log[k],
            ) && l.kind->model == CommunicationModel::LocalOrder;
        assert(crate::cons::on_offer(log, locs, loc, reader, monitor, log[k]));
        assert(crate::cons::arrives_first(log[k], l));
    }
}

proof fn lemma_gone(log: Seq<LabelView>, reader: Event, monitor: bool, l: LabelView)
    ensures
        crate::cons::taken(log, reader, monitor, l) == is_gone(log, reader, monitor, l),
{
    assert forall|k: int| 0 <= k < log.len() implies (#[trigger] log[k]).reads(l.pos) == (
    match log[k].kind {
        KindView::Recv { rf, .. } => rf == Some(l.pos),
        KindView::Inbox { rfs, .. } => rfs matches Some(es) && es.contains(l.pos),
        _ => false,
    }) by {}
}

/// Whether `other` is like `rf` for a reader: it was sent earlier, by the thread of which
/// the sender of `rf` is the double, and up to `rf` the double read what that thread read.
pub open spec fn is_like(log: Seq<LabelView>, rf: Event, other: Event) -> bool {
    &&& other != rf
    &&& sym_of(log, rf.thread) == Some(other.thread)
    &&& stamp_of(log, other) < stamp_of(log, rf)
    &&& thread_size(log, other.thread) > rf.index
    &&& forall|i: u32|
        1 <= i < rf.index ==> (match (
            #[trigger] label_at(log, Event { thread: rf.thread, index: i }).kind,
            label_at(log, Event { thread: other.thread, index: i }).kind,
        ) {
            (KindView::Recv { rf: a, .. }, KindView::Recv { rf: b, .. }) => a == b,
            _ => true,
        })
}

/// Of what a receive could read exactly that is left out which is like something else that
/// it could read.
pub proof fn law_only_likes_are_left_out(log: Seq<LabelView>, rfs: Seq<Event>, k: int)
    requires
        0 <= k < rfs.len(),
    ensures
        asymmetric_rfs(log, rfs, rfs.len()).contains(rfs[k]) <==> !(exists|i: int|
            0 <= i < rfs.len() && is_like(log, rfs[k], #[trigger] rfs[i])),
{
    lemma_left_out(log, rfs, rfs.len());
    let rf = rfs[k];
    assert(is_symmetric_rf(log, rfs, rf) <==> exists|i: int|
        0 <= i < rfs.len() && is_like(log, rf, #[trigger] rfs[i])) by {
        assert forall|i: int|
            0 <= i < rfs.len() && sym_of(log, rf.thread) == Some(
                rfs[i].thread,
            ) implies crate::must::visit::prefix_symmetric(log, rfs[i].thread, rf) == (thread_size(
            log,
            rfs[i].thread,
        ) > rf.index && forall|j: u32|
            1 <= j < rf.index ==> (match (
                #[trigger] label_at(log, Event { thread: rf.thread, index: j }).kind,
                label_at(log, Event { thread: rfs[i].thread, index: j }).kind,
            ) {
                (KindView::Recv { rf: a, .. }, KindView::Recv { rf: b, .. }) => a == b,
                _ => true,
            })) by {
            lemma_prefix(log, rfs[i].thread, rf);
        }
    }
}

proof fn lemma_prefix(log: Seq<LabelView>, t: ThreadId, rf: Event)
    ensures
        crate::must::visit::prefix_symmetric(log, t, rf) == (thread_size(log, t) > rf.index
            && forall|j: u32|
            1 <= j < rf.index ==> (match (
                #[trigger] label_at(log, Event { thread: rf.thread, index: j }).kind,
                label_at(log, Event { thread: t, index: j }).kind,
            ) {
                (KindView::Recv { rf: a, .. }, KindView::Recv { rf: b, .. }) => a == b,
                _ => true,
            })),
{
    if crate::must::visit::prefix_symmetric(log, t, rf) {
        assert forall|j: u32| 1 <= j < rf.index implies (match (
            #[trigger] label_at(log, Event { thread: rf.thread, index: j }).kind,
            label_at(log, Event { thread: t, index: j }).kind,
        ) {
            (KindView::Recv { rf: a, .. }, KindView::Recv { rf: b, .. }) => a == b,
            _ => true,
        }) by {
            assert(!crate::must::visit::differ_at(log, rf.thread, t, j));
        }
    } else if thread_size(log, t) > rf.index {
        let j = choose|j: u32|
            1 <= j < rf.index && #[trigger] crate::must::visit::differ_at(log, rf.thread, t, j);
        assert(label_at(log, Event { thread: rf.thread, index: j }).kind is Recv);
    }
}

proof fn lemma_left_out(log: Seq<LabelView>, rfs: Seq<Event>, n: nat)
    requires
        n <= rfs.len(),
    ensures
        forall|e: Event| #[trigger]
            asymmetric_rfs(log, rfs, n).contains(e) <==> !is_symmetric_rf(log, rfs, e) && exists|
                k: int,
            |
                0 <= k < n && #[trigger] rfs[k] == e,
    decreases n,
{
    if n > 0 {
        let m = (n - 1) as nat;
        lemma_left_out(log, rfs, m);
        let before = asymmetric_rfs(log, rfs, m);
        let after = asymmetric_rfs(log, rfs, n);
        assert forall|e: Event| #[trigger] after.contains(e) <==> !is_symmetric_rf(log, rfs, e)
            && exists|k: int| 0 <= k < n && #[trigger] rfs[k] == e by {
            if after.contains(e) {
                let k = choose|k: int| 0 <= k < after.len() && after[k] == e;
                if k < before.len() {
                    assert(before[k] == e);
                    assert(before.contains(e));
                    let p = choose|p: int| 0 <= p < m && #[trigger] rfs[p] == e;
                    assert(rfs[p] == e);
                } else {
                    assert(rfs[n - 1] == e);
                }
            }
            if !is_symmetric_rf(log, rfs, e) && exists|k: int| 0 <= k < n && #[trigger] rfs[k] == e {
                let k = choose|k: int| 0 <= k < n && #[trigger] rfs[k] == e;
                if k < m {
                    assert(before.contains(e));
                    let p = choose|p: int| 0 <= p < before.len() && before[p] == e;
                    assert(after[p] == e);
                } else {
                    assert(after[before.len() as int] == e);
                }
            }
        }
    }
}

proof fn lemma_spawned(log: Seq<LabelView>, origin: Seq<u32>, n: nat)
    requires
        n <= log.len(),
    ensures
        match spawned_by(log, origin, n) {
            Some(t) => exists|i: int|
                0 <= i < n && (#[trigger] log[i]).kind is TCreate && log[i].kind->origination
                    == origin && log[i].kind->TCreate_cid == t,
            None => forall|i: int|
                0 <= i < n && (#[trigger] log[i]).kind is TCreate ==> log[i].kind->origination
                    != origin,
        },
        forall|i: int|
            0 <= i < n && (#[trigger] log[i]).kind is TCreate ==> log[i].kind->TCreate_cid.id
                <= largest_id(log, n),
    decreases n,
{
    if n > 0 {
        lemma_spawned(log, origin, (n - 1) as nat);
        assert(log[n - 1].kind is TCreate ==> log[n - 1].kind->TCreate_cid.id <= largest_id(
            log,
            n,
        ));
    }
}

/// A spawn that was recorded creates the same thread again, and any other spawn a thread
/// that no recorded spawn created.
pub proof fn law_spawns_create_threads_of_their_own(log: Seq<LabelView>, origin: Seq<u32>)
    requires
        largest_id(log, log.len()) < u32::MAX,
    ensures
        ({
            let t = next_thread(log, origin);
            let again = exists|i: int|
                0 <= i < log.len() && (#[trigger] log[i]).kind is TCreate && log[i].kind->origination
                    == origin;
            &&& again ==> exists|i: int|
                0 <= i < log.len() && (#[trigger] log[i]).kind is TCreate && log[i].kind->origination
                    == origin && log[i].kind->TCreate_cid == t
            &&& !again ==> t.id > 0 && forall|i: int|
                0 <= i < log.len() && (#[trigger] log[i]).kind is TCreate ==> log[i].kind->TCreate_cid.id
                    < t.id
        }),
{
    lemma_spawned(log, origin, log.len());
}

/// A thread that is no longer to wait loses its last event, if that is one of waiting, and
/// nothing else changes.
pub proof fn law_waiting_ends_with_the_block(g: GraphView, t: ThreadId, i: int)
    requires
        0 <= i < g.log.len(),
        ends_thread(g.log, i),
        g.log[i].pos.thread == t,
    ensures
        g.log[i].kind is Block ==> unblocked(g, t).log == g.log.take(i) + g.log.skip(i + 1),
        !(g.log[i].kind is Block) ==> unblocked(g, t) == g,
        unblocked(g, t).tasks == g.tasks && unblocked(g, t).stamp == g.stamp,
{
    lemma_last_place(g.log, t, g.log.len());
    let n = last_place(g.log, t, g.log.len());
    if n - 1 > i {
        assert(g.log[n - 1].pos.thread == t);
    }
    assert(n - 1 == i);
    if g.log[i].kind is Block {
        assert(g.log.remove(i) =~= g.log.take(i) + g.log.skip(i + 1));
    }
}

/// The value that a list holds for a thread and a type: there is one at most.
pub open spec fn holds_one(list: Seq<(ThreadId, u64, Val)>) -> bool {
    forall|i: int, j: int|
        0 <= i < j < list.len() ==> !((#[trigger] list[i]).0 == (#[trigger] list[j]).0 && list[i].1
            == list[j].1)
}

/// What a thread publishes takes the place of what it published of the same type; what
/// others published, and what it published of other types, stays.
pub proof fn law_the_latest_value_is_published(
    list: Seq<(ThreadId, u64, Val)>,
    entry: (ThreadId, u64, Val),
)
    requires
        holds_one(list),
    ensures
        ({
            let after = with_published(list, entry, list.len());
            &&& holds_one(after)
            &&& after.contains(entry)
            &&& forall|x: (ThreadId, u64, Val)| #[trigger]
                after.contains(x) && x != entry ==> list.contains(x)
            &&& forall|x: (ThreadId, u64, Val)| #[trigger]
                list.contains(x) && !(x.0 == entry.0 && x.1 == entry.1) ==> after.contains(x)
        }),
{
    lemma_published(list, entry, list.len());
    let after = with_published(list, entry, list.len());
    let k = published_at(list, entry, list.len());
    if k > 0 {
        assert(after[k - 1] == entry);
        assert forall|x: (ThreadId, u64, Val)| #[trigger]
            after.contains(x) && x != entry implies list.contains(x) by {
            let p = choose|p: int| 0 <= p < after.len() && after[p] == x;
            assert(list[p] == x);
        }
        assert forall|x: (ThreadId, u64, Val)| #[trigger]
            list.contains(x) && !(x.0 == entry.0 && x.1 == entry.1) implies after.contains(x) by {
            let p = choose|p: int| 0 <= p < list.len() && list[p] == x;
            assert(after[p] == x);
        }
    } else {
        assert(after[list.len() as int] == entry);
        assert forall|x: (ThreadId, u64, Val)| #[trigger]
            after.contains(x) && x != entry implies list.contains(x) by {
            let p = choose|p: int| 0 <= p < after.len() && after[p] == x;
            assert(list[p] == x);
        }
        assert forall|x: (ThreadId, u64, Val)| #[trigger]
            list.contains(x) && !(x.0 == entry.0 && x.1 == entry.1) implies after.contains(x) by {
            let p = choose|p: int| 0 <= p < list.len() && list[p] == x;
            assert(after[p] == x);
        }
    }
}

/// The place, counted from one, of what the entry takes the place of; zero where it is new.
spec fn published_at(
    list: Seq<(ThreadId, u64, Val)>,
    entry: (ThreadId, u64, Val),
    n: nat,
) -> nat
    decreases n,
{
    if n == 0 {
        0
    } else if list[n - 1].0 == entry.0 && list[n - 1].1 == entry.1 {
        n
    } else {
        published_at(list, entry, (n - 1) as nat)
    }
}

proof fn lemma_published(
    list: Seq<(ThreadId, u64, Val)>,
    entry: (ThreadId, u64, Val),
    n: nat,
)
    requires
        n <= list.len(),
    ensures
        ({
            let k = published_at(list, entry, n);
            &&& k <= n
            &&& k > 0 ==> with_published(list, entry, n) == list.update(k - 1, entry)
                && list[k - 1].0 == entry.0 && list[k - 1].1 == entry.1
            &&& k == 0 ==> with_published(list, entry, n) == list.push(entry)
            &&& forall|i: int|
                k <= i < n ==> !((#[trigger] list[i]).0 == entry.0 && list[i].1 == entry.1)
        }),
    decreases n,
{
    if n > 0 {
        lemma_published(list, entry, (n - 1) as nat);
    }
}

/// Whether `rank` tells of each event a number above those of the events just before it.
pub open spec fn is_rank(log: Seq<LabelView>, rank: spec_fn(Event) -> nat) -> bool {
    forall|x: Event, y: Event| #[trigger] is_just_before(log, x, y) ==> rank(x) < rank(y)
}

proof fn lemma_wanted_before(log: Seq<LabelView>, pos: Option<Event>, i: int, x: Event)
    requires
        log_wf(log),
        0 <= i < log.len(),
        forall|t: ThreadId| #[trigger] thread_size(log, t) <= u32::MAX,
        wanted(log, pos, log[i].pos),
        is_just_before(log, x, log[i].pos),
    ensures
        wanted(log, pos, x),
{
    lemma_causes(log, i, x);
    lemma_index_of(log, i);
    if let Some(e) = pos {
        assert forall|clock: Map<ThreadId, u32>| #[trigger]
            closed_clock(log, clock) && covers_all(clock, seq![e]) implies covers(clock, x) by {
            assert(covers(clock, log[i].pos));
        }
    }
}

proof fn lemma_in_order(
    log: Seq<LabelView>,
    pos: Option<Event>,
    order: Seq<Event>,
    rank: spec_fn(Event) -> nat,
    i: int,
)
    requires
        log_wf(log),
        forall|t: ThreadId| #[trigger] thread_size(log, t) <= u32::MAX,
        is_rank(log, rank),
        exhausted(log, pos, order),
        0 <= i < log.len(),
        wanted(log, pos, log[i].pos),
    ensures
        order.contains(log[i].pos),
    decreases rank(log[i].pos),
{
    let e = log[i].pos;
    lemma_index_of(log, i);
    assert forall|x: Event| #[trigger] is_just_before(log, x, e) implies order.contains(x) by {
        lemma_wanted_before(log, pos, i, x);
        let k = index_of(log, x);
        assert(log[k].pos == x);
        lemma_in_order(log, pos, order, rank, k);
    }
    if e.index > 0 {
        assert(in_log(log, previous(e)));
        assert(is_just_before(log, previous(e), e));
    }
    assert forall|c: Event| #[trigger] is_cause(log, log[i], c) implies order.contains(c) by {
        lemma_causes(log, i, c);
        assert(is_just_before(log, c, e));
    }
    assert(can_run(log, log[i], order));
}

/// An order in which the events of a graph without cycles run holds exactly the events that
/// are wanted, each once and behind all that are just before it.
pub proof fn law_orders_hold_every_event_once(
    log: Seq<LabelView>,
    pos: Option<Event>,
    order: Seq<Event>,
    rank: spec_fn(Event) -> nat,
)
    requires
        log_wf(log),
        forall|t: ThreadId| #[trigger] thread_size(log, t) <= u32::MAX,
        is_rank(log, rank),
        runs(log, pos, order),
        exhausted(log, pos, order),
    ensures
        order.no_duplicates(),
        forall|i: int|
            0 <= i < log.len() ==> (order.contains((#[trigger] log[i]).pos) <==> (match pos {
                Some(e) => comes_before(log, seq![e], log[i].pos),
                None => true,
            })),
        forall|k: int| 0 <= k < order.len() ==> in_log(log, #[trigger] order[k]),
        forall|j: int, x: Event|
            0 <= j < order.len() && is_just_before(log, x, #[trigger] order[j])
                ==> #[trigger] order.take(j).contains(x),
{
    assert forall|k: int| 0 <= k < order.len() implies in_log(log, #[trigger] order[k]) && wanted(
        log,
        pos,
        order[k],
    ) && !order.take(k).contains(order[k]) by {
        assert(fits(log, pos, order, k));
    }
    assert forall|i: int, j: int|
        0 <= i < order.len() && 0 <= j < order.len() && i != j implies order[i] != order[j] by {
        if i < j {
            assert(order.take(j)[i] == order[i]);
        } else {
            assert(order.take(i)[j] == order[j]);
        }
    }
    assert forall|i: int| 0 <= i < log.len() implies (order.contains((#[trigger] log[i]).pos)
        <==> wanted(log, pos, log[i].pos)) by {
        if wanted(log, pos, log[i].pos) {
            lemma_in_order(log, pos, order, rank, i);
        }
    }
    assert forall|j: int, x: Event|
        0 <= j < order.len() && is_just_before(
            log,
            x,
            #[trigger] order[j],
        ) implies #[trigger] order.take(j).contains(x) by {
        assert(fits(log, pos, order, j));
        let i = choose|i: int|
            0 <= i < log.len() && (#[trigger] log[i]).pos == order[j] && wanted(log, pos, order[j])
                && can_run(log, log[i], order.take(j)) && !order.take(j).contains(order[j]);
        lemma_causes(log, i, x);
        lemma_index_of(log, i);
        if !is_cause(log, log[i], x) {
            assert(x == previous(log[i].pos));
        }
    }
}

} // verus!
