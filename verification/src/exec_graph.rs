//! Execution graphs: what the threads of one execution did, in the order in
//! which it was recorded.

use crate::event::{Event, TaskId, ThreadId};
use crate::event_label::{BlockType, KindView, Label, LabelKind, LabelView, Val};
use crate::vector_clock::{covers, VectorClock};
use vstd::prelude::*;

verus! {

/// Whether the event `e` is in the log.
pub open spec fn in_log(log: Seq<LabelView>, e: Event) -> bool {
    exists|i: int| 0 <= i < log.len() && (#[trigger] log[i]).pos == e
}

/// Where the event `e` is in the log.
pub open spec fn index_of(log: Seq<LabelView>, e: Event) -> int {
    choose|i: int| 0 <= i < log.len() && (#[trigger] log[i]).pos == e
}

/// The label of the event `e`.
pub open spec fn label_at(log: Seq<LabelView>, e: Event) -> LabelView {
    log[index_of(log, e)]
}

/// The event before `e` in its thread.
pub open spec fn previous(e: Event) -> Event {
    Event { thread: e.thread, index: (e.index - 1) as u32 }
}

/// The invariant of logs: stamps ascend, the events of each thread come in
/// their order and without gaps.
pub open spec fn log_wf(log: Seq<LabelView>) -> bool {
    &&& forall|i: int, j: int|
        0 <= i < j < log.len() ==> (#[trigger] log[i]).stamp < (#[trigger] log[j]).stamp
    &&& forall|i: int, j: int|
        0 <= i < j < log.len() && (#[trigger] log[i]).pos.thread == (
        #[trigger] log[j]).pos.thread ==> log[i].pos.index < log[j].pos.index
    &&& forall|i: int|
        0 <= i < log.len() && log[i].pos.index > 0 ==> in_log(
            log,
            #[trigger] previous(log[i].pos),
        )
}

/// In a well-formed log an event has one place.
pub proof fn lemma_index_of(log: Seq<LabelView>, i: int)
    requires
        log_wf(log),
        0 <= i < log.len(),
    ensures
        in_log(log, log[i].pos),
        index_of(log, log[i].pos) == i,
        label_at(log, log[i].pos) == log[i],
{
    let e = log[i].pos;
    let k = index_of(log, e);
    assert(0 <= k < log.len() && log[k].pos == e);
    if k < i {
        assert(log[k].pos.index < log[i].pos.index);
    }
    if i < k {
        assert(log[i].pos.index < log[k].pos.index);
    }
}

/// The last place among the first `n` of the log that belongs to thread `t`,
/// counted from one; zero where there is none.
pub open spec fn last_place(log: Seq<LabelView>, t: ThreadId, n: nat) -> nat
    decreases n,
{
    if n == 0 {
        0
    } else if log[n - 1].pos.thread == t {
        n
    } else {
        last_place(log, t, (n - 1) as nat)
    }
}

/// Whether thread `t` has an event in the log.
pub open spec fn has_thread(log: Seq<LabelView>, t: ThreadId) -> bool {
    last_place(log, t, log.len()) > 0
}

/// The label of the last event of thread `t`.
pub open spec fn last_label(log: Seq<LabelView>, t: ThreadId) -> LabelView {
    log[last_place(log, t, log.len()) - 1]
}

/// What `last_place` finds.
pub proof fn lemma_last_place(log: Seq<LabelView>, t: ThreadId, n: nat)
    requires
        n <= log.len(),
    ensures
        last_place(log, t, n) <= n,
        last_place(log, t, n) > 0 ==> log[last_place(log, t, n) - 1].pos.thread == t,
        forall|i: int| last_place(log, t, n) <= i < n ==> (#[trigger] log[i]).pos.thread != t,
    decreases n,
{
    if n > 0 {
        lemma_last_place(log, t, (n - 1) as nat);
    }
}

/// How many events thread `t` has.
pub open spec fn thread_size(log: Seq<LabelView>, t: ThreadId) -> nat {
    if has_thread(log, t) {
        last_label(log, t).pos.index as nat + 1
    } else {
        0
    }
}

/// The first event of thread `t`.
pub open spec fn first_event(t: ThreadId) -> Event {
    Event { thread: t, index: 0 }
}

/// A thread has exactly the events below its size.
pub proof fn lemma_thread_size(log: Seq<LabelView>, t: ThreadId, index: u32)
    requires
        log_wf(log),
    ensures
        in_log(log, Event { thread: t, index }) == (index < thread_size(log, t)),
{
    lemma_last_place(log, t, log.len());
    let e = Event { thread: t, index };
    if in_log(log, e) {
        let i = index_of(log, e);
        assert(log[i].pos == e);
        let l = last_place(log, t, log.len()) - 1;
        if i < l {
            assert(log[i].pos.index < log[l].pos.index);
        }
    }
    if index < thread_size(log, t) {
        let l = last_place(log, t, log.len()) - 1;
        lemma_below(log, l, index);
    }
}

/// Below an event of the log its thread has no gap.
pub proof fn lemma_below(log: Seq<LabelView>, i: int, index: u32)
    requires
        log_wf(log),
        0 <= i < log.len(),
        index <= log[i].pos.index,
    ensures
        in_log(log, Event { thread: log[i].pos.thread, index }),
    decreases log[i].pos.index,
{
    if index < log[i].pos.index {
        let p = previous(log[i].pos);
        let j = index_of(log, p);
        assert(log[j].pos == p);
        lemma_below(log, j, index);
    }
}

/// Whether `c` is, besides the previous event of its thread, an event that the
/// event labelled `l` comes after.
pub open spec fn is_cause(log: Seq<LabelView>, l: LabelView, c: Event) -> bool {
    in_log(log, c) && match l.kind {
        KindView::Recv { rf, .. } => rf == Some(c),
        KindView::Inbox { rfs, .. } => rfs matches Some(es) && es.contains(c),
        KindView::Begin { parent, .. } => parent == Some(c),
        KindView::TJoin { cid } => has_thread(log, cid) && last_label(log, cid).pos == c,
        _ => false,
    }
}

/// Whether with an event of the log `clock` holds all that the event comes after.
pub open spec fn closed_clock(log: Seq<LabelView>, clock: Map<ThreadId, u32>) -> bool {
    forall|i: int, c: Event|
        0 <= i < log.len() && covers(clock, log[i].pos) && #[trigger] is_cause(log, log[i], c)
            ==> covers(clock, c)
}

/// Whether `clock` holds all of `events`.
pub open spec fn covers_all(clock: Map<ThreadId, u32>, events: Seq<Event>) -> bool {
    forall|i: int| 0 <= i < events.len() ==> covers(clock, #[trigger] events[i])
}

/// Whether `x` comes before one of `seeds`, or is before one of them in its
/// thread: every clock that holds the seeds, and with an event all that the event
/// comes after, holds `x`.
pub open spec fn comes_before(log: Seq<LabelView>, seeds: Seq<Event>, x: Event) -> bool {
    forall|clock: Map<ThreadId, u32>| #[trigger]
        closed_clock(log, clock) && covers_all(clock, seeds) ==> covers(clock, x)
}

/// Whether a label is not newer than `stamp`, or comes before `seeds`.
pub open spec fn is_kept(
    log: Seq<LabelView>,
    stamp: usize,
    seeds: Seq<Event>,
    l: LabelView,
) -> bool {
    l.stamp <= stamp || comes_before(log, seeds, l.pos)
}

/// Whether a label stays when the execution is taken back to `stamp` while all
/// that comes before `seeds` is kept. A thread whose creation stays has begun.
pub open spec fn survives(
    log: Seq<LabelView>,
    stamp: usize,
    seeds: Seq<Event>,
    l: LabelView,
) -> bool {
    ||| is_kept(log, stamp, seeds, l)
    ||| l.kind matches KindView::Begin { parent: Some(p), .. } && l.pos.index == 0 && in_log(log, p)
        && is_kept(log, stamp, seeds, label_at(log, p))
}

/// The labels among the first `n` that stay.
pub open spec fn survivors(log: Seq<LabelView>, stamp: usize, seeds: Seq<Event>, n: nat) -> Seq<
    LabelView,
>
    decreases n,
{
    if n == 0 {
        Seq::empty()
    } else {
        let before = survivors(log, stamp, seeds, (n - 1) as nat);
        if survives(log, stamp, seeds, log[n - 1]) {
            before.push(log[n - 1])
        } else {
            before
        }
    }
}

/// Whether `x` is one of the first `n` labels, and stays.
pub open spec fn stays_from(
    log: Seq<LabelView>,
    stamp: usize,
    seeds: Seq<Event>,
    n: nat,
    x: LabelView,
) -> bool {
    exists|m: int| 0 <= m < n && x == #[trigger] log[m] && survives(log, stamp, seeds, x)
}

/// What the surviving labels are: those that stay, in their order.
pub proof fn lemma_survivors(log: Seq<LabelView>, stamp: usize, seeds: Seq<Event>, n: nat)
    requires
        log_wf(log),
        n <= log.len(),
    ensures
        survivors(log, stamp, seeds, n).len() <= n,
        forall|k: int|
            0 <= k < survivors(log, stamp, seeds, n).len() ==> stays_from(
                log,
                stamp,
                seeds,
                n,
                #[trigger] survivors(log, stamp, seeds, n)[k],
            ),
        forall|m: int|
            0 <= m < n && survives(log, stamp, seeds, #[trigger] log[m]) ==> survivors(
                log,
                stamp,
                seeds,
                n,
            ).contains(log[m]),
        forall|i: int, j: int|
            0 <= i < j < survivors(log, stamp, seeds, n).len() ==> (#[trigger] survivors(
                log,
                stamp,
                seeds,
                n,
            )[i]).stamp < (#[trigger] survivors(log, stamp, seeds, n)[j]).stamp,
    decreases n,
{
    if n > 0 {
        let m = (n - 1) as nat;
        lemma_survivors(log, stamp, seeds, m);
        let before = survivors(log, stamp, seeds, m);
        let after = survivors(log, stamp, seeds, n);
        if survives(log, stamp, seeds, log[n - 1]) {
            assert forall|k: int| 0 <= k < after.len() implies stays_from(
                log,
                stamp,
                seeds,
                n,
                #[trigger] after[k],
            ) by {
                if k < before.len() {
                    assert(after[k] == before[k]);
                    assert(stays_from(log, stamp, seeds, m, before[k]));
                } else {
                    assert(after[k] == log[n - 1]);
                }
            }
            assert forall|p: int|
                0 <= p < n && survives(log, stamp, seeds, #[trigger] log[p]) implies after.contains(
                log[p],
            ) by {
                if p < m {
                    assert(before.contains(log[p]));
                    let k = choose|k: int| 0 <= k < before.len() && before[k] == log[p];
                    assert(after[k] == log[p]);
                } else {
                    assert(after[before.len() as int] == log[p]);
                }
            }
            assert forall|i: int, j: int| 0 <= i < j < after.len() implies (
            #[trigger] after[i]).stamp < (#[trigger] after[j]).stamp by {
                if j == before.len() {
                    let p = choose|p: int| 0 <= p < m && before[i] == #[trigger] log[p];
                    assert(before[i] == after[i]);
                    assert(log[p].stamp < log[n - 1].stamp);
                } else {
                    assert(before[i] == after[i]);
                    assert(before[j] == after[j]);
                }
            }
        } else {
            assert forall|k: int| 0 <= k < after.len() implies stays_from(
                log,
                stamp,
                seeds,
                n,
                #[trigger] after[k],
            ) by {
                assert(after[k] == before[k]);
                assert(stays_from(log, stamp, seeds, m, before[k]));
            }
        }
    }
}

/// What survives is well formed.
pub proof fn lemma_survivors_wf(log: Seq<LabelView>, stamp: usize, seeds: Seq<Event>)
    requires
        log_wf(log),
    ensures
        log_wf(survivors(log, stamp, seeds, log.len())),
{
    let s = survivors(log, stamp, seeds, log.len());
    lemma_survivors(log, stamp, seeds, log.len());
    assert forall|i: int, j: int|
        0 <= i < j < s.len() && (#[trigger] s[i]).pos.thread == (
        #[trigger] s[j]).pos.thread implies s[i].pos.index < s[j].pos.index by {
        let a = choose|a: int| 0 <= a < log.len() && s[i] == #[trigger] log[a];
        let b = choose|b: int| 0 <= b < log.len() && s[j] == #[trigger] log[b];
        if b < a {
            assert(log[b].stamp < log[a].stamp);
        }
    }
    assert forall|i: int| 0 <= i < s.len() && (#[trigger] s[i]).pos.index > 0 implies in_log(
        s,
        previous(s[i].pos),
    ) by {
        let a = choose|a: int|
            0 <= a < log.len() && s[i] == #[trigger] log[a] && survives(log, stamp, seeds, log[a]);
        let p = previous(log[a].pos);
        let b = index_of(log, p);
        assert(log[b].pos == p);
        if a < b {
            assert(log[a].pos.index < log[b].pos.index);
        }
        assert(log[b].stamp < log[a].stamp);
        assert(survives(log, stamp, seeds, log[b])) by {
            if log[a].stamp > stamp {
                assert forall|clock: Map<ThreadId, u32>| #[trigger]
                    closed_clock(log, clock) && covers_all(clock, seeds) implies covers(
                    clock,
                    log[b].pos,
                ) by {
                    assert(covers(clock, log[a].pos));
                }
            }
        }
        assert(s.contains(log[b]));
        let k = choose|k: int| 0 <= k < s.len() && s[k] == log[b];
        assert(s[k].pos == p);
    }
}

/// How many of the first `n` labels `clock` does not hold.
pub open spec fn outside(log: Seq<LabelView>, clock: Map<ThreadId, u32>, n: nat) -> nat
    decreases n,
{
    if n == 0 {
        0
    } else {
        outside(log, clock, (n - 1) as nat) + if covers(clock, log[n - 1].pos) {
            0nat
        } else {
            1
        }
    }
}

/// A larger clock leaves no more labels out, and fewer if it holds a new one.
pub proof fn lemma_outside(
    log: Seq<LabelView>,
    small: Map<ThreadId, u32>,
    large: Map<ThreadId, u32>,
    k: int,
    n: nat,
)
    requires
        n <= log.len(),
        forall|e: Event| covers(small, e) ==> covers(large, e),
    ensures
        outside(log, large, n) <= outside(log, small, n),
        0 <= k < n && covers(large, log[k].pos) && !covers(small, log[k].pos) ==> outside(
            log,
            large,
            n,
        ) < outside(log, small, n),
    decreases n,
{
    if n > 0 {
        lemma_outside(log, small, large, k, (n - 1) as nat);
    }
}

/// The threads whose first event is among the first `n` labels.
pub open spec fn threads_upto(log: Seq<LabelView>, n: nat) -> Seq<ThreadId>
    decreases n,
{
    if n == 0 {
        Seq::empty()
    } else if log[n - 1].pos.index == 0 {
        threads_upto(log, (n - 1) as nat).push(log[n - 1].pos.thread)
    } else {
        threads_upto(log, (n - 1) as nat)
    }
}

/// Whether `l` is a send that was dropped.
pub open spec fn is_dropped(l: LabelView) -> bool {
    l.kind matches KindView::Send { dropped, .. } && dropped
}

/// How many of the first `n` labels are sends that were dropped.
pub open spec fn dropped_upto(log: Seq<LabelView>, n: nat) -> nat
    decreases n,
{
    if n == 0 {
        0
    } else {
        dropped_upto(log, (n - 1) as nat) + if is_dropped(log[n - 1]) {
            1nat
        } else {
            0nat
        }
    }
}

/// A graph as the contracts see it.
#[verifier::ext_equal]
pub struct GraphView {
    pub log: Seq<LabelView>,
    /// The stamp that the next label gets.
    pub stamp: usize,
    /// Which task runs which thread in the current execution.
    pub tasks: Seq<(TaskId, ThreadId)>,
}

/// The invariant of graphs.
pub open spec fn graph_wf(g: GraphView) -> bool {
    &&& log_wf(g.log)
    &&& forall|i: int| 0 <= i < g.log.len() ==> (#[trigger] g.log[i]).stamp < g.stamp
}

/// Stamps are distinct, so there are no more labels than stamps given.
pub proof fn lemma_log_len(g: GraphView, n: nat)
    requires
        graph_wf(g),
        n <= g.log.len(),
    ensures
        n > 0 ==> n <= g.log[n - 1].stamp + 1,
        n <= g.stamp,
    decreases n,
{
    if n > 0 {
        lemma_log_len(g, (n - 1) as nat);
        if n > 1 {
            assert(g.log[n - 2].stamp < g.log[n - 1].stamp);
        }
        assert(g.log[n - 1].stamp < g.stamp);
    }
}

/// Whether a label at `pos` may be added: it continues its thread, or replaces
/// the label that was added last.
pub open spec fn extends(log: Seq<LabelView>, pos: Event) -> bool {
    ||| log.len() > 0 && log.last().pos == pos
    ||| !in_log(log, pos) && (pos.index == 0 || in_log(log, previous(pos)))
}

/// The graph with a label at `pos`.
pub open spec fn with_label(g: GraphView, pos: Event, kind: KindView) -> GraphView {
    let base = if g.log.len() > 0 && g.log.last().pos == pos {
        g.log.drop_last()
    } else {
        g.log
    };
    GraphView {
        log: base.push(LabelView { pos, stamp: g.stamp, kind }),
        stamp: (g.stamp + 1) as usize,
        ..g
    }
}

/// The graph in which the event `pos` did something else.
pub open spec fn with_kind(g: GraphView, pos: Event, kind: KindView) -> GraphView {
    let i = index_of(g.log, pos);
    GraphView {
        log: g.log.update(i, LabelView { pos: g.log[i].pos, stamp: g.log[i].stamp, kind }),
        ..g
    }
}

/// Changing what an event did keeps the graph well formed, and the other labels.
pub proof fn lemma_with_kind(g: GraphView, pos: Event, kind: KindView)
    requires
        graph_wf(g),
        in_log(g.log, pos),
    ensures
        graph_wf(with_kind(g, pos, kind)),
        with_kind(g, pos, kind).log.len() == g.log.len(),
        forall|i: int|
            0 <= i < g.log.len() ==> (#[trigger] with_kind(g, pos, kind).log[i]).pos
                == g.log[i].pos,
        forall|e: Event|
            #![trigger in_log(with_kind(g, pos, kind).log, e)]
            #![trigger in_log(g.log, e)]
            in_log(with_kind(g, pos, kind).log, e) == in_log(g.log, e),
        forall|e: Event|
            #![trigger label_at(with_kind(g, pos, kind).log, e)]
            in_log(g.log, e) && e != pos ==> label_at(with_kind(g, pos, kind).log, e) == label_at(
                g.log,
                e,
            ),
        label_at(with_kind(g, pos, kind).log, pos) == (LabelView {
            pos,
            stamp: label_at(g.log, pos).stamp,
            kind,
        }),
{
    let h = with_kind(g, pos, kind);
    let k = index_of(g.log, pos);
    assert(g.log[k].pos == pos);
    assert forall|i: int| 0 <= i < g.log.len() implies (#[trigger] h.log[i]).pos == g.log[i].pos
        && h.log[i].stamp == g.log[i].stamp by {}
    assert forall|e: Event| in_log(h.log, e) == in_log(g.log, e) by {
        if in_log(h.log, e) {
            let i = index_of(h.log, e);
            assert(h.log[i].pos == e);
            assert(g.log[i].pos == e);
        }
        if in_log(g.log, e) {
            let i = index_of(g.log, e);
            assert(g.log[i].pos == e);
            assert(h.log[i].pos == e);
        }
    }
    assert forall|i: int| 0 <= i < h.log.len() && (#[trigger] h.log[i]).pos.index > 0 implies in_log(
        h.log,
        previous(h.log[i].pos),
    ) by {
        assert(g.log[i].pos == h.log[i].pos);
        assert(in_log(g.log, previous(g.log[i].pos)));
    }
    assert(log_wf(h.log));
    lemma_index_of(h.log, k);
    assert forall|e: Event| in_log(g.log, e) && e != pos implies #[trigger] label_at(h.log, e)
        == label_at(g.log, e) by {
        let i = index_of(g.log, e);
        assert(g.log[i].pos == e);
        lemma_index_of(g.log, i);
        assert(h.log[i].pos == e);
        lemma_index_of(h.log, i);
    }
}

/// Adding a label keeps the graph well formed.
pub proof fn lemma_with_label(g: GraphView, pos: Event, kind: KindView)
    requires
        graph_wf(g),
        extends(g.log, pos),
        g.stamp < usize::MAX,
    ensures
        graph_wf(with_label(g, pos, kind)),
        in_log(with_label(g, pos, kind).log, pos),
        label_at(with_label(g, pos, kind).log, pos) == (LabelView { pos, stamp: g.stamp, kind }),
        with_label(g, pos, kind).log.last().pos == pos,
        forall|e: Event|
            #![trigger in_log(with_label(g, pos, kind).log, e)]
            #![trigger in_log(g.log, e)]
            in_log(with_label(g, pos, kind).log, e) == (in_log(g.log, e) || e == pos),
        forall|e: Event|
            #![trigger label_at(with_label(g, pos, kind).log, e)]
            in_log(g.log, e) && e != pos ==> label_at(with_label(g, pos, kind).log, e) == label_at(
                g.log,
                e,
            ),
{
    let h = with_label(g, pos, kind);
    let replaced = g.log.len() > 0 && g.log.last().pos == pos;
    let n = h.log.len() - 1;
    assert(n == if replaced { g.log.len() - 1 } else { g.log.len() as int });
    assert(h.log[n] == (LabelView { pos, stamp: g.stamp, kind }));
    assert forall|i: int| 0 <= i < n implies #[trigger] h.log[i] == g.log[i] by {}
    assert forall|e: Event| in_log(h.log, e) == (in_log(g.log, e) || e == pos) by {
        if in_log(h.log, e) && e != pos {
            let i = index_of(h.log, e);
            assert(h.log[i].pos == e);
            assert(g.log[i].pos == e);
        }
        if in_log(g.log, e) && e != pos {
            let i = index_of(g.log, e);
            assert(g.log[i].pos == e);
            assert(h.log[i].pos == e);
        }
        if e == pos {
            assert(h.log[n].pos == e);
        }
    }
    assert forall|i: int, j: int|
        0 <= i < j < h.log.len() && (#[trigger] h.log[i]).pos.thread == (
        #[trigger] h.log[j]).pos.thread implies h.log[i].pos.index < h.log[j].pos.index by {
        if j == n {
            if replaced {
                assert(g.log[n].pos == pos);
                assert(g.log[i].pos.index < g.log[n].pos.index);
            } else {
                if g.log[i].pos.index >= pos.index {
                    lemma_below(g.log, i, pos.index);
                    assert(Event { thread: g.log[i].pos.thread, index: pos.index } == pos);
                }
            }
        } else {
            assert(g.log[i].pos.index < g.log[j].pos.index);
        }
    }
    assert forall|i: int| 0 <= i < h.log.len() && (#[trigger] h.log[i]).pos.index > 0 implies in_log(
        h.log,
        previous(h.log[i].pos),
    ) by {
        if i < n {
            assert(in_log(g.log, previous(g.log[i].pos)));
        } else if replaced {
            assert(g.log[n].pos == pos);
            assert(in_log(g.log, previous(g.log[n].pos)));
        }
    }
    assert(log_wf(h.log));
    lemma_index_of(h.log, n);
    assert forall|e: Event| in_log(g.log, e) && e != pos implies #[trigger] label_at(h.log, e)
        == label_at(g.log, e) by {
        let i = index_of(g.log, e);
        assert(g.log[i].pos == e);
        lemma_index_of(g.log, i);
        assert(i < n);
        assert(h.log[i].pos == e);
        lemma_index_of(h.log, i);
    }
}


/// The log without the label at place `i`, the last of its thread.
pub proof fn lemma_without(log: Seq<LabelView>, t: ThreadId)
    requires
        log_wf(log),
        has_thread(log, t),
    ensures
        log_wf(log.remove(last_place(log, t, log.len()) - 1)),
{
    lemma_last_place(log, t, log.len());
    let k = last_place(log, t, log.len()) - 1;
    let h = log.remove(k);
    let f = |i: int| if i < k { i } else { i + 1 };
    assert forall|i: int| 0 <= i < h.len() implies #[trigger] h[i] == log[f(i)] by {}
    assert forall|i: int| 0 <= i < h.len() && (#[trigger] h[i]).pos.index > 0 implies in_log(
        h,
        previous(h[i].pos),
    ) by {
        let p = previous(log[f(i)].pos);
        assert(in_log(log, p));
        let j = index_of(log, p);
        assert(log[j].pos == p);
        if j == k {
            if f(i) < k {
                assert(log[f(i)].pos.index < log[k].pos.index);
            }
        }
        if j < k {
            assert(h[j].pos == p);
        } else {
            assert(h[j - 1].pos == p);
        }
    }
}

/// A prefix of a well-formed log is well formed.
pub proof fn lemma_prefix(log: Seq<LabelView>, n: int)
    requires
        log_wf(log),
        0 <= n <= log.len(),
    ensures
        log_wf(log.take(n)),
{
    let h = log.take(n);
    assert forall|i: int| 0 <= i < h.len() && (#[trigger] h[i]).pos.index > 0 implies in_log(
        h,
        previous(h[i].pos),
    ) by {
        let p = previous(log[i].pos);
        assert(in_log(log, p));
        let j = index_of(log, p);
        assert(log[j].pos == p);
        if i < j {
            assert(log[i].pos.index < log[j].pos.index);
        }
        assert(h[j].pos == p);
    }
}

/// How many of the first `n` labels have a stamp of at most `stamp`, where
/// stamps ascend.
pub open spec fn places_upto(log: Seq<LabelView>, stamp: usize, n: nat) -> nat
    decreases n,
{
    if n == 0 {
        0
    } else if log[n - 1].stamp <= stamp {
        n
    } else {
        places_upto(log, stamp, (n - 1) as nat)
    }
}

/// The graph taken back to `stamp`.
pub open spec fn cut(g: GraphView, stamp: usize) -> GraphView {
    GraphView {
        log: g.log.take(places_upto(g.log, stamp, g.log.len()) as int),
        stamp: (stamp + 1) as usize,
        ..g
    }
}

/// The graph that a revisit to `stamp` keeps when all before `seeds` stays.
pub open spec fn restricted(g: GraphView, stamp: usize, seeds: Seq<Event>) -> GraphView {
    GraphView { log: survivors(g.log, stamp, seeds, g.log.len()), ..g }
}

/// What an event did, made final.
pub open spec fn final_kind(kind: KindView) -> KindView {
    match kind {
        KindView::Recv { loc, blocking, rf, revisitable } => KindView::Recv {
            loc,
            blocking,
            rf,
            revisitable: false,
        },
        KindView::Inbox { loc, min, max, rfs, revisitable } => KindView::Inbox {
            loc,
            min,
            max,
            rfs,
            revisitable: false,
        },
        _ => kind,
    }
}

/// The graph in which the receives that come before `seeds` are final.
pub open spec fn frozen(g: GraphView, seeds: Seq<Event>) -> GraphView {
    GraphView {
        log: Seq::new(
            g.log.len(),
            |i: int|
                if comes_before(g.log, seeds, g.log[i].pos) {
                    LabelView {
                        pos: g.log[i].pos,
                        stamp: g.log[i].stamp,
                        kind: final_kind(g.log[i].kind),
                    }
                } else {
                    g.log[i]
                },
        ),
        ..g
    }
}

/// Making receives final keeps the graph well formed, and every event.
pub proof fn lemma_frozen(g: GraphView, seeds: Seq<Event>)
    requires
        graph_wf(g),
    ensures
        graph_wf(frozen(g, seeds)),
        forall|e: Event| #[trigger] in_log(frozen(g, seeds).log, e) == in_log(g.log, e),
        forall|e: Event|
            in_log(g.log, e) ==> (#[trigger] label_at(frozen(g, seeds).log, e)).stamp == label_at(
                g.log,
                e,
            ).stamp,
{
    let h = frozen(g, seeds);
    assert forall|i: int| 0 <= i < g.log.len() implies (#[trigger] h.log[i]).pos == g.log[i].pos
        && h.log[i].stamp == g.log[i].stamp by {}
    assert forall|e: Event| #[trigger] in_log(h.log, e) == in_log(g.log, e) by {
        if in_log(h.log, e) {
            let i = index_of(h.log, e);
            assert(h.log[i].pos == e);
            assert(g.log[i].pos == e);
        }
        if in_log(g.log, e) {
            let i = index_of(g.log, e);
            assert(g.log[i].pos == e);
            assert(h.log[i].pos == e);
        }
    }
    assert forall|i: int| 0 <= i < h.log.len() && (#[trigger] h.log[i]).pos.index > 0 implies in_log(
        h.log,
        previous(h.log[i].pos),
    ) by {
        assert(g.log[i].pos == h.log[i].pos);
        assert(in_log(g.log, previous(g.log[i].pos)));
    }
    assert forall|e: Event| in_log(g.log, e) implies (#[trigger] label_at(h.log, e)).stamp
        == label_at(g.log, e).stamp by {
        let i = index_of(g.log, e);
        assert(g.log[i].pos == e);
        assert(h.log[i].pos == e);
        lemma_index_of(h.log, i);
        lemma_index_of(g.log, i);
    }
}

/// What `places_upto` finds.
pub proof fn lemma_places_upto(log: Seq<LabelView>, stamp: usize, n: nat)
    requires
        log_wf(log),
        n <= log.len(),
    ensures
        places_upto(log, stamp, n) <= n,
        forall|i: int| 0 <= i < places_upto(log, stamp, n) ==> (#[trigger] log[i]).stamp <= stamp,
        forall|i: int| places_upto(log, stamp, n) <= i < n ==> (#[trigger] log[i]).stamp > stamp,
    decreases n,
{
    if n > 0 {
        lemma_places_upto(log, stamp, (n - 1) as nat);
        if log[n - 1].stamp <= stamp {
            assert forall|i: int| 0 <= i < n implies (#[trigger] log[i]).stamp <= stamp by {
                if i < n - 1 {
                    assert(log[i].stamp < log[n - 1].stamp);
                }
            }
        }
    }
}

/// Taking a graph back keeps it well formed, and the events up to the stamp.
pub proof fn lemma_cut(g: GraphView, stamp: usize)
    requires
        graph_wf(g),
        stamp < usize::MAX,
    ensures
        graph_wf(cut(g, stamp)),
        forall|e: Event|
            in_log(g.log, e) && label_at(g.log, e).stamp <= stamp ==> #[trigger] in_log(
                cut(g, stamp).log,
                e,
            ) && label_at(cut(g, stamp).log, e) == label_at(g.log, e),
        forall|e: Event| #[trigger]
            in_log(cut(g, stamp).log, e) ==> in_log(g.log, e) && label_at(g.log, e).stamp <= stamp,
{
    let h = cut(g, stamp);
    let n = places_upto(g.log, stamp, g.log.len());
    lemma_places_upto(g.log, stamp, g.log.len());
    lemma_prefix(g.log, n as int);
    assert forall|i: int| 0 <= i < h.log.len() implies #[trigger] h.log[i] == g.log[i] by {}
    assert forall|e: Event|
        in_log(g.log, e) && label_at(g.log, e).stamp <= stamp implies #[trigger] in_log(h.log, e)
        && label_at(h.log, e) == label_at(g.log, e) by {
        let i = index_of(g.log, e);
        assert(g.log[i].pos == e);
        assert(i < n);
        assert(h.log[i].pos == e);
        lemma_index_of(h.log, i);
        lemma_index_of(g.log, i);
    }
    assert forall|e: Event| #[trigger] in_log(h.log, e) implies in_log(g.log, e) && label_at(
        g.log,
        e,
    ).stamp <= stamp by {
        let i = index_of(h.log, e);
        assert(h.log[i].pos == e);
        assert(g.log[i].pos == e);
        lemma_index_of(g.log, i);
    }
}

/// A revisit keeps the graph well formed, and the labels that stay.
pub proof fn lemma_restricted(g: GraphView, stamp: usize, seeds: Seq<Event>)
    requires
        graph_wf(g),
    ensures
        graph_wf(restricted(g, stamp, seeds)),
        forall|e: Event|
            in_log(g.log, e) && survives(g.log, stamp, seeds, label_at(g.log, e))
                ==> #[trigger] in_log(restricted(g, stamp, seeds).log, e) && label_at(
                restricted(g, stamp, seeds).log,
                e,
            ) == label_at(g.log, e),
        forall|e: Event| #[trigger]
            in_log(restricted(g, stamp, seeds).log, e) ==> in_log(g.log, e) && survives(
                g.log,
                stamp,
                seeds,
                label_at(g.log, e),
            ),
{
    let h = restricted(g, stamp, seeds);
    lemma_survivors(g.log, stamp, seeds, g.log.len());
    lemma_survivors_wf(g.log, stamp, seeds);
    assert forall|k: int| 0 <= k < h.log.len() implies (#[trigger] h.log[k]).stamp < h.stamp by {
        assert(stays_from(g.log, stamp, seeds, g.log.len(), h.log[k]));
    }
    assert forall|e: Event|
        in_log(g.log, e) && survives(g.log, stamp, seeds, label_at(g.log, e)) implies
        #[trigger] in_log(h.log, e) && label_at(h.log, e) == label_at(g.log, e) by {
        let i = index_of(g.log, e);
        assert(g.log[i].pos == e);
        assert(h.log.contains(g.log[i]));
        let k = choose|k: int| 0 <= k < h.log.len() && h.log[k] == g.log[i];
        assert(h.log[k].pos == e);
        lemma_index_of(h.log, k);
    }
    assert forall|e: Event| #[trigger] in_log(h.log, e) implies in_log(g.log, e) && survives(
        g.log,
        stamp,
        seeds,
        label_at(g.log, e),
    ) by {
        let k = index_of(h.log, e);
        assert(h.log[k].pos == e);
        assert(stays_from(g.log, stamp, seeds, g.log.len(), h.log[k]));
        let m = choose|m: int|
            0 <= m < g.log.len() && h.log[k] == #[trigger] g.log[m] && survives(
                g.log,
                stamp,
                seeds,
                h.log[k],
            );
        lemma_index_of(g.log, m);
    }
}

/// What an event did, with its value marked as not yet produced again.
pub open spec fn pending_kind(kind: KindView) -> KindView {
    match kind {
        KindView::Send { loc, tag, val, monitors, lossy, dropped, model } => KindView::Send {
            loc,
            tag,
            val: Val { pending: true, ..val },
            monitors,
            lossy,
            dropped,
            model,
        },
        KindView::End { result } => KindView::End { result: Val { pending: true, ..result } },
        _ => kind,
    }
}

/// The graph before it is executed again.
pub open spec fn ready(g: GraphView) -> GraphView {
    GraphView {
        log: Seq::new(
            g.log.len(),
            |i: int|
                LabelView {
                    pos: g.log[i].pos,
                    stamp: g.log[i].stamp,
                    kind: pending_kind(g.log[i].kind),
                },
        ),
        tasks: seq![(TaskId { id: 0 }, ThreadId { id: 0 })],
        ..g
    }
}

/// The thread that `task` runs, by the latest binding.
pub open spec fn thread_of(tasks: Seq<(TaskId, ThreadId)>, task: TaskId) -> Option<ThreadId>
    decreases tasks.len(),
{
    if tasks.len() == 0 {
        None
    } else if tasks.last().0 == task {
        Some(tasks.last().1)
    } else {
        thread_of(tasks.drop_last(), task)
    }
}

/// The task that runs `tid`, by the latest binding.
pub open spec fn task_of(tasks: Seq<(TaskId, ThreadId)>, tid: ThreadId) -> Option<TaskId>
    decreases tasks.len(),
{
    if tasks.len() == 0 {
        None
    } else if tasks.last().1 == tid {
        Some(tasks.last().0)
    } else {
        task_of(tasks.drop_last(), tid)
    }
}

/// The place, counted from one, of the last label among the first `n` that
/// created thread `t`; zero where there is none.
pub open spec fn creation_place(log: Seq<LabelView>, t: ThreadId, n: nat) -> nat
    decreases n,
{
    if n == 0 {
        0
    } else if log[n - 1].kind matches KindView::TCreate { cid, .. } && cid == t {
        n
    } else {
        creation_place(log, t, (n - 1) as nat)
    }
}

/// The positions of the spawns that lead from the main thread to `t`.
pub open spec fn origination(log: Seq<LabelView>, t: ThreadId) -> Seq<u32> {
    let n = creation_place(log, t, log.len());
    if n == 0 {
        Seq::empty()
    } else {
        log[n - 1].kind->origination
    }
}

/// Whether `t` was created as a daemon.
pub open spec fn is_daemon(log: Seq<LabelView>, t: ThreadId) -> bool {
    let n = creation_place(log, t, log.len());
    n > 0 && log[n - 1].kind->daemon
}

/// The largest thread number in use among the first `n` labels.
pub open spec fn largest_id(log: Seq<LabelView>, n: nat) -> u32
    decreases n,
{
    if n == 0 {
        0
    } else {
        let before = largest_id(log, (n - 1) as nat);
        match log[n - 1].kind {
            KindView::TCreate { cid, .. } => if cid.id > before {
                cid.id
            } else {
                before
            },
            _ => before,
        }
    }
}

/// The thread that a spawn with this origination creates among the first `n`
/// labels, if one of them is such a spawn.
pub open spec fn spawned_by(log: Seq<LabelView>, origin: Seq<u32>, n: nat) -> Option<ThreadId>
    decreases n,
{
    if n == 0 {
        None
    } else {
        match log[n - 1].kind {
            KindView::TCreate { cid, origination, .. } => if origination == origin {
                Some(cid)
            } else {
                spawned_by(log, origin, (n - 1) as nat)
            },
            _ => spawned_by(log, origin, (n - 1) as nat),
        }
    }
}

/// The value that the event `send` sent.
pub open spec fn sent_value(log: Seq<LabelView>, send: Event) -> Option<Val> {
    if in_log(log, send) {
        match label_at(log, send).kind {
            KindView::Send { val, .. } => Some(val),
            _ => None,
        }
    } else {
        None
    }
}

/// The value that the receive at `pos` got.
pub open spec fn received_value(log: Seq<LabelView>, pos: Event) -> Option<Val> {
    if in_log(log, pos) {
        match label_at(log, pos).kind {
            KindView::Recv { rf: Some(send), .. } => sent_value(log, send),
            _ => None,
        }
    } else {
        None
    }
}

/// The values that the inbox at `pos` got.
pub open spec fn received_values(log: Seq<LabelView>, pos: Event) -> Seq<Option<Val>> {
    if in_log(log, pos) {
        match label_at(log, pos).kind {
            KindView::Inbox { rfs: Some(sends), .. } => Seq::new(
                sends.len(),
                |i: int| sent_value(log, sends[i]),
            ),
            _ => Seq::empty(),
        }
    } else {
        Seq::empty()
    }
}

/// What a receive did, with another read event.
pub open spec fn with_rf(kind: KindView, new_rf: Option<Event>) -> KindView {
    match kind {
        KindView::Recv { loc, blocking, rf, revisitable } => KindView::Recv {
            loc,
            blocking,
            rf: new_rf,
            revisitable,
        },
        _ => kind,
    }
}

/// What an inbox did, with other read events.
pub open spec fn with_rfs(kind: KindView, new_rfs: Option<Seq<Event>>) -> KindView {
    match kind {
        KindView::Inbox { loc, min, max, rfs, revisitable } => KindView::Inbox {
            loc,
            min,
            max,
            rfs: new_rfs,
            revisitable,
        },
        _ => kind,
    }
}

/// Whether thread `t` has ended.
pub open spec fn thread_complete(log: Seq<LabelView>, t: ThreadId) -> bool {
    has_thread(log, t) && last_label(log, t).kind is End
}

/// What thread `t` waits for, if it is blocked.
pub open spec fn block_of(log: Seq<LabelView>, t: ThreadId) -> Option<BlockType> {
    if has_thread(log, t) {
        match last_label(log, t).kind {
            KindView::Block { btype } => Some(btype),
            _ => None,
        }
    } else {
        None
    }
}

fn copy_tasks(tasks: &Vec<(TaskId, ThreadId)>) -> (r: Vec<(TaskId, ThreadId)>)
    ensures
        r@ == tasks@,
{
    let mut r: Vec<(TaskId, ThreadId)> = Vec::new();
    let mut i: usize = 0;
    while i < tasks.len()
        invariant
            i <= tasks.len(),
            r@ == tasks@.take(i as int),
        decreases tasks.len() - i,
    {
        r.push((tasks[i].0, tasks[i].1));
        i += 1;
        assert(tasks@.take(i as int) =~= tasks@.take(i - 1).push(tasks@[i - 1]));
    }
    assert(tasks@.take(i as int) =~= tasks@);
    r
}

/// An execution graph.
pub struct ExecutionGraph {
    labels: Vec<Label>,
    stamp: usize,
    tasks: Vec<(TaskId, ThreadId)>,
}

impl View for ExecutionGraph {
    type V = GraphView;

    closed spec fn view(&self) -> GraphView {
        GraphView {
            log: Seq::new(self.labels@.len(), |i: int| self.labels@[i]@),
            stamp: self.stamp,
            tasks: self.tasks@,
        }
    }
}

impl ExecutionGraph {
    /// Holds of every graph that the methods below build.
    pub open spec fn wf(&self) -> bool {
        graph_wf(self@)
    }

    /// The graph in which the main thread has just begun.
    pub fn new() -> (g: Self)
        ensures
            g.wf(),
            g@ == (GraphView {
                log: seq![
                    LabelView {
                        pos: first_event(ThreadId { id: 0 }),
                        stamp: 0,
                        kind: KindView::Begin { parent: None, sym_id: None },
                    },
                ],
                stamp: 1,
                tasks: seq![(TaskId { id: 0 }, ThreadId { id: 0 })],
            }),
    {
        let mut labels: Vec<Label> = Vec::new();
        labels.push(
            Label {
                pos: Event::new_init(),
                stamp: 0,
                kind: LabelKind::Begin { parent: None, sym_id: None },
            },
        );
        let mut tasks: Vec<(TaskId, ThreadId)> = Vec::new();
        tasks.push((TaskId { id: 0 }, crate::event::main_thread_id()));
        let g = ExecutionGraph { labels, stamp: 1, tasks };
        assert(g@.log =~= seq![
            LabelView {
                pos: first_event(ThreadId { id: 0 }),
                stamp: 0,
                kind: KindView::Begin { parent: None, sym_id: None },
            },
        ]);
        assert(g@.tasks =~= seq![(TaskId { id: 0 }, ThreadId { id: 0 })]);
        g
    }

    /// Prepares the graph for being executed again.
    pub fn initialize_for_execution(&mut self)
        requires
            old(self).wf(),
        ensures
            final(self).wf(),
            final(self)@ == ready(old(self)@),
    {
        let ghost before = self@;
        let mut i: usize = 0;
        while i < self.labels.len()
            invariant
                i <= self.labels.len(),
                self@.log.len() == before.log.len(),
                self@.stamp == before.stamp,
                self@.tasks == before.tasks,
                forall|j: int| i <= j < self@.log.len() ==> self@.log[j] == before.log[j],
                forall|j: int| 0 <= j < i ==> self@.log[j] == ready(before).log[j],
            decreases self.labels.len() - i,
        {
            let ghost mid = self@;
            match &self.labels[i].kind {
                LabelKind::Send { loc, tag, val, monitors, lossy, dropped, model } => {
                    let kind = LabelKind::Send {
                        loc: *loc,
                        tag: crate::event_label::copy_tag(tag),
                        val: Val { pending: true, ..*val },
                        monitors: crate::event_label::copy_threads(monitors),
                        lossy: *lossy,
                        dropped: *dropped,
                        model: *model,
                    };
                    let label = Label {
                        pos: self.labels[i].pos,
                        stamp: self.labels[i].stamp,
                        kind,
                    };
                    self.labels.set(i, label);
                },
                LabelKind::End { result } => {
                    let kind = LabelKind::End { result: Val { pending: true, ..*result } };
                    let label = Label {
                        pos: self.labels[i].pos,
                        stamp: self.labels[i].stamp,
                        kind,
                    };
                    self.labels.set(i, label);
                },
                _ => {},
            }
            assert(self@.log[i as int] == ready(before).log[i as int]);
            assert forall|j: int| 0 <= j < self@.log.len() && j != i implies self@.log[j]
                == mid.log[j] by {}
            i += 1;
        }
        let mut tasks: Vec<(TaskId, ThreadId)> = Vec::new();
        tasks.push((TaskId { id: 0 }, crate::event::main_thread_id()));
        self.tasks = tasks;
        proof {
            assert(self@.tasks =~= ready(before).tasks);
            assert(self@.log =~= ready(before).log);
            lemma_ready(before);
        }
    }

    /// Where the event `pos` is in the log.
    fn find(&self, pos: Event) -> (r: Option<usize>)
        requires
            self.wf(),
        ensures
            r is Some == in_log(self@.log, pos),
            r matches Some(i) ==> i < self.labels@.len() && i == index_of(self@.log, pos)
                && self@.log[i as int].pos == pos && self.labels@[i as int]@ == label_at(
                self@.log,
                pos,
            ),
    {
        let mut i: usize = 0;
        while i < self.labels.len()
            invariant
                self.wf(),
                i <= self.labels.len(),
                forall|j: int| 0 <= j < i ==> (#[trigger] self@.log[j]).pos != pos,
            decreases self.labels.len() - i,
        {
            if self.labels[i].pos == pos {
                proof {
                    assert(self@.log[i as int].pos == pos);
                    lemma_index_of(self@.log, i as int);
                }
                return Some(i);
            }
            i += 1;
        }
        None
    }

    /// Whether the event `pos` is in the graph.
    pub fn contains(&self, pos: Event) -> (b: bool)
        requires
            self.wf(),
        ensures
            b == in_log(self@.log, pos),
    {
        self.find(pos).is_some()
    }

    /// How many labels the graph has.
    pub fn len(&self) -> (n: usize)
        ensures
            n == self@.log.len(),
    {
        self.labels.len()
    }

    /// The label at place `i` of the log.
    pub fn label_in(&self, i: usize) -> (l: &Label)
        requires
            i < self@.log.len(),
        ensures
            l@ == self@.log[i as int],
    {
        &self.labels[i]
    }

    /// The label of the event `pos`.
    pub fn label(&self, pos: Event) -> (l: &Label)
        requires
            self.wf(),
            in_log(self@.log, pos),
        ensures
            l@ == label_at(self@.log, pos),
    {
        match self.find(pos) {
            Some(i) => &self.labels[i],
            None => &self.labels[0],
        }
    }

    /// The label of the event `pos`, if it is in the graph.
    pub fn label_opt(&self, pos: Event) -> (r: Option<&Label>)
        requires
            self.wf(),
        ensures
            r is Some == in_log(self@.log, pos),
            r matches Some(l) ==> l@ == label_at(self@.log, pos),
    {
        match self.find(pos) {
            Some(i) => Some(&self.labels[i]),
            None => None,
        }
    }

    /// The stamp that the next label gets.
    pub fn stamp(&self) -> (s: usize)
        ensures
            s == self@.stamp,
    {
        self.stamp
    }

    /// Adds a label with the next stamp.
    pub fn add_label(&mut self, pos: Event, kind: LabelKind)
        requires
            old(self).wf(),
            extends(old(self)@.log, pos),
            old(self)@.stamp < usize::MAX,
        ensures
            final(self).wf(),
            final(self)@ == with_label(old(self)@, pos, kind@),
    {
        proof {
            lemma_with_label(self@, pos, kind@);
        }
        let ghost before = self@;
        let n = self.labels.len();
        if n > 0 && self.labels[n - 1].pos == pos {
            self.labels.pop();
        }
        self.labels.push(Label { pos, stamp: self.stamp, kind });
        self.stamp = self.stamp + 1;
        assert(self@ =~= with_label(before, pos, kind@)) by {
            assert(self@.log =~= with_label(before, pos, kind@).log);
        }
    }

    /// Changes what the event `pos` did.
    pub fn set_kind(&mut self, pos: Event, kind: LabelKind)
        requires
            old(self).wf(),
            in_log(old(self)@.log, pos),
        ensures
            final(self).wf(),
            final(self)@ == with_kind(old(self)@, pos, kind@),
    {
        let ghost before = self@;
        proof {
            lemma_with_kind(before, pos, kind@);
        }
        match self.find(pos) {
            Some(i) => {
                let label = Label { pos, stamp: self.labels[i].stamp, kind };
                self.labels.set(i, label);
                assert(self@.log =~= with_kind(before, pos, kind@).log);
            },
            None => {},
        }
    }

    /// The place of the last label of thread `t`.
    fn last_of(&self, t: ThreadId) -> (r: Option<usize>)
        ensures
            r is Some == has_thread(self@.log, t),
            r matches Some(i) ==> i < self.labels@.len() && i + 1 == last_place(
                self@.log,
                t,
                self@.log.len(),
            ),
    {
        let mut n: usize = self.labels.len();
        while n > 0
            invariant
                n <= self.labels.len(),
                last_place(self@.log, t, n as nat) == last_place(self@.log, t, self@.log.len()),
            decreases n,
        {
            assert(self@.log[n - 1] == self.labels@[n - 1]@);
            if self.labels[n - 1].pos.thread == t {
                return Some(n - 1);
            }
            n -= 1;
        }
        None
    }

    /// The label of the last event of thread `t`.
    pub fn thread_last(&self, t: ThreadId) -> (r: Option<&Label>)
        ensures
            r is Some == has_thread(self@.log, t),
            r matches Some(l) ==> l@ == last_label(self@.log, t),
    {
        match self.last_of(t) {
            Some(i) => Some(&self.labels[i]),
            None => None,
        }
    }

    /// How many events thread `t` has.
    pub fn thread_size(&self, t: ThreadId) -> (n: usize)
        requires
            self.wf(),
            thread_size(self@.log, t) <= usize::MAX,
        ensures
            n == thread_size(self@.log, t),
    {
        match self.thread_last(t) {
            Some(l) => l.pos.index as usize + 1,
            None => 0,
        }
    }

    /// Removes the last event of thread `t`.
    pub fn remove_last(&mut self, t: ThreadId)
        requires
            old(self).wf(),
            has_thread(old(self)@.log, t),
        ensures
            final(self).wf(),
            final(self)@ == (GraphView {
                log: old(self)@.log.remove(last_place(old(self)@.log, t, old(self)@.log.len()) - 1),
                ..old(self)@
            }),
    {
        let ghost before = self@;
        proof {
            lemma_without(before.log, t);
        }
        match self.last_of(t) {
            Some(i) => {
                let _ = self.labels.remove(i);
                assert(self@.log =~= before.log.remove(i as int));
            },
            None => {},
        }
    }

    /// Takes the graph back to `stamp`.
    pub fn cut_to_stamp(&mut self, stamp: usize)
        requires
            old(self).wf(),
            stamp < usize::MAX,
        ensures
            final(self).wf(),
            final(self)@ == cut(old(self)@, stamp),
    {
        let ghost before = self@;
        let mut n: usize = self.labels.len();
        while n > 0 && self.labels[n - 1].stamp > stamp
            invariant
                n <= self.labels.len(),
                self@ == before,
                places_upto(before.log, stamp, n as nat) == places_upto(
                    before.log,
                    stamp,
                    before.log.len(),
                ),
            decreases n,
        {
            assert(self@.log[n - 1] == self.labels@[n - 1]@);
            n -= 1;
        }
        proof {
            if n > 0 {
                assert(self@.log[n - 1] == self.labels@[n - 1]@);
            }
            assert(places_upto(before.log, stamp, n as nat) == n);
            lemma_prefix(before.log, n as int);
        }
        self.labels.truncate(n);
        self.stamp = stamp + 1;
        proof {
            assert(self@.log =~= before.log.take(n as int));
            assert forall|i: int| 0 <= i < self@.log.len() implies (#[trigger] self@.log[i]).stamp
                < self@.stamp by {
                if i < n - 1 {
                    assert(before.log[i].stamp < before.log[n - 1].stamp);
                }
            }
        }
    }
}

/// Preparing a graph keeps it well formed.
pub proof fn lemma_ready(g: GraphView)
    requires
        graph_wf(g),
    ensures
        graph_wf(ready(g)),
        forall|e: Event| #[trigger] in_log(ready(g).log, e) == in_log(g.log, e),
{
    let h = ready(g);
    assert forall|e: Event| #[trigger] in_log(h.log, e) == in_log(g.log, e) by {
        if in_log(h.log, e) {
            let i = index_of(h.log, e);
            assert(g.log[i].pos == e);
        }
        if in_log(g.log, e) {
            let i = index_of(g.log, e);
            assert(h.log[i].pos == e);
        }
    }
    assert forall|i: int| 0 <= i < h.log.len() && (#[trigger] h.log[i]).pos.index > 0 implies in_log(
        h.log,
        previous(h.log[i].pos),
    ) by {
        assert(g.log[i].pos == h.log[i].pos);
        assert(in_log(g.log, previous(g.log[i].pos)));
    }
}


impl ExecutionGraph {
    /// The events that the event at place `i` comes after, besides the previous
    /// one of its thread.
    pub fn causes(&self, i: usize) -> (r: Vec<Event>)
        requires
            self.wf(),
            i < self@.log.len(),
        ensures
            forall|c: Event| #[trigger] r@.contains(c) <==> is_cause(self@.log, self@.log[i as int], c),
    {
        let mut r: Vec<Event> = Vec::new();
        assert(self@.log[i as int] == self.labels@[i as int]@);
        let ghost l = self@.log[i as int];
        match &self.labels[i].kind {
            LabelKind::Recv { rf, .. } => {
                if let Some(c) = rf {
                    if self.contains(*c) {
                        r.push(*c);
                        assert(r@[0] == *c);
                    }
                }
            },
            LabelKind::Inbox { rfs, .. } => {
                if let Some(es) = rfs {
                    let mut j: usize = 0;
                    while j < es.len()
                        invariant
                            self.wf(),
                            j <= es.len(),
                            forall|c: Event| #[trigger]
                                r@.contains(c) <==> in_log(self@.log, c) && es@.take(
                                    j as int,
                                ).contains(c),
                        decreases es.len() - j,
                    {
                        let c = es[j];
                        let ghost before = r@;
                        let ghost seen = es@.take(j as int);
                        let ghost next = es@.take(j + 1);
                        if self.contains(c) {
                            r.push(c);
                            assert(r@[before.len() as int] == c);
                        }
                        assert forall|x: Event| #[trigger]
                            r@.contains(x) <==> in_log(self@.log, x) && next.contains(
                                x,
                            ) by {
                            if r@.contains(x) {
                                let k = choose|k: int| 0 <= k < r@.len() && r@[k] == x;
                                if k < before.len() {
                                    assert(before.contains(x));
                                    let m = choose|m: int|
                                        0 <= m < seen.len() && seen[m] == x;
                                    assert(next[m] == x);
                                } else {
                                    assert(next[j as int] == x);
                                }
                            }
                            if in_log(self@.log, x) && next.contains(x) {
                                let m = choose|m: int| 0 <= m < next.len() && next[m] == x;
                                if m < j {
                                    assert(seen[m] == x);
                                    assert(before.contains(x));
                                    let k = choose|k: int| 0 <= k < before.len() && before[k] == x;
                                    assert(r@[k] == x);
                                }
                            }
                        }
                        j += 1;
                    }
                    assert(es@.take(j as int) =~= es@);
                }
            },
            LabelKind::Begin { parent, .. } => {
                if let Some(c) = parent {
                    if self.contains(*c) {
                        r.push(*c);
                        assert(r@[0] == *c);
                    }
                }
            },
            LabelKind::TJoin { cid } => {
                if let Some(last) = self.thread_last(*cid) {
                    let c = last.pos;
                    proof {
                        lemma_last_place(self@.log, *cid, self@.log.len());
                        let k = last_place(self@.log, *cid, self@.log.len()) - 1;
                        assert(self@.log[k].pos == c);
                    }
                    r.push(c);
                    assert(r@[0] == c);
                }
            },
            _ => {},
        }
        r
    }

    /// All that comes before `seeds`, and the seeds themselves.
    pub fn porf(&self, seeds: &Vec<Event>) -> (clock: VectorClock)
        requires
            self.wf(),
        ensures
            clock.wf(),
            closed_clock(self@.log, clock@),
            covers_all(clock@, seeds@),
            forall|x: Event| #[trigger] covers(clock@, x) <==> comes_before(self@.log, seeds@, x),
    {
        let mut clock = VectorClock::new();
        let ghost log = self@.log;
        let mut k: usize = 0;
        while k < seeds.len()
            invariant
                k <= seeds.len(),
                clock.wf(),
                forall|i: int| 0 <= i < k ==> covers(clock@, #[trigger] seeds@[i]),
                forall|larger: Map<ThreadId, u32>, x: Event|
                    #![trigger covers_all(larger, seeds@), covers(clock@, x)]
                    covers_all(larger, seeds@) && covers(clock@, x) ==> covers(larger, x),
            decreases seeds.len() - k,
        {
            let ghost before = clock@;
            clock.update_or_set(seeds[k]);
            assert forall|larger: Map<ThreadId, u32>, x: Event|
                #![trigger covers_all(larger, seeds@), covers(clock@, x)]
                covers_all(larger, seeds@) && covers(clock@, x) implies covers(larger, x) by {
                assert(covers(larger, seeds@[k as int]));
                if covers(before, x) {
                }
            }
            k += 1;
        }
        let mut changed = true;
        while changed
            invariant
                self.wf(),
                log == self@.log,
                clock.wf(),
                covers_all(clock@, seeds@),
                forall|larger: Map<ThreadId, u32>, x: Event|
                    #![trigger closed_clock(log, larger), covers(clock@, x)]
                    closed_clock(log, larger) && covers_all(larger, seeds@) && covers(clock@, x)
                        ==> covers(larger, x),
                !changed ==> closed_clock(log, clock@),
            decreases outside(log, clock@, log.len()), (if changed { 1nat } else { 0 }),
        {
            changed = false;
            let ghost start = clock@;
            let mut i: usize = 0;
            while i < self.labels.len()
                invariant
                    self.wf(),
                    log == self@.log,
                    i <= self.labels.len(),
                    self.labels@.len() == log.len(),
                    clock.wf(),
                    covers_all(clock@, seeds@),
                    forall|larger: Map<ThreadId, u32>, x: Event|
                        #![trigger closed_clock(log, larger), covers(clock@, x)]
                        closed_clock(log, larger) && covers_all(larger, seeds@) && covers(clock@, x)
                            ==> covers(larger, x),
                    changed ==> outside(log, clock@, log.len()) < outside(log, start, log.len()),
                    !changed ==> clock@ == start,
                    !changed ==> forall|j: int, c: Event|
                        0 <= j < i && covers(clock@, log[j].pos) && #[trigger] is_cause(
                            log,
                            log[j],
                            c,
                        ) ==> covers(clock@, c),
                decreases self.labels.len() - i,
            {
                assert(log[i as int] == self.labels@[i as int]@);
                if clock.contains(self.labels[i].pos) {
                    let cs = self.causes(i);
                    let mut j: usize = 0;
                    while j < cs.len()
                        invariant
                            self.wf(),
                            log == self@.log,
                            i < log.len(),
                            j <= cs.len(),
                            clock.wf(),
                            covers(clock@, log[i as int].pos),
                            covers_all(clock@, seeds@),
                            forall|c: Event| #[trigger]
                                cs@.contains(c) <==> is_cause(log, log[i as int], c),
                            forall|larger: Map<ThreadId, u32>, x: Event|
                                #![trigger closed_clock(log, larger), covers(clock@, x)]
                                closed_clock(log, larger) && covers_all(larger, seeds@) && covers(
                                    clock@,
                                    x,
                                ) ==> covers(larger, x),
                            changed ==> outside(log, clock@, log.len()) < outside(
                                log,
                                start,
                                log.len(),
                            ),
                            !changed ==> clock@ == start,
                            !changed ==> forall|m: int, c: Event|
                                0 <= m < i && covers(clock@, log[m].pos) && #[trigger] is_cause(
                                    log,
                                    log[m],
                                    c,
                                ) ==> covers(clock@, c),
                            !changed ==> forall|m: int|
                                0 <= m < j ==> covers(clock@, #[trigger] cs@[m]),
                        decreases cs.len() - j,
                    {
                        let c = cs[j];
                        assert(cs@.contains(c));
                        assert(is_cause(log, log[i as int], c));
                        if !clock.contains(c) {
                            let ghost before = clock@;
                            clock.update_or_set(c);
                            proof {
                                assert forall|e: Event| covers(before, e) implies covers(
                                    clock@,
                                    e,
                                ) by {}
                                let p = index_of(log, c);
                                assert(log[p].pos == c);
                                lemma_outside(log, before, clock@, p, log.len());
                                assert forall|larger: Map<ThreadId, u32>, x: Event|
                                    #![trigger closed_clock(log, larger), covers(clock@, x)]
                                    closed_clock(log, larger) && covers_all(larger, seeds@)
                                        && covers(clock@, x) implies covers(larger, x) by {
                                    assert(covers(before, log[i as int].pos));
                                    assert(covers(larger, log[i as int].pos));
                                    assert(covers(larger, c));
                                    if covers(before, x) {
                                    }
                                }
                            }
                            changed = true;
                        }
                        j += 1;
                    }
                    assert(!changed ==> forall|c: Event| #[trigger]
                        is_cause(log, log[i as int], c) ==> covers(clock@, c)) by {
                        if !changed {
                            assert forall|c: Event| #[trigger]
                                is_cause(log, log[i as int], c) implies covers(clock@, c) by {
                                assert(cs@.contains(c));
                                let m = choose|m: int| 0 <= m < cs@.len() && cs@[m] == c;
                                assert(covers(clock@, cs@[m]));
                            }
                        }
                    }
                }
                i += 1;
            }
        }
        assert forall|x: Event| #[trigger] covers(clock@, x) <==> comes_before(log, seeds@, x) by {
            if covers(clock@, x) {
                assert(comes_before(log, seeds@, x));
            }
            if comes_before(log, seeds@, x) {
                assert(closed_clock(log, clock@));
            }
        }
        clock
    }

    /// The graph that remains when the execution is taken back to `stamp` and all
    /// that comes before `seeds` stays.
    pub fn copy_for_revisit(&self, stamp: usize, seeds: &Vec<Event>) -> (g: ExecutionGraph)
        requires
            self.wf(),
        ensures
            g.wf(),
            g@ == restricted(self@, stamp, seeds@),
    {
        let clock = self.porf(seeds);
        let mut labels: Vec<Label> = Vec::new();
        let mut i: usize = 0;
        while i < self.labels.len()
            invariant
                self.wf(),
                clock.wf(),
                forall|x: Event| #[trigger]
                    covers(clock@, x) <==> comes_before(self@.log, seeds@, x),
                i <= self.labels.len(),
                labels@.len() == survivors(self@.log, stamp, seeds@, i as nat).len(),
                forall|k: int|
                    0 <= k < labels@.len() ==> (#[trigger] labels@[k])@ == survivors(
                        self@.log,
                        stamp,
                        seeds@,
                        i as nat,
                    )[k],
            decreases self.labels.len() - i,
        {
            let ghost before = labels@;
            let l = &self.labels[i];
            assert(self@.log[i as int] == l@);
            let mut stays = l.stamp <= stamp || clock.contains(l.pos);
            assert(covers(clock@, l.pos) <==> comes_before(self@.log, seeds@, l@.pos));
            if !stays && l.pos.index == 0 {
                if let LabelKind::Begin { parent: Some(p), .. } = &l.kind {
                    if let Some(c) = self.label_opt(*p) {
                        assert(covers(clock@, *p) <==> comes_before(self@.log, seeds@, *p));
                        assert(label_at(self@.log, *p).pos == *p) by {
                            let k = index_of(self@.log, *p);
                            assert(self@.log[k].pos == *p);
                        }
                        stays = c.stamp <= stamp || clock.contains(*p);
                    }
                }
            }
            if stays {
                labels.push(l.clone());
            }
            i += 1;
        }
        let tasks = copy_tasks(&self.tasks);
        let g = ExecutionGraph { labels, stamp: self.stamp, tasks };
        proof {
            assert(g@.log =~= survivors(self@.log, stamp, seeds@, self@.log.len()));
            lemma_survivors(self@.log, stamp, seeds@, self@.log.len());
            lemma_survivors_wf(self@.log, stamp, seeds@);
            assert forall|k: int| 0 <= k < g@.log.len() implies (#[trigger] g@.log[k]).stamp
                < g@.stamp by {
                assert(stays_from(self@.log, stamp, seeds@, self@.log.len(), g@.log[k]));
            }
        }
        g
    }

    /// Makes the receives that come before `seeds` final.
    pub fn freeze(&mut self, seeds: &Vec<Event>)
        requires
            old(self).wf(),
        ensures
            final(self).wf(),
            final(self)@ == frozen(old(self)@, seeds@),
    {
        let ghost before = self@;
        let clock = self.porf(seeds);
        let mut i: usize = 0;
        while i < self.labels.len()
            invariant
                clock.wf(),
                forall|x: Event| #[trigger]
                    covers(clock@, x) <==> comes_before(before.log, seeds@, x),
                i <= self.labels.len(),
                self@.log.len() == before.log.len(),
                self@.stamp == before.stamp,
                self@.tasks == before.tasks,
                forall|j: int| i <= j < self@.log.len() ==> self@.log[j] == before.log[j],
                forall|j: int| 0 <= j < i ==> self@.log[j] == frozen(before, seeds@).log[j],
            decreases self.labels.len() - i,
        {
            let ghost mid = self@;
            assert(self@.log[i as int] == self.labels@[i as int]@);
            assert(self@.log[i as int] == before.log[i as int]);
            let pos = self.labels[i].pos;
            let stamp = self.labels[i].stamp;
            assert(covers(clock@, pos) <==> comes_before(before.log, seeds@, pos));
            if clock.contains(pos) {
                match &self.labels[i].kind {
                    LabelKind::Recv { loc, blocking, rf, revisitable } => {
                        let kind = LabelKind::Recv {
                            loc: *loc,
                            blocking: *blocking,
                            rf: *rf,
                            revisitable: false,
                        };
                        self.labels.set(i, Label { pos, stamp, kind });
                    },
                    LabelKind::Inbox { loc, min, max, rfs, revisitable } => {
                        let copied: Option<Vec<Event>> = match rfs {
                            Some(es) => Some(crate::event_label::copy_events(es)),
                            None => None,
                        };
                        let kind = LabelKind::Inbox {
                            loc: *loc,
                            min: *min,
                            max: *max,
                            rfs: copied,
                            revisitable: false,
                        };
                        self.labels.set(i, Label { pos, stamp, kind });
                    },
                    _ => {},
                }
            }
            assert(self@.log[i as int] == frozen(before, seeds@).log[i as int]);
            assert forall|j: int| 0 <= j < self@.log.len() && j != i implies self@.log[j]
                == mid.log[j] by {}
            assert forall|j: int| 0 <= j < i + 1 implies self@.log[j] == frozen(
                before,
                seeds@,
            ).log[j] by {
                if j < i {
                    assert(mid.log[j] == frozen(before, seeds@).log[j]);
                }
            }
            i += 1;
        }
        proof {
            assert(self@.log =~= frozen(before, seeds@).log);
            lemma_frozen(before, seeds@);
        }
    }

    /// The graph with its first `n` labels alone.
    pub fn prefix(&self, n: usize) -> (g: ExecutionGraph)
        requires
            self.wf(),
            n <= self@.log.len(),
        ensures
            g.wf(),
            g@ == (GraphView { log: self@.log.take(n as int), ..self@ }),
    {
        let mut labels: Vec<Label> = Vec::new();
        let mut i: usize = 0;
        while i < n
            invariant
                i <= n <= self.labels@.len(),
                labels@.len() == i,
                forall|k: int| 0 <= k < i ==> (#[trigger] labels@[k])@ == self.labels@[k]@,
            decreases n - i,
        {
            labels.push(self.labels[i].clone());
            i += 1;
        }
        let tasks = copy_tasks(&self.tasks);
        let g = ExecutionGraph { labels, stamp: self.stamp, tasks };
        proof {
            assert(g@.log =~= self@.log.take(n as int));
            lemma_prefix(self@.log, n as int);
        }
        g
    }

    /// A copy of the graph.
    pub fn copy(&self) -> (g: ExecutionGraph)
        ensures
            g@ == self@,
    {
        let mut labels: Vec<Label> = Vec::new();
        let mut i: usize = 0;
        while i < self.labels.len()
            invariant
                i <= self.labels.len(),
                labels@.len() == i,
                forall|k: int| 0 <= k < i ==> (#[trigger] labels@[k])@ == self.labels@[k]@,
            decreases self.labels.len() - i,
        {
            labels.push(self.labels[i].clone());
            i += 1;
        }
        let tasks = copy_tasks(&self.tasks);
        let g = ExecutionGraph { labels, stamp: self.stamp, tasks };
        proof {
            assert(g@.log =~= self@.log);
        }
        g
    }

    /// The threads of the graph, in the order in which they began.
    pub fn thread_ids(&self) -> (r: Vec<ThreadId>)
        ensures
            r@ == threads_upto(self@.log, self@.log.len()),
    {
        let mut r: Vec<ThreadId> = Vec::new();
        let mut i: usize = 0;
        while i < self.labels.len()
            invariant
                i <= self.labels.len(),
                r@ == threads_upto(self@.log, i as nat),
            decreases self.labels.len() - i,
        {
            assert(self@.log[i as int] == self.labels@[i as int]@);
            if self.labels[i].pos.index == 0 {
                r.push(self.labels[i].pos.thread);
            }
            i += 1;
        }
        r
    }

    pub fn is_thread_complete(&self, t: ThreadId) -> (b: bool)
        ensures
            b == thread_complete(self@.log, t),
    {
        match self.thread_last(t) {
            Some(l) => matches!(l.kind, LabelKind::End { .. }),
            None => false,
        }
    }

    /// What thread `t` waits for, if it is blocked.
    pub fn thread_block(&self, t: ThreadId) -> (b: Option<BlockType>)
        ensures
            b == block_of(self@.log, t),
    {
        match self.thread_last(t) {
            Some(l) => match &l.kind {
                LabelKind::Block { btype } => Some(*btype),
                _ => None,
            },
            None => None,
        }
    }

    /// The place of the label that created thread `t`.
    fn created_at(&self, t: ThreadId) -> (r: Option<usize>)
        ensures
            r is Some == (creation_place(self@.log, t, self@.log.len()) > 0),
            r matches Some(i) ==> i < self.labels@.len() && i + 1 == creation_place(
                self@.log,
                t,
                self@.log.len(),
            ) && self.labels@[i as int].kind is TCreate,
    {
        let mut n: usize = self.labels.len();
        while n > 0
            invariant
                n <= self.labels.len(),
                creation_place(self@.log, t, n as nat) == creation_place(
                    self@.log,
                    t,
                    self@.log.len(),
                ),
            decreases n,
        {
            assert(self@.log[n - 1] == self.labels@[n - 1]@);
            if let LabelKind::TCreate { cid, .. } = &self.labels[n - 1].kind {
                if *cid == t {
                    return Some(n - 1);
                }
            }
            n -= 1;
        }
        None
    }

    pub fn is_thread_daemon(&self, t: ThreadId) -> (b: bool)
        ensures
            b == is_daemon(self@.log, t),
    {
        match self.created_at(t) {
            Some(i) => {
                assert(self@.log[i as int] == self.labels@[i as int]@);
                match &self.labels[i].kind {
                    LabelKind::TCreate { daemon, .. } => *daemon,
                    _ => false,
                }
            },
            None => false,
        }
    }

    /// The positions of the spawns that lead from the main thread to `t`.
    pub fn origination_vec(&self, t: ThreadId) -> (r: Vec<u32>)
        ensures
            r@ == origination(self@.log, t),
    {
        match self.created_at(t) {
            Some(i) => {
                assert(self@.log[i as int] == self.labels@[i as int]@);
                match &self.labels[i].kind {
                    LabelKind::TCreate { origination, .. } => crate::event_label::copy_words(
                        origination,
                    ),
                    _ => Vec::new(),
                }
            },
            None => Vec::new(),
        }
    }

    /// The thread that the spawn with this origination creates: the same one as
    /// before, or one with a new number.
    pub fn tid_for_spawn(&self, origin: &Vec<u32>) -> (tid: ThreadId)
        requires
            largest_id(self@.log, self@.log.len()) < u32::MAX,
        ensures
            tid == next_thread(self@.log, origin@),
    {
        let mut n: usize = self.labels.len();
        while n > 0
            invariant
                n <= self.labels.len(),
                spawned_by(self@.log, origin@, n as nat) == spawned_by(
                    self@.log,
                    origin@,
                    self@.log.len(),
                ),
            decreases n,
        {
            assert(self@.log[n - 1] == self.labels@[n - 1]@);
            if let LabelKind::TCreate { cid, origination, .. } = &self.labels[n - 1].kind {
                if crate::loc::words_equal(origination, origin) {
                    return *cid;
                }
            }
            n -= 1;
        }
        let mut largest: u32 = 0;
        let mut i: usize = 0;
        while i < self.labels.len()
            invariant
                i <= self.labels.len(),
                largest == largest_id(self@.log, i as nat),
            decreases self.labels.len() - i,
        {
            assert(self@.log[i as int] == self.labels@[i as int]@);
            if let LabelKind::TCreate { cid, .. } = &self.labels[i].kind {
                if cid.id > largest {
                    largest = cid.id;
                }
            }
            i += 1;
        }
        ThreadId { id: largest + 1 }
    }

    /// Notes that `task` runs `tid`.
    pub fn set_task(&mut self, tid: ThreadId, task: TaskId)
        ensures
            final(self)@ == (GraphView {
                tasks: old(self)@.tasks.push((task, tid)),
                ..old(self)@
            }),
    {
        let ghost before = self@;
        self.tasks.push((task, tid));
        assert(self@.log =~= before.log);
    }

    /// The thread that `task` runs.
    pub fn to_thread_id(&self, task: TaskId) -> (r: Option<ThreadId>)
        ensures
            r == thread_of(self@.tasks, task),
    {
        let mut n: usize = self.tasks.len();
        assert(self.tasks@.take(n as int) =~= self.tasks@);
        while n > 0
            invariant
                n <= self.tasks.len(),
                self@.tasks == self.tasks@,
                thread_of(self@.tasks.take(n as int), task) == thread_of(self@.tasks, task),
            decreases n,
        {
            assert(self.tasks@.take(n as int).drop_last() =~= self.tasks@.take(n - 1));
            if self.tasks[n - 1].0 == task {
                return Some(self.tasks[n - 1].1);
            }
            n -= 1;
        }
        None
    }

    /// The task that runs `tid`.
    pub fn to_task_id(&self, tid: ThreadId) -> (r: Option<TaskId>)
        ensures
            r == task_of(self@.tasks, tid),
    {
        let mut n: usize = self.tasks.len();
        assert(self.tasks@.take(n as int) =~= self.tasks@);
        while n > 0
            invariant
                n <= self.tasks.len(),
                self@.tasks == self.tasks@,
                task_of(self@.tasks.take(n as int), tid) == task_of(self@.tasks, tid),
            decreases n,
        {
            assert(self.tasks@.take(n as int).drop_last() =~= self.tasks@.take(n - 1));
            if self.tasks[n - 1].1 == tid {
                return Some(self.tasks[n - 1].0);
            }
            n -= 1;
        }
        None
    }

    /// How many of the sends were dropped.
    pub fn dropped_sends(&self) -> (n: usize)
        ensures
            n == dropped_upto(self@.log, self@.log.len()),
    {
        let mut n: usize = 0;
        let mut i: usize = 0;
        while i < self.labels.len()
            invariant
                i <= self.labels.len(),
                n <= i,
                n == dropped_upto(self@.log, i as nat),
            decreases self.labels.len() - i,
        {
            assert(self@.log[i as int] == self.labels@[i as int]@);
            if let LabelKind::Send { dropped, .. } = &self.labels[i].kind {
                if *dropped {
                    n += 1;
                }
            }
            i += 1;
        }
        n
    }

    /// The value that the event `send` sent.
    pub fn value_sent(&self, send: Event) -> (v: Option<Val>)
        requires
            self.wf(),
        ensures
            v == sent_value(self@.log, send),
    {
        match self.label_opt(send) {
            Some(l) => match &l.kind {
                LabelKind::Send { val, .. } => Some(*val),
                _ => None,
            },
            None => None,
        }
    }

    /// The value that the receive at `pos` got.
    pub fn val_copy(&self, pos: Event) -> (v: Option<Val>)
        requires
            self.wf(),
        ensures
            v == received_value(self@.log, pos),
    {
        match self.label_opt(pos) {
            Some(l) => match &l.kind {
                LabelKind::Recv { rf, .. } => match rf {
                    Some(send) => self.value_sent(*send),
                    None => None,
                },
                _ => None,
            },
            None => None,
        }
    }

    /// The values that the inbox at `pos` got.
    pub fn vals_copy(&self, pos: Event) -> (r: Vec<Option<Val>>)
        requires
            self.wf(),
        ensures
            r@ == received_values(self@.log, pos),
    {
        let mut r: Vec<Option<Val>> = Vec::new();
        if let Some(l) = self.label_opt(pos) {
            if let LabelKind::Inbox { rfs, .. } = &l.kind {
                if let Some(sends) = rfs {
                    let mut i: usize = 0;
                    while i < sends.len()
                        invariant
                            self.wf(),
                            i <= sends.len(),
                            r@.len() == i,
                            forall|k: int|
                                0 <= k < i ==> r@[k] == sent_value(self@.log, sends@[k]),
                        decreases sends.len() - i,
                    {
                        r.push(self.value_sent(sends[i]));
                        i += 1;
                    }
                }
            }
        }
        assert(r@ =~= received_values(self@.log, pos));
        r
    }

    /// Makes the receive at `pos` read another event.
    pub fn change_rf(&mut self, pos: Event, new_rf: Option<Event>)
        requires
            old(self).wf(),
            in_log(old(self)@.log, pos),
        ensures
            final(self).wf(),
            final(self)@ == with_kind(
                old(self)@,
                pos,
                with_rf(label_at(old(self)@.log, pos).kind, new_rf),
            ),
    {
        let ghost before = self@;
        let kind = match &self.label(pos).kind {
            LabelKind::Recv { loc, blocking, rf, revisitable } => LabelKind::Recv {
                loc: *loc,
                blocking: *blocking,
                rf: new_rf,
                revisitable: *revisitable,
            },
            other => other.clone(),
        };
        self.set_kind(pos, kind);
    }

    /// Makes the inbox at `pos` read other events.
    pub fn change_inbox_rfs(&mut self, pos: Event, new_rfs: Option<Vec<Event>>)
        requires
            old(self).wf(),
            in_log(old(self)@.log, pos),
        ensures
            final(self).wf(),
            final(self)@ == with_kind(
                old(self)@,
                pos,
                with_rfs(
                    label_at(old(self)@.log, pos).kind,
                    crate::event_label::events_view(new_rfs),
                ),
            ),
    {
        let ghost before = self@;
        let kind = match &self.label(pos).kind {
            LabelKind::Inbox { loc, min, max, rfs, revisitable } => LabelKind::Inbox {
                loc: *loc,
                min: *min,
                max: *max,
                rfs: new_rfs,
                revisitable: *revisitable,
            },
            other => other.clone(),
        };
        self.set_kind(pos, kind);
    }
}

/// The thread that the spawn with this origination creates.
pub open spec fn next_thread(log: Seq<LabelView>, origin: Seq<u32>) -> ThreadId {
    match spawned_by(log, origin, log.len()) {
        Some(cid) => cid,
        None => ThreadId { id: (largest_id(log, log.len()) + 1) as u32 },
    }
}

} // verus!
