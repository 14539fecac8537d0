//! Going from one execution to the next.

use crate::cons::{normalized, stamp_of, Consistency};
use crate::event::{Event, ThreadId};
use crate::event_label::{KindView, LabelKind};
use crate::exec_graph::{
    cut, frozen, in_log, index_of, label_at, lemma_cut, lemma_frozen, lemma_restricted,
    lemma_with_kind, restricted, with_kind, with_rf, with_rfs, ExecutionGraph, GraphView,
};
use crate::layout::{branched, bumped, rejoined, Layout};
use crate::loc::RecvPredicate;
use crate::must::visit::{as_rfs, forward_to};
use crate::must::{
    entry_ok, has_alternatives, lemma_revisit_ok, lemma_with_kind_ok, log_of, must_ok, sent_by,
    state_ok, with_graph, with_revisit, Must, MustState, MustView, StateView,
};
use crate::revisit::{
    pop_worklist, sends_of, PlacementView, Revisit, RevisitEnum, RevisitPlacement, RevisitQueue,
    RevisitView,
};
use vstd::prelude::*;

verus! {

/// What a receive or inbox did, with the events of `placement` read.
pub open spec fn with_placement(kind: KindView, placement: PlacementView) -> KindView {
    match placement {
        PlacementView::Default(e) => with_rf(kind, Some(e)),
        PlacementView::Inbox(es) => with_rfs(kind, as_rfs(normalized(es, es.len()))),
    }
}

/// What an event did, with the next of its alternatives taken.
pub open spec fn next_alternative(kind: KindView, placement: PlacementView) -> KindView {
    match kind {
        KindView::CToss { result } => KindView::CToss { result: !result },
        KindView::Choice { start, end, result } => KindView::Choice {
            start,
            end,
            result: bumped(result),
        },
        KindView::Sample { current, rest } => if rest.len() > 0 {
            KindView::Sample { current: rest[0], rest: rest.drop_first() }
        } else {
            kind
        },
        KindView::Send { loc, tag, val, monitors, lossy, dropped, model } => KindView::Send {
            loc,
            tag,
            val,
            monitors,
            lossy,
            dropped: true,
            model,
        },
        _ => with_placement(kind, placement),
    }
}

/// Whether an event has a further alternative after the next one.
pub open spec fn has_more(kind: KindView) -> bool {
    match kind {
        KindView::Choice { end, result, .. } => bumped(result) < end,
        KindView::Sample { rest, .. } => rest.len() > 1,
        _ => false,
    }
}

/// The event that every execution starts with.
pub open spec fn init_event() -> Event {
    Event { thread: ThreadId { id: 0 }, index: 0 }
}

/// The graph in which the event `pos` takes its next alternative.
pub open spec fn alternative_taken(g: GraphView, r: RevisitView) -> GraphView {
    with_kind(g, r.pos, next_alternative(label_at(g.log, r.pos).kind, r.rev))
}

/// The exploration after a forward revisit: the event takes its next alternative,
/// and what was recorded after it is gone.
pub open spec fn forwarded<P>(v: MustView<P>, r: RevisitView) -> MustView<P> {
    let here = label_at(log_of(v), r.pos);
    let taken = with_graph(v, alternative_taken(v.current.graph, r));
    let queued = if has_more(here.kind) {
        with_revisit(taken, here.stamp, forward_to(r.pos, init_event()))
    } else {
        taken
    };
    with_graph(queued, cut(queued.current.graph, here.stamp))
}

/// The graph after a backward revisit: what was recorded after the receive is gone
/// unless it comes before the sends; receives before the sends are final; the
/// receive reads the sends.
pub open spec fn revisited_graph(g: GraphView, r: RevisitView) -> GraphView {
    let sends = sends_of(r.rev);
    let kept = restricted(g, stamp_of(g.log, r.pos), sends);
    let h = frozen(kept, sends);
    with_kind(h, r.pos, with_placement(label_at(h.log, r.pos).kind, r.rev))
}

/// Whether the graph of a backward revisit goes to another worker.
pub open spec fn hands_off<P>(v: MustView<P>) -> bool {
    v.handoffs.len() < v.room
}

/// The exploration after a backward revisit. The state before it is kept.
pub open spec fn backwarded<P>(v: MustView<P>, r: RevisitView) -> MustView<P> {
    let g = revisited_graph(v.current.graph, r);
    MustView {
        states: v.states.push((v.current, v.layout)),
        current: StateView { graph: g, rqueue: Seq::empty() },
        layout: branched(v.layout),
        handoffs: if hands_off(v) {
            v.handoffs.push(g)
        } else {
            v.handoffs
        },
        ..v
    }
}

/// The exploration after it returned to the state kept last.
pub open spec fn popped<P>(v: MustView<P>) -> MustView<P> {
    MustView {
        states: v.states.drop_last(),
        current: v.states.last().0,
        layout: rejoined(v.layout, v.states.last().1),
        ..v
    }
}

/// The exploration without the revisit that is made next.
pub open spec fn dequeued<P>(v: MustView<P>) -> MustView<P> {
    MustView {
        current: StateView { rqueue: v.current.rqueue.drop_last(), ..v.current },
        ..v
    }
}

/// How much remains in the states kept.
pub open spec fn states_weight(states: Seq<(StateView, Layout)>) -> nat
    decreases states.len(),
{
    if states.len() == 0 {
        0
    } else {
        states_weight(states.drop_last()) + 2 * states.last().0.rqueue.len() + 1
    }
}

/// How much remains to be revisited.
pub open spec fn weight<P>(v: MustView<P>) -> nat {
    states_weight(v.states) + 2 * v.current.rqueue.len()
}

/// The exploration at the start of the next execution, and whether there is one.
pub open spec fn revisit_next<P>(v: MustView<P>) -> (MustView<P>, bool)
    decreases weight(v),
{
    if v.current.rqueue.len() == 0 {
        if v.states.len() == 0 {
            (v, false)
        } else {
            revisit_next(popped(v))
        }
    } else {
        let r = v.current.rqueue.last().1;
        let w = dequeued(v);
        if !r.backward {
            (forwarded(w, r), true)
        } else if hands_off(w) {
            proof {
                lemma_backward_weight(v);
            }
            revisit_next(backwarded(w, r))
        } else {
            (backwarded(w, r), true)
        }
    }
}

/// A backward revisit leaves less to be revisited.
pub proof fn lemma_backward_weight<P>(v: MustView<P>)
    requires
        v.current.rqueue.len() > 0,
    ensures
        weight(backwarded(dequeued(v), v.current.rqueue.last().1)) < weight(v),
{
    let w = dequeued(v);
    let b = backwarded(w, v.current.rqueue.last().1);
    assert(b.states.drop_last() =~= v.states);
    assert(b.states.last() == (w.current, w.layout));
}

/// Taking back to a stamp that no entry exceeds keeps the worklist in order.
proof fn lemma_cut_ok<P>(v: MustView<P>, stamp: usize)
    requires
        must_ok(v),
        stamp < usize::MAX,
        forall|k: int|
            0 <= k < v.current.rqueue.len() ==> (#[trigger] v.current.rqueue[k]).0 <= stamp,
    ensures
        must_ok(with_graph(v, cut(v.current.graph, stamp))),
{
    let g = v.current.graph;
    let h = cut(g, stamp);
    lemma_cut(g, stamp);
    assert forall|k: int| 0 <= k < v.current.rqueue.len() implies entry_ok(
        h.log,
        #[trigger] v.current.rqueue[k],
    ) && v.current.rqueue[k].0 < h.stamp by {
        let entry = v.current.rqueue[k];
        assert(entry_ok(g.log, entry));
        assert(in_log(h.log, entry.1.pos));
        if entry.1.backward {
            assert forall|i: int| 0 <= i < sends_of(entry.1.rev).len() implies sent_by(
                h.log,
                #[trigger] sends_of(entry.1.rev)[i],
                entry.0,
            ) by {
                let e = sends_of(entry.1.rev)[i];
                assert(sent_by(g.log, e, entry.0));
                assert(in_log(h.log, e));
            }
        }
    }
    let w = with_graph(v, h);
    assert(w.states == v.states);
}

/// What `dequeued` leaves is in order, and not newer than what it took.
pub proof fn lemma_dequeued_ok<P>(v: MustView<P>)
    requires
        must_ok(v),
        v.current.rqueue.len() > 0,
    ensures
        must_ok(dequeued(v)),
        entry_ok(log_of(v), v.current.rqueue.last()),
        v.current.rqueue.last().0 < v.current.graph.stamp,
        forall|k: int|
            0 <= k < dequeued(v).current.rqueue.len() ==> (
            #[trigger] dequeued(v).current.rqueue[k]).0 <= v.current.rqueue.last().0,
{
    let queue = v.current.rqueue;
    let w = dequeued(v);
    assert(entry_ok(log_of(v), queue[queue.len() - 1]));
    assert forall|k: int| 0 <= k < w.current.rqueue.len() implies #[trigger] w.current.rqueue[k]
        == queue[k] by {}
    assert forall|k: int| 0 <= k < w.current.rqueue.len() implies (
    #[trigger] w.current.rqueue[k]).0 <= queue.last().0 by {
        assert(queue[k].0 <= queue[queue.len() - 1].0);
    }
    assert(w.states == v.states);
}

/// The next alternative of an event has alternatives too.
proof fn lemma_alternative<P>(v: MustView<P>, r: RevisitView)
    requires
        must_ok(v),
        in_log(log_of(v), r.pos),
        has_alternatives(label_at(log_of(v), r.pos).kind),
    ensures
        must_ok(with_graph(v, alternative_taken(v.current.graph, r))),
        in_log(alternative_taken(v.current.graph, r).log, r.pos),
        has_alternatives(label_at(alternative_taken(v.current.graph, r).log, r.pos).kind),
        label_at(alternative_taken(v.current.graph, r).log, r.pos).stamp == label_at(
            log_of(v),
            r.pos,
        ).stamp,
        alternative_taken(v.current.graph, r).stamp == v.current.graph.stamp,
{
    let g = v.current.graph;
    let kind = label_at(g.log, r.pos).kind;
    let next = next_alternative(kind, r.rev);
    assert(has_alternatives(next));
    lemma_with_kind_ok(v, r.pos, next);
    lemma_with_kind(g, r.pos, next);
    let h = alternative_taken(g, r);
    assert(h.log == with_kind(g, r.pos, next).log);
    let w = with_graph(v, h);
    let u = with_graph(v, with_kind(g, r.pos, next));
    assert(must_ok(u));
    assert(w.states == u.states);
    assert(state_ok(w.current));
}

/// A backward revisit leads to a well-formed graph.
pub proof fn lemma_revisited_graph(g: GraphView, r: RevisitView)
    requires
        crate::exec_graph::graph_wf(g),
        in_log(g.log, r.pos),
    ensures
        crate::exec_graph::graph_wf(
            frozen(restricted(g, stamp_of(g.log, r.pos), sends_of(r.rev)), sends_of(r.rev)),
        ),
        in_log(
            frozen(restricted(g, stamp_of(g.log, r.pos), sends_of(r.rev)), sends_of(r.rev)).log,
            r.pos,
        ),
        crate::exec_graph::graph_wf(revisited_graph(g, r)),
{
    let sends = sends_of(r.rev);
    let kept = restricted(g, stamp_of(g.log, r.pos), sends);
    lemma_restricted(g, stamp_of(g.log, r.pos), sends);
    assert(in_log(kept.log, r.pos));
    let h = frozen(kept, sends);
    lemma_frozen(kept, sends);
    assert(in_log(h.log, r.pos));
    lemma_with_kind(h, r.pos, with_placement(label_at(h.log, r.pos).kind, r.rev));
}

impl<P: RecvPredicate> Must<P> {
    /// Makes the event of a revisit read what the revisit says.
    pub fn change_rf(&mut self, rev: &Revisit)
        requires
            old(self).current.graph.wf(),
            in_log(log_of(old(self)@), rev.pos),
        ensures
            final(self).current.graph.wf(),
            final(self)@ == with_graph(
                old(self)@,
                with_kind(
                    old(self)@.current.graph,
                    rev.pos,
                    with_placement(label_at(log_of(old(self)@), rev.pos).kind, rev.rev@),
                ),
            ),
    {
        let ghost before = self@;
        match &rev.rev {
            RevisitPlacement::Default(e) => {
                self.current.graph.change_rf(rev.pos, Some(*e));
            },
            RevisitPlacement::Inbox(es) => {
                let sorted = Consistency::normalize_event_set(es);
                let ghost set = sorted@;
                if sorted.len() == 0 {
                    self.current.graph.change_inbox_rfs(rev.pos, None);
                } else {
                    self.current.graph.change_inbox_rfs(rev.pos, Some(sorted));
                }
            },
        }
        assert(self@ =~= with_graph(
            before,
            with_kind(
                before.current.graph,
                rev.pos,
                with_placement(label_at(log_of(before), rev.pos).kind, rev.rev@),
            ),
        ));
    }

    /// Makes the event of a forward revisit take its next alternative.
    pub fn forward_revisit(&mut self, rev: &Revisit) -> (b: bool)
        requires
            old(self).wf(),
            in_log(log_of(old(self)@), rev.pos),
            has_alternatives(label_at(log_of(old(self)@), rev.pos).kind),
            forall|k: int|
                0 <= k < old(self)@.current.rqueue.len() ==> (
                #[trigger] old(self)@.current.rqueue[k]).0 <= label_at(
                    log_of(old(self)@),
                    rev.pos,
                ).stamp,
        ensures
            b,
            final(self).wf(),
            final(self)@ == forwarded(
                old(self)@,
                RevisitView { backward: false, pos: rev.pos, rev: rev.rev@ },
            ),
    {
        let ghost before = self@;
        let ghost r = RevisitView { backward: false, pos: rev.pos, rev: rev.rev@ };
        let ghost here = label_at(log_of(before), rev.pos);
        let pos = rev.pos;
        proof {
            lemma_alternative(before, r);
            let at = index_of(log_of(before), pos);
            assert(log_of(before)[at].pos == pos);
        }
        let stamp = self.current.graph.label(pos).stamp;
        let mut more = false;
        match &self.current.graph.label(pos).kind {
            LabelKind::CToss { result } => {
                let kind = LabelKind::CToss { result: !*result };
                self.current.graph.set_kind(pos, kind);
            },
            LabelKind::Choice { start, end, result } => {
                let next = crate::layout::bump(*result);
                more = next < *end;
                let kind = LabelKind::Choice { start: *start, end: *end, result: next };
                self.current.graph.set_kind(pos, kind);
            },
            LabelKind::Sample { current, rest } => {
                let mut left: Vec<u64> = rest.clone();
                assert(left@ =~= rest@);
                let ghost all = left@;
                if left.len() > 0 {
                    let first = left.remove(0);
                    assert(left@ =~= all.drop_first());
                    more = left.len() > 0;
                    let kind = LabelKind::Sample { current: first, rest: left };
                    self.current.graph.set_kind(pos, kind);
                } else {
                    let kind = LabelKind::Sample { current: *current, rest: left };
                    self.current.graph.set_kind(pos, kind);
                }
            },
            LabelKind::Send { loc, tag, val, monitors, lossy, dropped, model } => {
                let kind = LabelKind::Send {
                    loc: *loc,
                    tag: crate::event_label::copy_tag(tag),
                    val: *val,
                    monitors: crate::event_label::copy_threads(monitors),
                    lossy: *lossy,
                    dropped: true,
                    model: *model,
                };
                self.current.graph.set_kind(pos, kind);
            },
            _ => {
                self.change_rf(rev);
            },
        }
        assert(more == has_more(here.kind));
        assert(self@ =~= with_graph(before, alternative_taken(before.current.graph, r)));
        if more {
            proof {
                lemma_revisit_ok(self@, stamp, forward_to(pos, init_event()));
                crate::revisit::lemma_pushed(
                    before.current.rqueue,
                    stamp,
                    forward_to(pos, init_event()),
                );
            }
            self.push_revisit(stamp, RevisitEnum::new_forward(pos, Event::new_init()));
        }
        let ghost mid = self@;
        proof {
            assert forall|k: int| 0 <= k < mid.current.rqueue.len() implies (
            #[trigger] mid.current.rqueue[k]).0 <= stamp by {
                if more {
                    let x = mid.current.rqueue[k];
                    if x != (stamp, forward_to(pos, init_event())) {
                        assert(before.current.rqueue.contains(x));
                        let j = choose|j: int|
                            0 <= j < before.current.rqueue.len() && before.current.rqueue[j] == x;
                        assert(before.current.rqueue[j].0 <= stamp);
                    }
                }
            }
            lemma_cut_ok(mid, stamp);
        }
        self.current.graph.cut_to_stamp(stamp);
        assert(self@ =~= with_graph(mid, cut(mid.current.graph, stamp)));
        true
    }

    /// Makes the receives that come before the sends of a revisit final.
    pub fn mark_prefix_non_revisitable(&mut self, rev: &Revisit)
        requires
            old(self).current.graph.wf(),
        ensures
            final(self).current.graph.wf(),
            final(self)@ == with_graph(
                old(self)@,
                frozen(old(self)@.current.graph, sends_of(rev.rev@)),
            ),
    {
        let ghost before = self@;
        let sends = rev.sends();
        self.current.graph.freeze(&sends);
        assert(self@ =~= with_graph(before, frozen(before.current.graph, sends@)));
    }

    /// Keeps the current state, and goes on with `graph`.
    fn push_state(&mut self, graph: ExecutionGraph)
        ensures
            final(self)@ == (MustView {
                states: old(self)@.states.push((old(self)@.current, old(self)@.layout)),
                current: StateView { graph: graph@, rqueue: Seq::empty() },
                layout: branched(old(self)@.layout),
                ..old(self)@
            }),
    {
        let ghost before = self@;
        let mut state = MustState { graph, rqueue: RevisitQueue::new() };
        std::mem::swap(&mut self.current, &mut state);
        self.states.push((state, self.layout));
        self.layout = self.layout.branch();
        assert(self@ =~= MustView {
            states: before.states.push((before.current, before.layout)),
            current: StateView { graph: graph@, rqueue: Seq::empty() },
            layout: branched(before.layout),
            ..before
        });
    }

    /// Returns to the state kept last, if there is one.
    pub fn try_pop_state(&mut self) -> (b: bool)
        requires
            old(self).wf(),
        ensures
            final(self).wf(),
            b == (old(self)@.states.len() > 0),
            b ==> final(self)@ == popped(old(self)@),
            !b ==> final(self)@ == old(self)@,
    {
        let ghost before = self@;
        match self.states.pop() {
            Some(entry) => {
                self.current = entry.0;
                self.layout = self.layout.rejoin(entry.1);
                proof {
                    assert(before.states.last() == (entry.0@, entry.1));
                    assert(self@ =~= popped(before));
                    assert(state_ok(before.states[before.states.len() - 1].0));
                    assert forall|i: int| 0 <= i < self@.states.len() implies state_ok(
                        (#[trigger] self@.states[i]).0,
                    ) by {
                        assert(before.states[i] == self@.states[i]);
                    }
                }
                true
            },
            None => false,
        }
    }

    /// Makes an earlier receive read a newer send. Returns false where the graph
    /// goes to another worker.
    pub fn backward_revisit(&mut self, rev: &Revisit) -> (b: bool)
        requires
            old(self).wf(),
            in_log(log_of(old(self)@), rev.pos),
        ensures
            final(self).wf(),
            final(self)@ == backwarded(
                old(self)@,
                RevisitView { backward: true, pos: rev.pos, rev: rev.rev@ },
            ),
            b == !hands_off(old(self)@),
    {
        let ghost before = self@;
        let ghost r = RevisitView { backward: true, pos: rev.pos, rev: rev.rev@ };
        proof {
            lemma_revisited_graph(before.current.graph, r);
        }
        let stamp = self.current.graph.label(rev.pos).stamp;
        let sends = rev.sends();
        let graph = self.current.graph.copy_for_revisit(stamp, &sends);
        self.push_state(graph);
        self.mark_prefix_non_revisitable(rev);
        self.change_rf(rev);
        let ghost mid = self@;
        proof {
            assert(mid.current.graph == revisited_graph(before.current.graph, r));
            assert forall|i: int| 0 <= i < mid.states.len() implies state_ok(
                (#[trigger] mid.states[i]).0,
            ) by {
                if i < before.states.len() {
                    assert(mid.states[i] == before.states[i]);
                }
            }
        }
        if self.handoffs.len() < self.room {
            let copy = self.current.graph.copy();
            self.handoffs.push(copy);
            assert(self@ =~= backwarded(before, r));
            return false;
        }
        assert(self@ =~= backwarded(before, r));
        true
    }

    /// Goes to the next execution; returns false where there is none.
    pub fn try_revisit(&mut self) -> (b: bool)
        requires
            old(self).wf(),
        ensures
            final(self).wf(),
            (final(self)@, b) == revisit_next(old(self)@),
    {
        let ghost start = self@;
        loop
            invariant
                self.wf(),
                start == old(self)@,
                revisit_next(self@) == revisit_next(start),
            decreases weight(self@),
        {
            let ghost before = self@;
            if self.current.rqueue.is_empty() {
                if self.try_pop_state() {
                    continue ;
                }
                return false;
            }
            proof {
                lemma_dequeued_ok(before);
                lemma_backward_weight(before);
            }
            let rev = pop_worklist(&mut self.current.rqueue);
            assert(self@ =~= dequeued(before));
            let done = match &rev {
                RevisitEnum::ForwardRevisit(r) => self.forward_revisit(r),
                RevisitEnum::BackwardRevisit(r) => self.backward_revisit(r),
            };
            if done {
                return true;
            }
        }
    }
}

} // verus!
