//! What a receive reads when it is recorded, and what it could read instead.

use crate::config::ExplorationMode;
use crate::cons::{
    canonical_set, inbox_choices, lemma_rfs, offers_of, ordered_sets, rfs_of, stamp_of,
};
use crate::event::{Event, ThreadId};
use crate::event_label::{
    copy_events, events_equal, events_view, BlockType, KindView, LabelKind, LabelView, Val,
};
use crate::exec_graph::{
    first_event, in_log, index_of, label_at, lemma_index_of, lemma_thread_size, lemma_with_kind,
    received_value, received_values, thread_size, with_kind, with_rf, with_rfs,
};
use crate::loc::RecvPredicate;
use crate::must::{
    added, has_alternatives, lemma_added_ok, lemma_revisit_ok, lemma_with_kind_ok, log_of, must_ok,
    recordable, with_graph, Must, MustView, StateView,
};
use crate::random::random_between;
use crate::revisit::{pushed, sets_view, upper_bound, PlacementView, RevisitEnum, RevisitView};
use vstd::prelude::*;

verus! {

/// The thread that `t` behaves like, if `t` was created as its double.
pub open spec fn sym_of(log: Seq<LabelView>, t: ThreadId) -> Option<ThreadId> {
    if in_log(log, first_event(t)) {
        match label_at(log, first_event(t)).kind {
            KindView::Begin { sym_id, .. } => sym_id,
            _ => None,
        }
    } else {
        None
    }
}

/// Whether two receives read different events. Two receives cannot read the same
/// send, so this holds unless both read nothing.
pub open spec fn reads_differ(a: KindView, b: KindView) -> bool {
    a matches KindView::Recv { rf, .. } && b matches KindView::Recv { rf: other, .. } && rf != other
}

/// Whether the two threads read different events at position `i`.
pub open spec fn differ_at(log: Seq<LabelView>, a: ThreadId, b: ThreadId, i: u32) -> bool {
    reads_differ(
        label_at(log, Event { thread: a, index: i }).kind,
        label_at(log, Event { thread: b, index: i }).kind,
    )
}

/// Whether up to `pos` its thread did what `sym` did at the same positions.
pub open spec fn prefix_symmetric(log: Seq<LabelView>, sym: ThreadId, pos: Event) -> bool {
    &&& thread_size(log, sym) > pos.index
    &&& forall|i: u32|
        1 <= i < pos.index ==> !(#[trigger] differ_at(log, pos.thread, sym, i))
}

/// Whether reading `rf` is like reading another of `rfs` that was sent earlier by
/// the double of its sender.
pub open spec fn is_symmetric_rf(log: Seq<LabelView>, rfs: Seq<Event>, rf: Event) -> bool {
    sym_of(log, rf.thread) matches Some(sym) && exists|i: int|
        0 <= i < rfs.len() && #[trigger] rfs[i] != rf && rfs[i].thread == sym && prefix_symmetric(
            log,
            sym,
            rf,
        ) && stamp_of(log, rfs[i]) < stamp_of(log, rf)
}

/// The first `n` of `rfs` without the symmetric ones.
pub open spec fn asymmetric_rfs(log: Seq<LabelView>, rfs: Seq<Event>, n: nat) -> Seq<Event>
    decreases n,
{
    if n == 0 {
        Seq::empty()
    } else if is_symmetric_rf(log, rfs, rfs[n - 1]) {
        asymmetric_rfs(log, rfs, (n - 1) as nat)
    } else {
        asymmetric_rfs(log, rfs, (n - 1) as nat).push(rfs[n - 1])
    }
}

/// What the receive at `pos` is offered.
pub open spec fn offered<P: RecvPredicate>(v: MustView<P>, pos: Event, loc: usize) -> Seq<Event> {
    let rfs = rfs_of(log_of(v), v.locs, loc, pos, v.monitors.contains(pos.thread));
    asymmetric_rfs(log_of(v), rfs, rfs.len())
}

/// The location index of the receive or inbox at `pos`.
pub open spec fn loc_at(log: Seq<LabelView>, pos: Event) -> usize {
    match label_at(log, pos).kind {
        KindView::Recv { loc, .. } => loc,
        KindView::Inbox { loc, .. } => loc,
        _ => 0,
    }
}

/// A revisit that makes `pos` read `rf`.
pub open spec fn forward_to(pos: Event, rf: Event) -> RevisitView {
    RevisitView { backward: false, pos, rev: PlacementView::Default(rf) }
}

/// The worklist with a revisit for each of `rfs[from..n]`.
pub open spec fn with_forwards(
    queue: Seq<(usize, RevisitView)>,
    stamp: usize,
    pos: Event,
    rfs: Seq<Event>,
    from: nat,
    n: nat,
) -> Seq<(usize, RevisitView)>
    decreases n,
{
    if n <= from {
        queue
    } else {
        pushed(
            with_forwards(queue, stamp, pos, rfs, from, (n - 1) as nat),
            stamp,
            forward_to(pos, rfs[n - 1]),
        )
    }
}

/// The exploration after the receive at `pos` has got what it reads. The rest of
/// what it could read is left for revisits; while the number of executions is
/// estimated, `pick` decides instead.
pub open spec fn visited<P: RecvPredicate>(
    v: MustView<P>,
    pos: Event,
    blocking: bool,
    pick: nat,
) -> MustView<P> {
    let g = v.current.graph;
    let here = label_at(g.log, pos);
    let rfs = offered(v, pos, loc_at(g.log, pos));
    let estimating = v.config.mode is Estimation;
    if !blocking && rfs.len() > 0 && estimating {
        let rf = if pick < rfs.len() {
            Some(rfs[pick as int])
        } else {
            None
        };
        with_graph(
            MustView { estimates: v.estimates.push((rfs.len() + 1) as u64), ..v },
            with_kind(g, pos, with_rf(here.kind, rf)),
        )
    } else if !blocking {
        MustView {
            current: StateView {
                graph: with_kind(g, pos, with_rf(here.kind, None)),
                rqueue: with_forwards(v.current.rqueue, here.stamp, pos, rfs, 0, rfs.len()),
            },
            ..v
        }
    } else if rfs.len() > 0 && estimating {
        with_graph(
            MustView { estimates: v.estimates.push(rfs.len() as u64), ..v },
            with_kind(g, pos, with_rf(here.kind, Some(rfs[pick as int]))),
        )
    } else if rfs.len() > 0 {
        MustView {
            current: StateView {
                graph: with_kind(g, pos, with_rf(here.kind, Some(rfs[0]))),
                rqueue: with_forwards(v.current.rqueue, here.stamp, pos, rfs, 1, rfs.len()),
            },
            ..v
        }
    } else {
        added(
            v,
            pos,
            KindView::Block { btype: BlockType::Value(loc_at(g.log, pos), 1) },
        )
    }
}

/// The numbers from which `pick` comes: one for each alternative.
pub open spec fn pick_in_range<P: RecvPredicate>(
    v: MustView<P>,
    pos: Event,
    blocking: bool,
    pick: nat,
) -> bool {
    let rfs = offered(v, pos, loc_at(log_of(v), pos));
    if rfs.len() == 0 {
        true
    } else if blocking {
        pick < rfs.len()
    } else {
        pick <= rfs.len()
    }
}

/// The worklist with a revisit for each of the first `n` sets but `canonical`.
pub open spec fn with_inbox_forwards(
    queue: Seq<(usize, RevisitView)>,
    stamp: usize,
    pos: Event,
    sets: Seq<Seq<Event>>,
    canonical: Seq<Event>,
    n: nat,
) -> Seq<(usize, RevisitView)>
    decreases n,
{
    if n == 0 {
        queue
    } else {
        let before = with_inbox_forwards(queue, stamp, pos, sets, canonical, (n - 1) as nat);
        if sets[n - 1] == canonical {
            before
        } else {
            pushed(
                before,
                stamp,
                RevisitView { backward: false, pos, rev: PlacementView::Inbox(sets[n - 1]) },
            )
        }
    }
}

/// The read events of an inbox that takes `set`.
pub open spec fn as_rfs(set: Seq<Event>) -> Option<Seq<Event>> {
    if set.len() == 0 {
        None
    } else {
        Some(set)
    }
}

/// The exploration after the inbox at `pos` has got what it reads, or waits. Every
/// other set that it could read is left for a revisit.
pub open spec fn inbox_visited<P: RecvPredicate>(v: MustView<P>, pos: Event) -> MustView<P> {
    let g = v.current.graph;
    let here = label_at(g.log, pos);
    match here.kind {
        KindView::Inbox { loc, min, max, .. } => {
            let rfs = offers_of(g.log, v.locs, loc, pos, false);
            if min > upper_bound(rfs.len(), max) {
                added(v, pos, KindView::Block { btype: BlockType::Value(loc, min) })
            } else {
                let sets = inbox_choices(g.log, v.locs, loc, pos, min, max);
                let canonical = canonical_set(rfs, min, max);
                MustView {
                    current: StateView {
                        graph: with_kind(g, pos, with_rfs(here.kind, as_rfs(canonical))),
                        rqueue: with_inbox_forwards(
                            v.current.rqueue,
                            here.stamp,
                            pos,
                            sets,
                            canonical,
                            sets.len(),
                        ),
                    },
                    ..v
                }
            }
        },
        _ => v,
    }
}

/// A receive is offered no more events than the graph has stamps.
proof fn lemma_offered_len<P: RecvPredicate>(v: MustView<P>, pos: Event, loc: usize)
    requires
        must_ok(v),
    ensures
        offered(v, pos, loc).len() <= v.current.graph.stamp,
{
    let log = log_of(v);
    let monitor = v.monitors.contains(pos.thread);
    let rfs = rfs_of(log, v.locs, loc, pos, monitor);
    crate::cons::lemma_rfs_len(log, v.locs, loc, pos, monitor, log.len());
    lemma_asymmetric_len(log, rfs, rfs.len());
    crate::exec_graph::lemma_log_len(v.current.graph, log.len());
}

proof fn lemma_asymmetric_len(log: Seq<LabelView>, rfs: Seq<Event>, n: nat)
    ensures
        asymmetric_rfs(log, rfs, n).len() <= n,
    decreases n,
{
    if n > 0 {
        lemma_asymmetric_len(log, rfs, (n - 1) as nat);
    }
}

impl<P: RecvPredicate> Must<P> {
    fn sym_thread(&self, t: ThreadId) -> (s: Option<ThreadId>)
        requires
            self.wf(),
        ensures
            s == sym_of(log_of(self@), t),
    {
        match self.current.graph.label_opt(Event::new(t, 0)) {
            Some(l) => match &l.kind {
                LabelKind::Begin { sym_id, .. } => *sym_id,
                _ => None,
            },
            None => None,
        }
    }

    /// Whether up to `pos` its thread did what `sym_id` did.
    pub fn is_prefix_symmetric(&self, sym_id: Option<ThreadId>, pos: Event) -> (b: bool)
        requires
            self.wf(),
            in_log(log_of(self@), pos),
        ensures
            b == (sym_id matches Some(sym) && prefix_symmetric(log_of(self@), sym, pos)),
    {
        let sym = match sym_id {
            Some(s) => s,
            None => {
                return false;
            },
        };
        let ghost log = log_of(self@);
        proof {
            lemma_thread_size(log, sym, pos.index);
        }
        if !self.current.graph.contains(Event::new(sym, pos.index)) {
            return false;
        }
        let mut i: u32 = 1;
        while i < pos.index
            invariant
                self.wf(),
                log == log_of(self@),
                in_log(log, pos),
                in_log(log, Event { thread: sym, index: pos.index }),
                sym_id == Some(sym),
                1 <= i,
                pos.index >= 1 ==> i <= pos.index,
                forall|j: u32|
                    1 <= j < i ==> !(#[trigger] differ_at(log, pos.thread, sym, j)),
            decreases pos.index - i,
        {
            let a = Event::new(pos.thread, i);
            let b = Event::new(sym, i);
            proof {
                let at = index_of(log, pos);
                assert(log[at].pos == pos);
                crate::exec_graph::lemma_below(log, at, i);
                let other = index_of(log, Event { thread: sym, index: pos.index });
                assert(log[other].pos == Event { thread: sym, index: pos.index });
                crate::exec_graph::lemma_below(log, other, i);
            }
            let differ = match (&self.current.graph.label(a).kind, &self.current.graph.label(b).kind) {
                (LabelKind::Recv { rf, .. }, LabelKind::Recv { rf: other, .. }) => *rf != *other,
                _ => false,
            };
            if differ {
                assert(differ_at(log, pos.thread, sym, i));
                assert(!prefix_symmetric(log, sym, pos));
                return false;
            }
            i += 1;
        }
        true
    }

    fn stamp_at(&self, e: Event) -> (s: usize)
        requires
            self.wf(),
        ensures
            s == stamp_of(log_of(self@), e),
    {
        match self.current.graph.label_opt(e) {
            Some(l) => l.stamp,
            None => 0,
        }
    }

    /// Removes from `rfs` the sends that are like an earlier one of a double.
    pub fn filter_symmetric_rfs(&self, rfs: &Vec<Event>) -> (r: Vec<Event>)
        requires
            self.wf(),
            forall|i: int| 0 <= i < rfs@.len() ==> in_log(log_of(self@), #[trigger] rfs@[i]),
        ensures
            r@ == asymmetric_rfs(log_of(self@), rfs@, rfs@.len()),
    {
        let mut r: Vec<Event> = Vec::new();
        let ghost log = log_of(self@);
        let mut i: usize = 0;
        while i < rfs.len()
            invariant
                self.wf(),
                log == log_of(self@),
                forall|k: int| 0 <= k < rfs@.len() ==> in_log(log, #[trigger] rfs@[k]),
                i <= rfs.len(),
                r@ == asymmetric_rfs(log, rfs@, i as nat),
            decreases rfs.len() - i,
        {
            let rf = rfs[i];
            let sym_id = self.sym_thread(rf.thread);
            let mut symmetric = false;
            if let Some(sym) = sym_id {
                let mut j: usize = 0;
                while j < rfs.len()
                    invariant
                        self.wf(),
                        log == log_of(self@),
                        in_log(log, rf),
                        sym_id == Some(sym),
                        sym_of(log, rf.thread) == sym_id,
                        j <= rfs.len(),
                        symmetric ==> is_symmetric_rf(log, rfs@, rf),
                        !symmetric ==> forall|k: int|
                            0 <= k < j ==> !(#[trigger] rfs@[k] != rf && rfs@[k].thread == sym
                                && prefix_symmetric(log, sym, rf) && stamp_of(log, rfs@[k])
                                < stamp_of(log, rf)),
                    decreases rfs.len() - j,
                {
                    let rf2 = rfs[j];
                    if rf2 != rf && rf2.thread == sym && self.is_prefix_symmetric(sym_id, rf)
                        && self.stamp_at(rf2) < self.stamp_at(rf) {
                        assert(rfs@[j as int] == rf2);
                        symmetric = true;
                    }
                    j += 1;
                }
            }
            if !symmetric {
                r.push(rf);
            }
            i += 1;
        }
        r
    }

    /// What the receive at `pos` is offered.
    fn offers(&self, pos: Event, loc: usize) -> (r: Vec<Event>)
        requires
            self.wf(),
        ensures
            r@ == offered(self@, pos, loc),
    {
        let rfs = self.checker.rfs(
            &self.current.graph,
            &self.locs,
            loc,
            pos,
            self.is_monitor(pos),
        );
        proof {
            let log = log_of(self@);
            let monitor = self@.monitors.contains(pos.thread);
            lemma_rfs(log, self@.locs, loc, pos, monitor, log.len());
            assert forall|i: int| 0 <= i < rfs@.len() implies in_log(log, #[trigger] rfs@[i]) by {
                let k = choose|k: int| 0 <= k < log.len() && (#[trigger] log[k]).pos == rfs@[i];
                assert(log[k].pos == rfs@[i]);
            }
        }
        self.filter_symmetric_rfs(&rfs)
    }

    /// Leaves reading `rfs[from..]` for revisits.
    fn push_forwards(&mut self, stamp: usize, pos: Event, rfs: &Vec<Event>, from: usize)
        requires
            old(self).wf(),
            in_log(log_of(old(self)@), pos),
            has_alternatives(label_at(log_of(old(self)@), pos).kind),
            label_at(log_of(old(self)@), pos).stamp == stamp,
        ensures
            final(self).wf(),
            final(self)@ == (MustView {
                current: StateView {
                    rqueue: with_forwards(
                        old(self)@.current.rqueue,
                        stamp,
                        pos,
                        rfs@,
                        from as nat,
                        rfs@.len(),
                    ),
                    ..old(self)@.current
                },
                ..old(self)@
            }),
    {
        let ghost before = self@;
        if rfs.len() <= from {
            assert(self@ =~= MustView {
                current: StateView {
                    rqueue: with_forwards(
                        before.current.rqueue,
                        stamp,
                        pos,
                        rfs@,
                        from as nat,
                        rfs@.len(),
                    ),
                    ..before.current
                },
                ..before
            });
            return ;
        }
        let mut i: usize = from;
        while i < rfs.len()
            invariant
                self.wf(),
                from <= i <= rfs.len(),
                in_log(log_of(before), pos),
                has_alternatives(label_at(log_of(before), pos).kind),
                label_at(log_of(before), pos).stamp == stamp,
                self@ == (MustView {
                    current: StateView {
                        rqueue: with_forwards(
                            before.current.rqueue,
                            stamp,
                            pos,
                            rfs@,
                            from as nat,
                            i as nat,
                        ),
                        ..before.current
                    },
                    ..before
                }),
            decreases rfs.len() - i,
        {
            proof {
                let log = log_of(self@);
                let at = index_of(log, pos);
                assert(log[at].pos == pos);
                lemma_index_of(log, at);
                lemma_revisit_ok(self@, stamp, forward_to(pos, rfs@[i as int]));
            }
            let ghost mid = self@;
            self.push_revisit(stamp, RevisitEnum::new_forward(pos, rfs[i]));
            i += 1;
            assert(self@ =~= MustView {
                current: StateView {
                    rqueue: with_forwards(
                        before.current.rqueue,
                        stamp,
                        pos,
                        rfs@,
                        from as nat,
                        i as nat,
                    ),
                    ..before.current
                },
                ..before
            });
        }
    }

    /// Makes the receive at `pos` read `rf`.
    fn read_from(&mut self, pos: Event, rf: Option<Event>)
        requires
            old(self).wf(),
            in_log(log_of(old(self)@), pos),
        ensures
            final(self).wf(),
            final(self)@ == with_graph(
                old(self)@,
                with_kind(
                    old(self)@.current.graph,
                    pos,
                    with_rf(label_at(log_of(old(self)@), pos).kind, rf),
                ),
            ),
    {
        let ghost before = self@;
        proof {
            lemma_with_kind_ok(before, pos, with_rf(label_at(log_of(before), pos).kind, rf));
        }
        self.current.graph.change_rf(pos, rf);
        assert(self@ =~= with_graph(
            before,
            with_kind(
                before.current.graph,
                pos,
                with_rf(label_at(log_of(before), pos).kind, rf),
            ),
        ));
    }

    /// Decides what the receive at `pos` reads; `pick` decides while the number of
    /// executions is estimated.
    pub fn visit_rfs_with(&mut self, pos: Event, blocking: bool, pick: usize) -> (r: Option<Val>)
        requires
            old(self).wf(),
            in_log(log_of(old(self)@), pos),
            label_at(log_of(old(self)@), pos).kind is Recv,
            log_of(old(self)@).last().pos == pos,
            recordable(old(self)@, pos),
            pick_in_range(old(self)@, pos, blocking, pick as nat),
        ensures
            final(self).wf(),
            final(self)@ == visited(old(self)@, pos, blocking, pick as nat),
            r == received_value(log_of(final(self)@), pos),
    {
        let ghost before = self@;
        let ghost here = label_at(log_of(before), pos);
        let (loc, stamp): (usize, usize) = {
            let l = self.current.graph.label(pos);
            match &l.kind {
                LabelKind::Recv { loc, .. } => (*loc, l.stamp),
                _ => (0, l.stamp),
            }
        };
        let rfs = self.offers(pos, loc);
        proof {
            lemma_with_kind(before.current.graph, pos, with_rf(here.kind, None));
            if rfs@.len() > 0 {
                lemma_with_kind(before.current.graph, pos, with_rf(here.kind, Some(rfs@[0])));
            }
        }
        if !blocking {
            if rfs.len() > 0 && self.config.mode == ExplorationMode::Estimation {
                proof {
                    lemma_offered_len(before, pos, loc);
                }
                self.estimates.push(rfs.len() as u64 + 1);
                assert(self@ =~= MustView {
                    estimates: before.estimates.push((rfs@.len() + 1) as u64),
                    ..before
                });
                let rf = if pick < rfs.len() {
                    Some(rfs[pick])
                } else {
                    None
                };
                self.read_from(pos, rf);
                return self.current.graph.val_copy(pos);
            }
            self.read_from(pos, None);
            self.push_forwards(stamp, pos, &rfs, 0);
            assert(self@ =~= visited(before, pos, blocking, pick as nat));
            return self.current.graph.val_copy(pos);
        }
        if rfs.len() > 0 {
            if self.config.mode == ExplorationMode::Estimation {
                self.estimates.push(rfs.len() as u64);
                assert(self@ =~= MustView {
                    estimates: before.estimates.push(rfs@.len() as u64),
                    ..before
                });
                self.read_from(pos, Some(rfs[pick]));
            } else {
                self.read_from(pos, Some(rfs[0]));
                self.push_forwards(stamp, pos, &rfs, 1);
                assert(self@ =~= visited(before, pos, blocking, pick as nat));
            }
            self.current.graph.val_copy(pos)
        } else {
            self.add_to_graph(pos, LabelKind::Block { btype: BlockType::Value(loc, 1) });
            proof {
                lemma_added_ok(
                    before,
                    pos,
                    KindView::Block { btype: BlockType::Value(loc, 1) },
                );
            }
            None
        }
    }

    /// Decides what the receive at `pos` reads, by chance while the number of
    /// executions is estimated.
    pub fn visit_rfs(&mut self, pos: Event, blocking: bool) -> (r: Option<Val>)
        requires
            old(self).wf(),
            in_log(log_of(old(self)@), pos),
            label_at(log_of(old(self)@), pos).kind is Recv,
            log_of(old(self)@).last().pos == pos,
            recordable(old(self)@, pos),
        ensures
            final(self).wf(),
            exists|pick: nat| #[trigger]
                pick_in_range(old(self)@, pos, blocking, pick) && final(self)@ == visited(
                    old(self)@,
                    pos,
                    blocking,
                    pick,
                ),
            r == received_value(log_of(final(self)@), pos),
    {
        let loc = match &self.current.graph.label(pos).kind {
            LabelKind::Recv { loc, .. } => *loc,
            _ => 0,
        };
        let mut pick: usize = 0;
        if self.config.mode == ExplorationMode::Estimation {
            let rfs = self.offers(pos, loc);
            if rfs.len() > 0 {
                pick = random_between(0, if blocking {
                    rfs.len() - 1
                } else {
                    rfs.len()
                });
            }
        }
        assert(pick_in_range(self@, pos, blocking, pick as nat));
        self.visit_rfs_with(pos, blocking, pick)
    }

    /// Those of the sets that can be taken at once.
    fn ordered_only(&self, sets: &Vec<Vec<Event>>, loc: usize, reader: Event) -> (r: Vec<Vec<Event>>)
        ensures
            sets_view(r@) == ordered_sets(
                log_of(self@),
                self@.locs,
                loc,
                reader,
                sets_view(sets@),
                sets@.len(),
            ),
    {
        let ghost all = sets_view(sets@);
        let mut r: Vec<Vec<Event>> = Vec::new();
        assert(sets_view(r@) =~= Seq::<Seq<Event>>::empty());
        let mut i: usize = 0;
        while i < sets.len()
            invariant
                i <= sets@.len(),
                all == sets_view(sets@),
                sets_view(r@) == ordered_sets(
                    log_of(self@),
                    self@.locs,
                    loc,
                    reader,
                    all,
                    i as nat,
                ),
            decreases sets.len() - i,
        {
            assert(all[i as int] == sets@[i as int]@);
            let ghost before = sets_view(r@);
            if self.checker.is_in_order(&self.current.graph, &self.locs, loc, reader, &sets[i]) {
                r.push(copy_events(&sets[i]));
                assert(sets_view(r@) =~= before.push(all[i as int]));
            }
            i += 1;
        }
        r
    }

    /// Decides what the inbox at `pos` reads, or lets it wait for more messages.
    pub fn visit_inbox_rfs(&mut self, pos: Event) -> (r: Vec<Option<Val>>)
        requires
            old(self).wf(),
            in_log(log_of(old(self)@), pos),
            label_at(log_of(old(self)@), pos).kind is Inbox,
            log_of(old(self)@).last().pos == pos,
            recordable(old(self)@, pos),
        ensures
            final(self).wf(),
            final(self)@ == inbox_visited(old(self)@, pos),
            r@ == received_values(log_of(final(self)@), pos),
    {
        let ghost before = self@;
        let ghost here = label_at(log_of(before), pos);
        let (loc, min, max, stamp): (usize, usize, Option<usize>, usize) = {
            let l = self.current.graph.label(pos);
            match &l.kind {
                LabelKind::Inbox { loc, min, max, .. } => (*loc, *min, *max, l.stamp),
                _ => (0, 0, None, l.stamp),
            }
        };
        let rfs = self.checker.inbox_rfs(&self.current.graph, &self.locs, loc, pos);
        let upper = match max {
            Some(m) => if m < rfs.len() {
                m
            } else {
                rfs.len()
            },
            None => rfs.len(),
        };
        if min > upper {
            self.add_to_graph(pos, LabelKind::Block { btype: BlockType::Value(loc, min) });
            proof {
                lemma_added_ok(
                    before,
                    pos,
                    KindView::Block { btype: BlockType::Value(loc, min) },
                );
            }
            let none: Vec<Option<Val>> = Vec::new();
            assert(none@ =~= received_values(log_of(self@), pos));
            return none;
        }
        let all = crate::revisit::compute_inbox_possible_subsets_from_rfs(&rfs, min, max);
        let sets = self.ordered_only(&all, loc, pos);
        let mut canonical: Vec<Event> = Vec::new();
        assert(canonical@ =~= Seq::<Event>::empty());
        if min > 0 {
            let mut k: usize = 0;
            while k < upper
                invariant
                    k <= upper <= rfs.len(),
                    canonical@ == rfs@.take(k as int),
                decreases upper - k,
            {
                canonical.push(rfs[k]);
                k += 1;
                assert(rfs@.take(k as int) =~= rfs@.take(k - 1).push(rfs@[k - 1]));
            }
        }
        assert(canonical@ == canonical_set(rfs@, min, max));
        let ghost subsets = sets_view(sets@);
        let mut i: usize = 0;
        while i < sets.len()
            invariant
                self.wf(),
                i <= sets.len(),
                subsets == sets_view(sets@),
                in_log(log_of(before), pos),
                has_alternatives(label_at(log_of(before), pos).kind),
                label_at(log_of(before), pos).stamp == stamp,
                self@ == (MustView {
                    current: StateView {
                        rqueue: with_inbox_forwards(
                            before.current.rqueue,
                            stamp,
                            pos,
                            subsets,
                            canonical@,
                            i as nat,
                        ),
                        ..before.current
                    },
                    ..before
                }),
            decreases sets.len() - i,
        {
            assert(subsets[i as int] == sets@[i as int]@);
            if !events_equal(&sets[i], &canonical) {
                let subset = copy_events(&sets[i]);
                proof {
                    let log = log_of(self@);
                    let at = index_of(log, pos);
                    assert(log[at].pos == pos);
                    lemma_index_of(log, at);
                    lemma_revisit_ok(
                        self@,
                        stamp,
                        RevisitView { backward: false, pos, rev: PlacementView::Inbox(subset@) },
                    );
                }
                self.push_revisit(stamp, RevisitEnum::new_forward_inbox(pos, subset));
            }
            i += 1;
            assert(self@ =~= MustView {
                current: StateView {
                    rqueue: with_inbox_forwards(
                        before.current.rqueue,
                        stamp,
                        pos,
                        subsets,
                        canonical@,
                        i as nat,
                    ),
                    ..before.current
                },
                ..before
            });
        }
        let ghost chosen = canonical@;
        let new_rfs: Option<Vec<Event>> = if canonical.len() == 0 {
            None
        } else {
            Some(canonical)
        };
        proof {
            assert(events_view(new_rfs) == as_rfs(chosen));
            lemma_with_kind_ok(self@, pos, with_rfs(here.kind, as_rfs(chosen)));
        }
        self.current.graph.change_inbox_rfs(pos, new_rfs);
        assert(self@ =~= inbox_visited(before, pos));
        self.current.graph.vals_copy(pos)
    }
}

} // verus!
