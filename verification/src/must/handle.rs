//! What the exploration does when the program performs an event.

use crate::config::ExplorationMode;
use crate::event::{Event, TaskId, ThreadId};
use crate::event_label::{
    copy_tag, copy_threads, name_view, BlockType, KindView, LabelKind, LabelView, Val,
};
use crate::exec_graph::{
    dropped_upto, first_event, has_thread, in_log, label_at, last_label, largest_id,
    lemma_thread_size, lemma_with_kind, lemma_with_label, next_thread, origination, previous,
    received_value, received_values, thread_complete, thread_size, with_kind, with_label, GraphView,
};
use crate::loc::{Loc, RecvLoc, RecvPredicate};
use crate::must::backward::{maximal_toss, revisits_noted};
use crate::must::delivery::listed;
use crate::must::step::init_event;
use crate::must::visit::{forward_to, inbox_visited, pick_in_range, visited};
use crate::must::{
    added, entry_ok, has_alternatives, lemma_added_ok, lemma_revisit_ok, lemma_with_kind_ok, log_of,
    must_ok, recordable, with_graph, with_revisit, Must, MustView,
};
use crate::random::random_between;
use crate::replay::{consumable, consumed, ReplayFailure};
use crate::revisit::{sends_of, RevisitEnum};
use vstd::prelude::*;

verus! {

/// Whether two events did the same sort of thing.
pub open spec fn same_shape(a: KindView, b: KindView) -> bool {
    match a {
        KindView::Begin { .. } => b is Begin,
        KindView::End { .. } => b is End,
        KindView::TCreate { .. } => b is TCreate,
        KindView::TJoin { .. } => b is TJoin,
        KindView::Recv { .. } => b is Recv,
        KindView::Send { .. } => b is Send,
        KindView::Inbox { .. } => b is Inbox,
        KindView::Block { .. } => b is Block,
        KindView::CToss { .. } => b is CToss,
        KindView::Choice { .. } => b is Choice,
        KindView::Sample { .. } => b is Sample,
        KindView::Unique { .. } => b is Unique,
    }
}

/// Whether two labels did the same sort of thing.
pub fn is_same_shape(a: &LabelKind, b: &LabelKind) -> (r: bool)
    ensures
        r == same_shape(a@, b@),
{
    match a {
        LabelKind::Begin { .. } => matches!(b, LabelKind::Begin { .. }),
        LabelKind::End { .. } => matches!(b, LabelKind::End { .. }),
        LabelKind::TCreate { .. } => matches!(b, LabelKind::TCreate { .. }),
        LabelKind::TJoin { .. } => matches!(b, LabelKind::TJoin { .. }),
        LabelKind::Recv { .. } => matches!(b, LabelKind::Recv { .. }),
        LabelKind::Send { .. } => matches!(b, LabelKind::Send { .. }),
        LabelKind::Inbox { .. } => matches!(b, LabelKind::Inbox { .. }),
        LabelKind::Block { .. } => matches!(b, LabelKind::Block { .. }),
        LabelKind::CToss { .. } => matches!(b, LabelKind::CToss { .. }),
        LabelKind::Choice { .. } => matches!(b, LabelKind::Choice { .. }),
        LabelKind::Sample { .. } => matches!(b, LabelKind::Sample { .. }),
        LabelKind::Unique { .. } => matches!(b, LabelKind::Unique { .. }),
    }
}

/// Why an event cannot run where the exploration stands.
#[derive(Clone, Copy, Debug, PartialEq, Eq, Structural)]
pub enum EventError {
    /// The replayed execution has another event next.
    Replay(ReplayFailure),
    /// The program did something else than before at this position.
    Diverged(Event),
}

/// What an executed-again event is recorded to have done: as before, with the data
/// that is not kept between executions taken from the new label.
pub open spec fn recovered_kind(recorded: KindView, new: KindView, replay: bool) -> KindView {
    match (recorded, new) {
        (
            KindView::Recv { loc, blocking, rf, revisitable },
            KindView::Recv { loc: new_loc, .. },
        ) => KindView::Recv {
            loc: if replay {
                new_loc
            } else {
                loc
            },
            blocking,
            rf,
            revisitable,
        },
        (
            KindView::Send { loc, tag, val, monitors, lossy, dropped, model },
            KindView::Send {
                loc: new_loc,
                tag: new_tag,
                val: new_val,
                monitors: new_monitors,
                ..
            },
        ) => if replay {
            KindView::Send {
                loc: new_loc,
                tag: new_tag,
                val: new_val,
                monitors: new_monitors,
                lossy,
                dropped,
                model,
            }
        } else {
            KindView::Send { loc, tag, val: new_val, monitors, lossy, dropped, model }
        },
        (KindView::End { .. }, KindView::End { result }) => KindView::End { result },
        (
            KindView::Inbox { loc, min, max, rfs, revisitable },
            KindView::Inbox { loc: new_loc, .. },
        ) => KindView::Inbox { loc: new_loc, min, max, rfs, revisitable },
        _ => recorded,
    }
}

/// Whether the event `pos` was recorded before and can be executed again as `kind`.
pub open spec fn replayable<P>(v: MustView<P>, pos: Event, kind: KindView) -> bool {
    in_log(log_of(v), pos) && consumable(v.replay, pos) && same_shape(
        label_at(log_of(v), pos).kind,
        kind,
    )
}

/// The exploration after the event `pos` was executed again as `kind`.
pub open spec fn replayed<P>(v: MustView<P>, pos: Event, kind: KindView) -> MustView<P> {
    with_graph(
        MustView { replay: consumed(v.replay), ..v },
        with_kind(
            v.current.graph,
            pos,
            recovered_kind(label_at(log_of(v), pos).kind, kind, v.replay.replay_mode),
        ),
    )
}

/// Whether the event `pos` comes next in its thread, and there is room for it.
pub open spec fn comes_next<P>(v: MustView<P>, pos: Event) -> bool {
    &&& !in_log(log_of(v), pos)
    &&& pos.index == 0 || in_log(log_of(v), previous(pos))
    &&& pos.index < u32::MAX
    &&& v.current.graph.stamp + 2 < usize::MAX
}

/// Whether the program may perform `kind` at `pos`.
pub open spec fn performable<P>(v: MustView<P>, pos: Event, kind: KindView) -> bool {
    replayable(v, pos, kind) || comes_next(v, pos)
}

/// What comes next in its thread can be recorded, and replaced once.
pub proof fn lemma_comes_next<P>(v: MustView<P>, pos: Event, kind: KindView)
    requires
        must_ok(v),
        comes_next(v, pos),
    ensures
        recordable(v, pos),
        must_ok(added(v, pos, kind)),
        recordable(added(v, pos, kind), pos),
        in_log(log_of(added(v, pos, kind)), pos),
        log_of(added(v, pos, kind)).last().pos == pos,
        label_at(log_of(added(v, pos, kind)), pos) == (LabelView {
            pos,
            stamp: v.current.graph.stamp,
            kind,
        }),
{
    let log = log_of(v);
    lemma_size_of_next(log, pos);
    assert(recordable(v, pos));
    lemma_added_ok(v, pos, kind);
    lemma_with_label(v.current.graph, pos, kind);
    let w = added(v, pos, kind);
    assert(log_of(w) == with_label(v.current.graph, pos, kind).log);
    assert(w.current.graph.stamp == v.current.graph.stamp + 1);
    assert forall|k: int| 0 <= k < w.current.rqueue.len() implies (
    #[trigger] w.current.rqueue[k]).1.pos != pos && !(w.current.rqueue[k].1.backward && sends_of(
        w.current.rqueue[k].1.rev,
    ).contains(pos)) by {
        let entry = v.current.rqueue[k];
        assert(entry_ok(log, entry));
        if entry.1.backward && sends_of(entry.1.rev).contains(pos) {
            let i = choose|i: int|
                0 <= i < sends_of(entry.1.rev).len() && sends_of(entry.1.rev)[i] == pos;
            assert(crate::must::sent_by(log, sends_of(entry.1.rev)[i], entry.0));
        }
    }
    let n = log_of(w).len();
    assert(crate::exec_graph::last_place(log_of(w), pos.thread, n) == n);
}

/// The next event of a thread has the number of events before it as its index.
proof fn lemma_size_of_next(log: Seq<LabelView>, pos: Event)
    requires
        crate::exec_graph::log_wf(log),
        !in_log(log, pos),
        pos.index == 0 || in_log(log, previous(pos)),
    ensures
        thread_size(log, pos.thread) == pos.index,
{
    lemma_thread_size(log, pos.thread, pos.index);
    if pos.index > 0 {
        lemma_thread_size(log, pos.thread, (pos.index - 1) as u32);
    }
}

/// Executing an event again keeps the exploration in order.
proof fn lemma_replayed_ok<P>(v: MustView<P>, pos: Event, kind: KindView)
    requires
        must_ok(v),
        in_log(log_of(v), pos),
    ensures
        must_ok(replayed(v, pos, kind)),
        in_log(log_of(replayed(v, pos, kind)), pos),
        label_at(log_of(replayed(v, pos, kind)), pos).kind == recovered_kind(
            label_at(log_of(v), pos).kind,
            kind,
            v.replay.replay_mode,
        ),
{
    let next = recovered_kind(label_at(log_of(v), pos).kind, kind, v.replay.replay_mode);
    lemma_with_kind_ok(v, pos, next);
    lemma_with_kind(v.current.graph, pos, next);
    let w = replayed(v, pos, kind);
    let u = with_graph(v, with_kind(v.current.graph, pos, next));
    assert(w.states == u.states);
    assert(w.current == u.current);
}

/// The place of `loc` among the locations of a receive.
pub open spec fn place_of(locs: Seq<Loc>, loc: Loc, n: nat) -> Option<usize>
    decreases n,
{
    if n == 0 {
        None
    } else {
        match place_of(locs, loc, (n - 1) as nat) {
            Some(i) => Some(i),
            None => if locs[n - 1] == loc {
                Some((n - 1) as usize)
            } else {
                None
            },
        }
    }
}

/// Which of the locations of the `loc`-th receive the message `send` came from.
pub open spec fn source_index<P: RecvPredicate>(v: MustView<P>, loc: usize, send: Event) -> Option<
    usize,
> {
    if loc < v.locs.len() && in_log(log_of(v), send) {
        match label_at(log_of(v), send).kind {
            KindView::Send { loc: to, .. } => place_of(
                v.locs[loc as int].locs@,
                to,
                v.locs[loc as int].locs@.len(),
            ),
            _ => None,
        }
    } else {
        None
    }
}

/// Which of its locations the receive at `pos` got its message from.
pub open spec fn receiving_index<P: RecvPredicate>(v: MustView<P>, pos: Event) -> Option<usize> {
    if in_log(log_of(v), pos) {
        match label_at(log_of(v), pos).kind {
            KindView::Recv { loc, rf: Some(send), .. } => source_index(v, loc, send),
            _ => None,
        }
    } else {
        None
    }
}

/// Which of its locations the inbox at `pos` got its messages from.
pub open spec fn receiving_indexes<P: RecvPredicate>(v: MustView<P>, pos: Event) -> Seq<
    Option<usize>,
> {
    if in_log(log_of(v), pos) {
        match label_at(log_of(v), pos).kind {
            KindView::Inbox { loc, rfs: Some(sends), .. } => Seq::new(
                sends.len(),
                |i: int| source_index(v, loc, sends[i]),
            ),
            _ => Seq::empty(),
        }
    } else {
        Seq::empty()
    }
}

/// The events among the first `n` labels that read `send`: those that read it as monitors,
/// or those that do not.
pub open spec fn readers_as(log: Seq<LabelView>, send: Event, monitors: bool, n: nat) -> Seq<Event>
    decreases n,
{
    if n == 0 {
        Seq::empty()
    } else if log[n - 1].reads(send) && listed(log, send, log[n - 1].pos.thread) == monitors {
        readers_as(log, send, monitors, (n - 1) as nat).push(log[n - 1].pos)
    } else {
        readers_as(log, send, monitors, (n - 1) as nat)
    }
}

/// The events that read `send`: its reader first, then the monitors that read it.
pub open spec fn readers_of(log: Seq<LabelView>, send: Event) -> Seq<Event> {
    readers_as(log, send, false, log.len()) + readers_as(log, send, true, log.len())
}

/// The result of thread `t`, if it has ended.
pub open spec fn thread_result(log: Seq<LabelView>, t: ThreadId) -> Option<Val> {
    if has_thread(log, t) {
        match last_label(log, t).kind {
            KindView::End { result } => Some(result),
            _ => None,
        }
    } else {
        None
    }
}

/// The exploration with another receive location.
pub open spec fn with_loc<P>(v: MustView<P>, loc: RecvLoc<P>) -> MustView<P> {
    MustView { locs: v.locs.push(loc), ..v }
}

/// What a receive that has read nothing did.
pub open spec fn recv_kind(loc: usize, blocking: bool) -> KindView {
    KindView::Recv { loc, blocking, rf: None, revisitable: true }
}

/// What an inbox that has read nothing did.
pub open spec fn inbox_kind(loc: usize, min: usize, max: Option<usize>) -> KindView {
    KindView::Inbox { loc, min, max, rfs: None, revisitable: true }
}

/// The exploration after a new send was recorded. A message that may be lost is lost
/// in a revisit.
pub open spec fn sent<P: RecvPredicate>(v: MustView<P>, pos: Event, kind: KindView) -> MustView<
    P,
> {
    let w = added(v, pos, kind);
    let lossy = kind matches KindView::Send { lossy, .. } && lossy;
    let u = if lossy && dropped_upto(log_of(w), log_of(w).len()) < w.config.lossy_budget {
        with_revisit(w, v.current.graph.stamp, forward_to(pos, init_event()))
    } else {
        w
    };
    revisits_noted(u, pos)
}

/// How many samples are drawn besides the first, where `max_samples` are to be visited.
pub fn further_samples(max_samples: usize) -> (n: usize)
    requires
        max_samples > 0,
    ensures
        max_samples == 1 ==> n == 0,
        max_samples > 1 ==> n == max_samples - 2,
{
    if max_samples == 1 {
        0
    } else {
        max_samples - 2
    }
}

/// The exploration after a new choice was recorded, whose alternatives are visited
/// in turn.
pub open spec fn choice_added<P>(
    v: MustView<P>,
    pos: Event,
    kind: KindView,
    revisit: bool,
) -> MustView<P> {
    let w = added(v, pos, kind);
    if revisit {
        with_revisit(w, v.current.graph.stamp, forward_to(pos, init_event()))
    } else {
        w
    }
}

/// The exploration after a new choice was recorded and decided at random among
/// `alternatives`.
pub open spec fn choice_picked<P>(
    v: MustView<P>,
    pos: Event,
    kind: KindView,
    picked: KindView,
    alternatives: u64,
) -> MustView<P> {
    let w = added(v, pos, kind);
    with_graph(
        MustView { estimates: w.estimates.push(alternatives), ..w },
        with_kind(w.current.graph, pos, picked),
    )
}

/// The exploration after a thread was created.
pub open spec fn spawned<P>(
    v: MustView<P>,
    pos: Event,
    kind: KindView,
    tid: ThreadId,
    task: TaskId,
    sym_cid: Option<ThreadId>,
) -> MustView<P> {
    let w = added(v, pos, kind);
    let u = with_graph(
        w,
        GraphView { tasks: w.current.graph.tasks.push((task, tid)), ..w.current.graph },
    );
    added(u, first_event(tid), KindView::Begin { parent: Some(pos), sym_id: sym_cid })
}

impl<P: RecvPredicate> Must<P> {
    /// Whether the program may perform `kind` at `pos`, as far as it was recorded.
    pub fn check_event(&self, pos: Event, kind: &LabelKind) -> (r: Result<(), EventError>)
        requires
            self.wf(),
        ensures
            r matches Err(EventError::Replay(f)) ==> f.executing == pos && self@.replay.current
                == Some(f.expected) && !consumable(self@.replay, pos),
            r matches Err(EventError::Diverged(e)) ==> e == pos && consumable(self@.replay, pos)
                && in_log(log_of(self@), pos) && !same_shape(
                label_at(log_of(self@), pos).kind,
                kind@,
            ),
            r is Ok ==> (in_log(log_of(self@), pos) ==> replayable(self@, pos, kind@)) && consumable(
                self@.replay,
                pos,
            ),
    {
        if self.replay_info.replay_mode {
            if let Some(expected) = self.replay_info.current {
                if expected != pos {
                    return Err(EventError::Replay(ReplayFailure { executing: pos, expected }));
                }
            }
        }
        match self.current.graph.label_opt(pos) {
            Some(l) => if is_same_shape(&l.kind, kind) {
                Ok(())
            } else {
                Err(EventError::Diverged(pos))
            },
            None => Ok(()),
        }
    }

    /// Takes note that the event `pos` of the replayed execution runs.
    pub fn try_consume(&mut self, pos: Event) -> (r: Result<(), ReplayFailure>)
        ensures
            r is Ok == consumable(old(self)@.replay, pos),
            r is Ok ==> final(self)@ == (MustView {
                replay: consumed(old(self)@.replay),
                ..old(self)@
            }),
            r matches Err(f) ==> final(self)@ == old(self)@ && f.executing == pos && old(
                self,
            )@.replay.current == Some(f.expected),
    {
        let ghost before = self@;
        let r = self.replay_info.consume(pos);
        assert(r is Ok ==> self@ =~= MustView { replay: consumed(before.replay), ..before });
        assert(r is Err ==> self@ =~= before);
        r
    }

    /// Puts the data that is not kept between executions back into the graph.
    fn recover_lost_data(&mut self, pos: Event, new: &LabelKind)
        requires
            old(self).current.graph.wf(),
            in_log(log_of(old(self)@), pos),
        ensures
            final(self).current.graph.wf(),
            final(self)@ == with_graph(
                old(self)@,
                with_kind(
                    old(self)@.current.graph,
                    pos,
                    recovered_kind(
                        label_at(log_of(old(self)@), pos).kind,
                        new@,
                        old(self)@.replay.replay_mode,
                    ),
                ),
            ),
    {
        let ghost before = self@;
        let replay = self.replay_info.replay_mode;
        let recorded = &self.current.graph.label(pos).kind;
        let kind = match (recorded, new) {
            (
                LabelKind::Recv { loc, blocking, rf, revisitable },
                LabelKind::Recv { loc: new_loc, .. },
            ) => LabelKind::Recv {
                loc: if replay {
                    *new_loc
                } else {
                    *loc
                },
                blocking: *blocking,
                rf: *rf,
                revisitable: *revisitable,
            },
            (
                LabelKind::Send { loc, tag, val, monitors, lossy, dropped, model },
                LabelKind::Send {
                    loc: new_loc,
                    tag: new_tag,
                    val: new_val,
                    monitors: new_monitors,
                    ..
                },
            ) => if replay {
                LabelKind::Send {
                    loc: *new_loc,
                    tag: copy_tag(new_tag),
                    val: *new_val,
                    monitors: copy_threads(new_monitors),
                    lossy: *lossy,
                    dropped: *dropped,
                    model: *model,
                }
            } else {
                LabelKind::Send {
                    loc: *loc,
                    tag: copy_tag(tag),
                    val: *new_val,
                    monitors: copy_threads(monitors),
                    lossy: *lossy,
                    dropped: *dropped,
                    model: *model,
                }
            },
            (LabelKind::End { .. }, LabelKind::End { result }) => LabelKind::End {
                result: *result,
            },
            (
                LabelKind::Inbox { loc, min, max, rfs, revisitable },
                LabelKind::Inbox { loc: new_loc, .. },
            ) => {
                let copied: Option<Vec<Event>> = match rfs {
                    Some(es) => Some(crate::event_label::copy_events(es)),
                    None => None,
                };
                LabelKind::Inbox {
                    loc: *new_loc,
                    min: *min,
                    max: *max,
                    rfs: copied,
                    revisitable: *revisitable,
                }
            },
            _ => recorded.clone(),
        };
        self.current.graph.set_kind(pos, kind);
        assert(self@ =~= with_graph(before, with_kind(before.current.graph, pos, kind@)));
    }

    /// Executes the recorded event `pos` again.
    fn process_event(&mut self, pos: Event, kind: &LabelKind)
        requires
            old(self).wf(),
            replayable(old(self)@, pos, kind@),
        ensures
            final(self).wf(),
            final(self)@ == replayed(old(self)@, pos, kind@),
            in_log(log_of(final(self)@), pos),
            label_at(log_of(final(self)@), pos).kind == recovered_kind(
                label_at(log_of(old(self)@), pos).kind,
                kind@,
                old(self)@.replay.replay_mode,
            ),
    {
        let ghost before = self@;
        proof {
            lemma_replayed_ok(before, pos, kind@);
        }
        let _ = self.try_consume(pos);
        self.recover_lost_data(pos, kind);
        assert(self@ =~= replayed(before, pos, kind@));
    }

    fn find_source(&self, loc: usize, send: Event) -> (r: Option<usize>)
        requires
            self.wf(),
        ensures
            r == source_index(self@, loc, send),
    {
        if loc >= self.locs.len() {
            return None;
        }
        match self.current.graph.label_opt(send) {
            Some(l) => match &l.kind {
                LabelKind::Send { loc: to, .. } => {
                    let r = self.locs[loc].position(*to);
                    let n = self.locs[loc].locs.len();
                    proof {
                        lemma_place_of(self.locs@[loc as int].locs@, *to, r, n as nat);
                    }
                    r
                },
                _ => None,
            },
            None => None,
        }
    }

    /// Which of its locations the receive at `pos` got its message from.
    pub fn get_receiving_index(&self, pos: Event) -> (r: Option<usize>)
        requires
            self.wf(),
        ensures
            r == receiving_index(self@, pos),
    {
        match self.current.graph.label_opt(pos) {
            Some(l) => match &l.kind {
                LabelKind::Recv { loc, rf, .. } => match rf {
                    Some(send) => self.find_source(*loc, *send),
                    None => None,
                },
                _ => None,
            },
            None => None,
        }
    }

    /// Which of its locations the inbox at `pos` got its messages from.
    pub fn get_receiving_indexes(&self, pos: Event) -> (r: Vec<Option<usize>>)
        requires
            self.wf(),
        ensures
            r@ == receiving_indexes(self@, pos),
    {
        let mut r: Vec<Option<usize>> = Vec::new();
        if let Some(l) = self.current.graph.label_opt(pos) {
            if let LabelKind::Inbox { loc, rfs, .. } = &l.kind {
                if let Some(sends) = rfs {
                    let mut i: usize = 0;
                    while i < sends.len()
                        invariant
                            self.wf(),
                            i <= sends.len(),
                            r@.len() == i,
                            forall|k: int|
                                0 <= k < i ==> r@[k] == source_index(self@, *loc, sends@[k]),
                        decreases sends.len() - i,
                    {
                        r.push(self.find_source(*loc, sends[i]));
                        i += 1;
                    }
                }
            }
        }
        assert(r@ =~= receiving_indexes(self@, pos));
        r
    }

    /// A receive. Returns the value read, if any, and which of the receive's
    /// locations it came from.
    pub fn handle_recv(&mut self, pos: Event, rloc: RecvLoc<P>, blocking: bool) -> (r: (
        Option<Val>,
        Option<usize>,
    ))
        requires
            old(self).wf(),
            performable(old(self)@, pos, recv_kind(0, blocking)),
        ensures
            final(self).wf(),
            in_log(log_of(old(self)@), pos) ==> final(self)@ == replayed(
                with_loc(old(self)@, rloc),
                pos,
                recv_kind(old(self)@.locs.len() as usize, blocking),
            ),
            !in_log(log_of(old(self)@), pos) ==> ({
                let recorded = added(
                    with_loc(old(self)@, rloc),
                    pos,
                    recv_kind(old(self)@.locs.len() as usize, blocking),
                );
                exists|pick: nat| #[trigger]
                    pick_in_range(recorded, pos, blocking, pick) && final(self)@ == visited(
                        recorded,
                        pos,
                        blocking,
                        pick,
                    )
            }),
            r.0 == received_value(log_of(final(self)@), pos),
            r.1 == receiving_index(final(self)@, pos),
    {
        let ghost before = self@;
        let idx = self.locs.len();
        self.locs.push(rloc);
        assert(self@ =~= with_loc(before, rloc));
        assert(self@.states == before.states);
        let kind = LabelKind::Recv { loc: idx, blocking, rf: None, revisitable: true };
        if self.is_replay(pos) {
            self.process_event(pos, &kind);
            return (self.current.graph.val_copy(pos), self.get_receiving_index(pos));
        }
        proof {
            lemma_comes_next(self@, pos, kind@);
        }
        self.add_to_graph(pos, kind);
        let val = self.visit_rfs(pos, blocking);
        (val, self.get_receiving_index(pos))
    }

    /// The events that read `send` as monitors, or those that do not.
    fn find_readers(&self, send: Event, monitors: bool) -> (r: Vec<Event>)
        requires
            self.wf(),
            in_log(log_of(self@), send),
        ensures
            r@ == readers_as(log_of(self@), send, monitors, log_of(self@).len()),
    {
        let mut r: Vec<Event> = Vec::new();
        let s = self.current.graph.label(send);
        let mut i: usize = 0;
        while i < self.current.graph.len()
            invariant
                i <= log_of(self@).len(),
                s@ == label_at(log_of(self@), send),
                r@ == readers_as(log_of(self@), send, monitors, i as nat),
            decreases log_of(self@).len() - i,
        {
            let l = self.current.graph.label_in(i);
            if l.reads_from(send) {
                let is_listed = match &s.kind {
                    LabelKind::Send { monitors: list, .. } => crate::loc::thread_in(
                        list,
                        l.pos.thread,
                    ),
                    _ => false,
                };
                if is_listed == monitors {
                    r.push(l.pos);
                }
            }
            i += 1;
        }
        r
    }

    /// The events that read `send`: its reader first, then the monitors that read it.
    pub fn readers(&self, send: Event) -> (r: Vec<Event>)
        requires
            self.wf(),
            in_log(log_of(self@), send),
        ensures
            r@ == readers_of(log_of(self@), send),
    {
        let mut r = self.find_readers(send, false);
        let mut monitors = self.find_readers(send, true);
        r.append(&mut monitors);
        r
    }

    /// A send. Returns the events that might be stuck waiting for it, in case it is
    /// executed again.
    pub fn handle_send(&mut self, pos: Event, kind: LabelKind) -> (stuck: Vec<Event>)
        requires
            old(self).wf(),
            kind@ is Send,
            performable(old(self)@, pos, kind@),
        ensures
            final(self).wf(),
            in_log(log_of(old(self)@), pos) ==> final(self)@ == replayed(old(self)@, pos, kind@)
                && stuck@ == readers_of(log_of(final(self)@), pos),
            !in_log(log_of(old(self)@), pos) ==> final(self)@ == sent(old(self)@, pos, kind@)
                && stuck@.len() == 0,
    {
        let ghost before = self@;
        if self.is_replay(pos) {
            self.process_event(pos, &kind);
            return self.readers(pos);
        }
        let ghost k = kind@;
        let lossy = match &kind {
            LabelKind::Send { lossy, .. } => *lossy,
            _ => false,
        };
        proof {
            lemma_comes_next(before, pos, k);
        }
        let stamp = self.current.graph.stamp();
        self.add_to_graph(pos, kind);
        if lossy && self.dropped_messages() < self.config.lossy_budget {
            proof {
                lemma_revisit_ok(self@, stamp, forward_to(pos, init_event()));
            }
            self.push_revisit(stamp, RevisitEnum::new_forward(pos, Event::new_init()));
        }
        self.calc_revisits(pos);
        Vec::new()
    }

    /// How many messages were lost in the current execution.
    pub fn dropped_messages(&self) -> (n: usize)
        ensures
            n == dropped_upto(log_of(self@), log_of(self@).len()),
    {
        self.current.graph.dropped_sends()
    }

    /// An inbox. Returns the values read, which of the inbox's locations they came
    /// from, and whether the inbox waits.
    #[verifier::spinoff_prover]
    #[verifier::rlimit(60)]
    pub fn handle_inbox(
        &mut self,
        pos: Event,
        rloc: RecvLoc<P>,
        min: usize,
        max: Option<usize>,
    ) -> (r: (Vec<Option<Val>>, Vec<Option<usize>>, bool))
        requires
            old(self).wf(),
            performable(old(self)@, pos, inbox_kind(0, min, max)),
        ensures
            final(self).wf(),
            in_log(log_of(old(self)@), pos) ==> final(self)@ == replayed(
                with_loc(old(self)@, rloc),
                pos,
                inbox_kind(old(self)@.locs.len() as usize, min, max),
            ) && !r.2,
            !in_log(log_of(old(self)@), pos) ==> final(self)@ == inbox_visited(
                added(
                    with_loc(old(self)@, rloc),
                    pos,
                    inbox_kind(old(self)@.locs.len() as usize, min, max),
                ),
                pos,
            ) && r.2 == (in_log(log_of(final(self)@), pos) && label_at(
                log_of(final(self)@),
                pos,
            ).kind is Block),
            r.0@ == received_values(log_of(final(self)@), pos),
            r.1@ == receiving_indexes(final(self)@, pos),
    {
        let ghost before = self@;
        let idx = self.locs.len();
        self.locs.push(rloc);
        assert(self@ =~= with_loc(before, rloc));
        assert(self@.states == before.states);
        let kind = LabelKind::Inbox { loc: idx, min, max, rfs: None, revisitable: true };
        if self.is_replay(pos) {
            self.process_event(pos, &kind);
            return (self.current.graph.vals_copy(pos), self.get_receiving_indexes(pos), false);
        }
        proof {
            lemma_comes_next(self@, pos, kind@);
        }
        self.add_to_graph(pos, kind);
        let vals = self.visit_inbox_rfs(pos);
        let blocked = match self.current.graph.label_opt(pos) {
            Some(l) => matches!(l.kind, LabelKind::Block { .. }),
            None => false,
        };
        (vals, self.get_receiving_indexes(pos), blocked)
    }

    /// The thread that the spawn at `pos` creates.
    pub fn next_thread_id(&self, pos: Event) -> (tid: ThreadId)
        requires
            self.wf(),
            largest_id(log_of(self@), log_of(self@).len()) < u32::MAX,
        ensures
            tid == next_thread(
                log_of(self@),
                origination(log_of(self@), pos.thread).push(pos.index),
            ),
    {
        let mut origin = self.current.graph.origination_vec(pos.thread);
        origin.push(pos.index);
        self.current.graph.tid_for_spawn(&origin)
    }

    /// The creation of thread `tid`, which `task` runs, under a name if it has one.
    #[verifier::spinoff_prover]
    #[verifier::rlimit(60)]
    pub fn handle_tcreate(
        &mut self,
        tid: ThreadId,
        task: TaskId,
        sym_cid: Option<ThreadId>,
        pos: Event,
        name: Option<String>,
        is_daemon: bool,
    )
        requires
            old(self).wf(),
            in_log(log_of(old(self)@), pos) ==> consumable(old(self)@.replay, pos) && label_at(
                log_of(old(self)@),
                pos,
            ).kind is TCreate,
            !in_log(log_of(old(self)@), pos) ==> comes_next(old(self)@, pos) && !in_log(
                log_of(old(self)@),
                first_event(tid),
            ) && tid != pos.thread,
        ensures
            final(self).wf(),
            ({
                let kind = KindView::TCreate {
                    cid: tid,
                    name: name_view(name),
                    daemon: is_daemon,
                    sym_cid,
                    origination: origination(log_of(old(self)@), pos.thread).push(pos.index),
                };
                if in_log(log_of(old(self)@), pos) {
                    let bound = with_graph(
                        old(self)@,
                        GraphView {
                            tasks: old(self)@.current.graph.tasks.push((task, tid)),
                            ..old(self)@.current.graph
                        },
                    );
                    final(self)@ == replayed(bound, pos, kind)
                } else {
                    final(self)@ == spawned(old(self)@, pos, kind, tid, task, sym_cid)
                }
            }),
    {
        let ghost before = self@;
        let mut origin = self.current.graph.origination_vec(pos.thread);
        origin.push(pos.index);
        let kind = LabelKind::TCreate {
            cid: tid,
            name,
            daemon: is_daemon,
            sym_cid,
            origination: origin,
        };
        if self.is_replay(pos) {
            self.current.graph.set_task(tid, task);
            assert(self@ =~= with_graph(
                before,
                GraphView {
                    tasks: before.current.graph.tasks.push((task, tid)),
                    ..before.current.graph
                },
            ));
            assert(self@.states == before.states);
            self.process_event(pos, &kind);
            return ;
        }
        let ghost k = kind@;
        proof {
            lemma_comes_next(before, pos, k);
            lemma_with_label(before.current.graph, pos, k);
        }
        self.add_to_graph(pos, kind);
        let ghost mid = self@;
        self.current.graph.set_task(tid, task);
        assert(self@ =~= with_graph(
            mid,
            GraphView { tasks: mid.current.graph.tasks.push((task, tid)), ..mid.current.graph },
        ));
        assert(self@.states == mid.states);
        proof {
            let log = log_of(self@);
            assert(log == log_of(mid));
            assert(!in_log(log, first_event(tid)));
            lemma_size_of_next(log, first_event(tid));
        }
        self.add_to_graph(
            Event::new(tid, 0),
            LabelKind::Begin { parent: Some(pos), sym_id: sym_cid },
        );
    }

    /// The result of thread `t`, if it has ended.
    fn end_value(&self, t: ThreadId) -> (r: Option<Val>)
        ensures
            r == thread_result(log_of(self@), t),
    {
        match self.current.graph.thread_last(t) {
            Some(l) => match &l.kind {
                LabelKind::End { result } => Some(*result),
                _ => None,
            },
            None => None,
        }
    }

    /// A join with thread `cid`. Returns the result of the thread, or waits for it.
    pub fn handle_tjoin(&mut self, pos: Event, cid: ThreadId) -> (r: Option<Val>)
        requires
            old(self).wf(),
            performable(old(self)@, pos, KindView::TJoin { cid }),
        ensures
            final(self).wf(),
            in_log(log_of(old(self)@), pos) ==> final(self)@ == replayed(
                old(self)@,
                pos,
                KindView::TJoin { cid },
            ) && r == thread_result(log_of(final(self)@), cid),
            !in_log(log_of(old(self)@), pos) ==> (if thread_complete(log_of(old(self)@), cid) {
                final(self)@ == added(old(self)@, pos, KindView::TJoin { cid }) && r
                    == thread_result(log_of(final(self)@), cid)
            } else {
                final(self)@ == added(
                    old(self)@,
                    pos,
                    KindView::Block { btype: BlockType::Join(cid) },
                ) && r is None
            }),
    {
        let ghost before = self@;
        let kind = LabelKind::TJoin { cid };
        if self.is_replay(pos) {
            self.process_event(pos, &kind);
            return self.end_value(cid);
        }
        if self.current.graph.is_thread_complete(cid) {
            proof {
                lemma_comes_next(before, pos, kind@);
            }
            self.add_to_graph(pos, kind);
            self.end_value(cid)
        } else {
            let block = LabelKind::Block { btype: BlockType::Join(cid) };
            proof {
                lemma_comes_next(before, pos, block@);
            }
            self.add_to_graph(pos, block);
            None
        }
    }

    /// An event without alternatives: it is recorded, or executed again.
    fn handle_plain(&mut self, pos: Event, kind: LabelKind)
        requires
            old(self).wf(),
            performable(old(self)@, pos, kind@),
        ensures
            final(self).wf(),
            in_log(log_of(old(self)@), pos) ==> final(self)@ == replayed(old(self)@, pos, kind@),
            !in_log(log_of(old(self)@), pos) ==> final(self)@ == added(old(self)@, pos, kind@),
    {
        let ghost before = self@;
        if self.is_replay(pos) {
            self.process_event(pos, &kind);
            return ;
        }
        proof {
            lemma_comes_next(before, pos, kind@);
        }
        self.add_to_graph(pos, kind);
    }

    /// The end of a thread.
    pub fn handle_tend(&mut self, pos: Event, result: Val)
        requires
            old(self).wf(),
            performable(old(self)@, pos, KindView::End { result }),
        ensures
            final(self).wf(),
            in_log(log_of(old(self)@), pos) ==> final(self)@ == replayed(
                old(self)@,
                pos,
                KindView::End { result },
            ),
            !in_log(log_of(old(self)@), pos) ==> final(self)@ == added(
                old(self)@,
                pos,
                KindView::End { result },
            ),
    {
        self.handle_plain(pos, LabelKind::End { result })
    }

    /// The creation of a channel.
    pub fn handle_unique(&mut self, pos: Event, chan: Loc) -> (r: Loc)
        requires
            old(self).wf(),
            performable(old(self)@, pos, KindView::Unique { loc: chan }),
        ensures
            final(self).wf(),
            r == chan,
            in_log(log_of(old(self)@), pos) ==> final(self)@ == replayed(
                old(self)@,
                pos,
                KindView::Unique { loc: chan },
            ),
            !in_log(log_of(old(self)@), pos) ==> final(self)@ == added(
                old(self)@,
                pos,
                KindView::Unique { loc: chan },
            ),
    {
        self.handle_plain(pos, LabelKind::Unique { loc: chan });
        chan
    }

    /// A thread that the program blocks.
    pub fn handle_block(&mut self, pos: Event, btype: BlockType)
        requires
            old(self).wf(),
            performable(old(self)@, pos, KindView::Block { btype }),
        ensures
            final(self).wf(),
            in_log(log_of(old(self)@), pos) ==> final(self)@ == replayed(
                old(self)@,
                pos,
                KindView::Block { btype },
            ),
            !in_log(log_of(old(self)@), pos) ==> final(self)@ == added(
                old(self)@,
                pos,
                KindView::Block { btype },
            ),
    {
        self.handle_plain(pos, LabelKind::Block { btype })
    }

    /// Records a new choice, with a revisit for its other alternatives if `revisit`.
    fn add_choice(&mut self, pos: Event, kind: LabelKind, revisit: bool)
        requires
            old(self).wf(),
            comes_next(old(self)@, pos),
            has_alternatives(kind@),
        ensures
            final(self).wf(),
            final(self)@ == choice_added(old(self)@, pos, kind@, revisit),
    {
        let ghost before = self@;
        let ghost k = kind@;
        proof {
            lemma_comes_next(before, pos, k);
        }
        let stamp = self.current.graph.stamp();
        self.add_to_graph(pos, kind);
        if revisit {
            proof {
                lemma_revisit_ok(self@, stamp, forward_to(pos, init_event()));
            }
            self.push_revisit(stamp, RevisitEnum::new_forward(pos, Event::new_init()));
        }
    }

    /// Records a new choice as decided among `alternatives`.
    fn add_picked(&mut self, pos: Event, kind: LabelKind, picked: LabelKind, alternatives: u64)
        requires
            old(self).wf(),
            comes_next(old(self)@, pos),
            has_alternatives(kind@),
            has_alternatives(picked@),
            !(kind@ is Send),
        ensures
            final(self).wf(),
            final(self)@ == choice_picked(old(self)@, pos, kind@, picked@, alternatives),
    {
        let ghost before = self@;
        let ghost k = kind@;
        proof {
            lemma_comes_next(before, pos, k);
        }
        self.add_to_graph(pos, kind);
        let ghost w = self@;
        self.estimates.push(alternatives);
        proof {
            lemma_with_kind_ok(w, pos, picked@);
            assert(self@.current == w.current);
            assert(self@.states =~= w.states);
        }
        self.current.graph.set_kind(pos, picked);
        proof {
            assert(self@ =~= choice_picked(before, pos, k, picked@, alternatives));
            let u = with_graph(w, with_kind(w.current.graph, pos, picked@));
            assert(self@.states == u.states);
            assert(self@.current == u.current);
        }
    }

    /// Executes the recorded choice `pos` again. Returns what it did.
    fn repeat_choice(&mut self, pos: Event, kind: &LabelKind) -> (k: LabelKind)
        requires
            old(self).wf(),
            replayable(old(self)@, pos, kind@),
            kind@ is CToss || kind@ is Choice || kind@ is Sample,
        ensures
            final(self).wf(),
            final(self)@ == replayed(old(self)@, pos, kind@),
            k@ == label_at(log_of(final(self)@), pos).kind,
            same_shape(k@, kind@),
    {
        self.process_event(pos, kind);
        self.current.graph.label(pos).kind.clone()
    }

    /// Records a new choice: as `picked`, one of `alternatives`, while the number of
    /// executions is estimated, else with a revisit for the others if `revisit`.
    /// Returns whether it was picked.
    fn decide(
        &mut self,
        pos: Event,
        kind: LabelKind,
        revisit: bool,
        picked: LabelKind,
        alternatives: u64,
    ) -> (estimated: bool)
        requires
            old(self).wf(),
            comes_next(old(self)@, pos),
            has_alternatives(kind@),
            has_alternatives(picked@),
            !(kind@ is Send),
        ensures
            final(self).wf(),
            estimated == (old(self)@.config.mode is Estimation),
            estimated ==> final(self)@ == choice_picked(
                old(self)@,
                pos,
                kind@,
                picked@,
                alternatives,
            ),
            !estimated ==> final(self)@ == choice_added(old(self)@, pos, kind@, revisit),
    {
        if self.config.mode == ExplorationMode::Estimation {
            self.add_picked(pos, kind, picked, alternatives);
            true
        } else {
            self.add_choice(pos, kind, revisit);
            false
        }
    }

    /// A coin toss; `toss` decides while the number of executions is estimated.
    pub fn handle_ctoss_with(&mut self, pos: Event, toss: bool) -> (r: bool)
        requires
            old(self).wf(),
            performable(old(self)@, pos, KindView::CToss { result: maximal_toss() }),
        ensures
            final(self).wf(),
            ({
                let kind = KindView::CToss { result: maximal_toss() };
                if in_log(log_of(old(self)@), pos) {
                    final(self)@ == replayed(old(self)@, pos, kind) && label_at(
                        log_of(final(self)@),
                        pos,
                    ).kind == (KindView::CToss { result: r })
                } else if old(self)@.config.mode is Estimation {
                    final(self)@ == choice_picked(
                        old(self)@,
                        pos,
                        kind,
                        KindView::CToss { result: toss },
                        2,
                    ) && r == toss
                } else {
                    final(self)@ == choice_added(old(self)@, pos, kind, true) && r
                        == maximal_toss()
                }
            }),
    {
        let kind = LabelKind::CToss { result: true };
        let picked = LabelKind::CToss { result: toss };
        let ghost view = KindView::CToss { result: maximal_toss() };
        assert(kind@ == view);
        assert(picked@ == (KindView::CToss { result: toss }));
        if self.is_replay(pos) {
            let done = self.repeat_choice(pos, &kind);
            assert(self@ == replayed(old(self)@, pos, view));
            match done {
                LabelKind::CToss { result } => result,
                _ => true,
            }
        } else {
            let estimated = self.decide(pos, kind, true, picked, 2);
            if estimated {
                toss
            } else {
                true
            }
        }
    }

    /// A coin toss, by chance while the number of executions is estimated.
    pub fn handle_ctoss(&mut self, pos: Event) -> (r: bool)
        requires
            old(self).wf(),
            performable(old(self)@, pos, KindView::CToss { result: maximal_toss() }),
        ensures
            final(self).wf(),
            ({
                let kind = KindView::CToss { result: maximal_toss() };
                if in_log(log_of(old(self)@), pos) {
                    final(self)@ == replayed(old(self)@, pos, kind) && label_at(
                        log_of(final(self)@),
                        pos,
                    ).kind == (KindView::CToss { result: r })
                } else if old(self)@.config.mode is Estimation {
                    final(self)@ == choice_picked(
                        old(self)@,
                        pos,
                        kind,
                        KindView::CToss { result: r },
                        2,
                    )
                } else {
                    final(self)@ == choice_added(old(self)@, pos, kind, true) && r
                        == maximal_toss()
                }
            }),
    {
        let toss = self.config.mode == ExplorationMode::Estimation && random_between(0, 1) == 0;
        self.handle_ctoss_with(pos, toss)
    }

    /// A choice from `start` to `end`; `pick` decides while the number of executions
    /// is estimated.
    pub fn handle_choice_with(
        &mut self,
        pos: Event,
        start: usize,
        end: usize,
        pick: usize,
    ) -> (r: usize)
        requires
            old(self).wf(),
            start <= end,
            start <= pick <= end,
            end - start < u64::MAX,
            performable(old(self)@, pos, KindView::Choice { start, end, result: start }),
        ensures
            final(self).wf(),
            ({
                let kind = KindView::Choice { start, end, result: start };
                if in_log(log_of(old(self)@), pos) {
                    final(self)@ == replayed(old(self)@, pos, kind) && (label_at(
                        log_of(final(self)@),
                        pos,
                    ).kind matches KindView::Choice { result, .. } && result == r)
                } else if old(self)@.config.mode is Estimation {
                    final(self)@ == choice_picked(
                        old(self)@,
                        pos,
                        kind,
                        KindView::Choice { start, end, result: pick },
                        (end - start + 1) as u64,
                    ) && r == pick
                } else {
                    final(self)@ == choice_added(old(self)@, pos, kind, start < end) && r == start
                }
            }),
    {
        let kind = LabelKind::Choice { start, end, result: start };
        let picked = LabelKind::Choice { start, end, result: pick };
        assert(kind@ == (KindView::Choice { start, end, result: start }));
        assert(picked@ == (KindView::Choice { start, end, result: pick }));
        if self.is_replay(pos) {
            return match self.repeat_choice(pos, &kind) {
                LabelKind::Choice { result, .. } => result,
                _ => start,
            };
        }
        let alternatives = (end - start) as u64 + 1;
        if self.decide(pos, kind, start < end, picked, alternatives) {
            pick
        } else {
            start
        }
    }

    /// A choice from `start` to `end`, by chance while the number of executions is
    /// estimated.
    pub fn handle_choice(&mut self, pos: Event, start: usize, end: usize) -> (r: usize)
        requires
            old(self).wf(),
            start <= end,
            end - start < u64::MAX,
            performable(old(self)@, pos, KindView::Choice { start, end, result: start }),
        ensures
            final(self).wf(),
            ({
                let kind = KindView::Choice { start, end, result: start };
                if in_log(log_of(old(self)@), pos) {
                    final(self)@ == replayed(old(self)@, pos, kind) && (label_at(
                        log_of(final(self)@),
                        pos,
                    ).kind matches KindView::Choice { result, .. } && result == r)
                } else if old(self)@.config.mode is Estimation {
                    start <= r <= end && final(self)@ == choice_picked(
                        old(self)@,
                        pos,
                        kind,
                        KindView::Choice { start, end, result: r },
                        (end - start + 1) as u64,
                    )
                } else {
                    final(self)@ == choice_added(old(self)@, pos, kind, start < end) && r == start
                }
            }),
    {
        let pick = if self.config.mode == ExplorationMode::Estimation {
            random_between(start, end)
        } else {
            start
        };
        self.handle_choice_with(pos, start, end, pick)
    }

    /// A sample: `first`, and `rest` in revisits, of a distribution of which
    /// `max_samples` are to be visited.
    pub fn handle_sample(
        &mut self,
        pos: Event,
        first: u64,
        rest: Vec<u64>,
        max_samples: usize,
    ) -> (r: u64)
        requires
            old(self).wf(),
            max_samples > 0,
            performable(old(self)@, pos, KindView::Sample { current: first, rest: rest@ }),
        ensures
            final(self).wf(),
            ({
                let kind = KindView::Sample { current: first, rest: rest@ };
                if in_log(log_of(old(self)@), pos) {
                    final(self)@ == replayed(old(self)@, pos, kind) && (label_at(
                        log_of(final(self)@),
                        pos,
                    ).kind matches KindView::Sample { current, .. } && current == r)
                } else {
                    final(self)@ == choice_added(old(self)@, pos, kind, max_samples > 1) && r
                        == first
                }
            }),
    {
        let ghost words = rest@;
        let kind = LabelKind::Sample { current: first, rest };
        assert(kind@ == (KindView::Sample { current: first, rest: words }));
        if self.is_replay(pos) {
            return match self.repeat_choice(pos, &kind) {
                LabelKind::Sample { current, .. } => current,
                _ => first,
            };
        }
        self.add_choice(pos, kind, max_samples > 1);
        first
    }
}

/// What `position` finds is the place.
proof fn lemma_place_of(locs: Seq<Loc>, loc: Loc, r: Option<usize>, n: nat)
    requires
        n <= locs.len(),
        locs.len() <= usize::MAX,
        r is Some == locs.contains(loc),
        r matches Some(i) ==> i < locs.len() && locs[i as int] == loc && forall|j: int|
            0 <= j < i ==> locs[j] != loc,
    ensures
        place_of(locs, loc, n) == (match r {
            Some(i) => if i < n {
                Some(i)
            } else {
                None
            },
            None => None,
        }),
    decreases n,
{
    if n > 0 {
        lemma_place_of(locs, loc, r, (n - 1) as nat);
        if locs[n - 1] == loc {
            assert(locs.contains(loc));
        }
    }
}

} // verus!
