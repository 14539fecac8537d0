//! Which earlier receives a new send can be made to reach.

use crate::cons::{
    addressed, canonical_set, inbox_readable, lemma_offers, lemma_rfs, normalized, offers_of,
    owner_of, revisit_readable, rfs_of, stamp_of, with_event, Consistency,
};
use crate::event::Event;
use crate::event_label::{events_equal, KindView, Label, LabelKind, LabelView};
use crate::exec_graph::{
    comes_before, in_log, index_of, is_dropped, label_at, lemma_index_of, lemma_survivors,
    restricted, stays_from, survives, GraphView,
};
use crate::loc::{RecvLoc, RecvPredicate};
use crate::must::visit::{as_rfs, prefix_symmetric, sym_of};
use crate::must::{
    has_alternatives, lemma_revisit_ok, log_of, must_ok, sent_by, Must, MustView, StateView,
};
use crate::revisit::{
    all_containing, pushed, sends_of, sets_view, PlacementView, Revisit, RevisitEnum, RevisitView,
};
use crate::vector_clock::VectorClock;
use vstd::prelude::*;

verus! {

/// Whether `l` reads a send that is newer than itself and would be deleted by a
/// revisit of `rev_pos` to `sends`.
pub open spec fn reads_deleted(
    log: Seq<LabelView>,
    l: LabelView,
    rev_pos: Event,
    sends: Seq<Event>,
) -> bool {
    exists|f: Event| #[trigger]
        l.reads(f) && in_log(log, f) && stamp_of(log, f) > l.stamp && stamp_of(log, f) > stamp_of(
            log,
            rev_pos,
        ) && !comes_before(log, sends, f)
}

/// What the receive labelled `l` reads when nothing is decided for it, given the
/// log up to and including it.
pub open spec fn first_choice<P: RecvPredicate>(
    log: Seq<LabelView>,
    locs: Seq<RecvLoc<P>>,
    l: LabelView,
    monitor: bool,
) -> Option<Event> {
    match l.kind {
        KindView::Recv { loc, blocking, .. } => {
            let rfs = rfs_of(log, locs, loc, l.pos, monitor);
            if blocking && rfs.len() > 0 {
                Some(rfs[0])
            } else {
                None
            }
        },
        _ => None,
    }
}

/// Whether the receive or inbox at place `i` reads what it reads when nothing is
/// decided for it.
pub open spec fn reads_first<P: RecvPredicate>(v: MustView<P>, i: int) -> bool {
    let log = log_of(v);
    let l = log[i];
    match l.kind {
        KindView::Recv { rf, .. } => rf == first_choice(
            log.take(i + 1),
            v.locs,
            l,
            v.monitors.contains(l.pos.thread),
        ),
        KindView::Inbox { loc, min, max, rfs, .. } => rfs == as_rfs(
            canonical_set(offers_of(log.take(i + 1), v.locs, loc, l.pos, false), min, max),
        ),
        _ => true,
    }
}

/// Whether the receive or inbox labelled `l` may still be revisited.
pub open spec fn is_revisitable(l: LabelView) -> bool {
    match l.kind {
        KindView::Recv { revisitable, .. } => revisitable,
        KindView::Inbox { revisitable, .. } => revisitable,
        _ => true,
    }
}

/// Whether the receive or inbox at place `i` was extended without a decision, as
/// far as a revisit of `rev_pos` to `sends` goes.
pub open spec fn maximal_read<P: RecvPredicate>(
    v: MustView<P>,
    i: int,
    rev_pos: Event,
    sends: Seq<Event>,
) -> bool {
    !reads_deleted(log_of(v), log_of(v)[i], rev_pos, sends) && is_revisitable(log_of(v)[i])
        && reads_first(v, i)
}

/// The outcome of a coin toss that is visited first.
pub open spec fn maximal_toss() -> bool {
    true
}

/// Whether the event at place `i` took the alternative under which a revisit that
/// deletes it is made.
pub open spec fn maximal_label<P: RecvPredicate>(
    v: MustView<P>,
    i: int,
    rev_pos: Event,
    sends: Seq<Event>,
) -> bool {
    match log_of(v)[i].kind {
        KindView::Recv { .. } => maximal_read(v, i, rev_pos, sends),
        KindView::Inbox { .. } => maximal_read(v, i, rev_pos, sends),
        KindView::CToss { result } => result == maximal_toss(),
        KindView::Send { dropped, .. } => !dropped,
        KindView::Choice { end, result, .. } => result == end,
        _ => true,
    }
}

/// Whether all events that a revisit of `rev_pos` to `sends` deletes took the
/// alternative under which it is made.
pub open spec fn maximal_extension<P: RecvPredicate>(
    v: MustView<P>,
    rev_pos: Event,
    sends: Seq<Event>,
) -> bool {
    forall|i: int|
        0 <= i < log_of(v).len() && !survives(
            log_of(v),
            stamp_of(log_of(v), rev_pos),
            sends,
            #[trigger] log_of(v)[i],
        ) ==> maximal_label(v, i, rev_pos, sends)
}

/// Whether the receive or inbox labelled `l` takes the message that `s` sent.
pub open spec fn accepts_send<P: RecvPredicate>(
    v: MustView<P>,
    l: LabelView,
    s: LabelView,
) -> bool {
    match l.kind {
        KindView::Recv { loc, .. } => addressed(
            v.locs,
            loc,
            l.pos.thread,
            v.monitors.contains(l.pos.thread),
            s,
        ),
        KindView::Inbox { loc, .. } => addressed(v.locs, loc, l.pos.thread, false, s),
        _ => false,
    }
}

/// The sends among the first `n` labels that an inbox could take, sorted.
pub open spec fn inbox_sends<P: RecvPredicate>(
    v: MustView<P>,
    loc: usize,
    reader: Event,
    n: nat,
) -> Seq<Event>
    decreases n,
{
    if n == 0 {
        Seq::empty()
    } else {
        let before = inbox_sends(v, loc, reader, (n - 1) as nat);
        let l = log_of(v)[n - 1];
        if addressed(v.locs, loc, reader.thread, false, l) && !is_dropped(l) {
            with_event(before, l.pos)
        } else {
            before
        }
    }
}

/// Whether an inbox with limit `max` takes `n` messages.
pub open spec fn has_room(max: Option<usize>, n: nat) -> bool {
    max matches Some(m) ==> n <= m
}

/// How many messages an inbox has read.
pub open spec fn read_count(rfs: Option<Seq<Event>>) -> nat {
    match rfs {
        Some(es) => es.len(),
        None => 0,
    }
}

/// Whether the inbox at place `i` is to be revisited by `set`, whose newest send is
/// `send`.
pub open spec fn inbox_revisit<P: RecvPredicate>(
    v: MustView<P>,
    i: int,
    send: Event,
    set: Seq<Event>,
) -> bool {
    let l = log_of(v)[i];
    match l.kind {
        KindView::Inbox { loc, min, max, .. } => {
            &&& set.len() >= min
            &&& has_room(max, set.len())
            &&& owner_of(log_of(v), set) == Some(send)
            &&& inbox_readable(v.current.graph, v.locs, loc, l, set)
            &&& maximal_read(v, i, l.pos, set)
            &&& maximal_extension(v, l.pos, set)
        },
        _ => false,
    }
}

/// The revisits of the inbox at place `i` by one of the first `n` sets.
pub open spec fn inbox_revisits<P: RecvPredicate>(
    v: MustView<P>,
    i: int,
    send: Event,
    sets: Seq<Seq<Event>>,
    n: nat,
) -> Seq<RevisitView>
    decreases n,
{
    if n == 0 {
        Seq::empty()
    } else {
        let before = inbox_revisits(v, i, send, sets, (n - 1) as nat);
        let set = normalized(sets[n - 1], sets[n - 1].len());
        if inbox_revisit(v, i, send, set) {
            before.push(
                RevisitView {
                    backward: true,
                    pos: log_of(v)[i].pos,
                    rev: PlacementView::Inbox(set),
                },
            )
        } else {
            before
        }
    }
}

/// The sets by which the inbox at place `i` could be revisited.
pub open spec fn inbox_sets<P: RecvPredicate>(
    v: MustView<P>,
    loc: usize,
    reader: Event,
    send: Event,
) -> Seq<Seq<Event>> {
    all_containing(with_event(inbox_sends(v, loc, reader, log_of(v).len()), send), send)
}

/// The revisits by `send` of the receives among the first `n` labels, from the
/// newest receive on. A receive that did not extend the graph without a decision
/// ends the search.
pub open spec fn revisits_from<P: RecvPredicate>(v: MustView<P>, send: Event, n: nat) -> Seq<
    RevisitView,
>
    decreases n,
{
    if n == 0 {
        Seq::empty()
    } else {
        let log = log_of(v);
        let l = log[n - 1];
        let rest = revisits_from(v, send, (n - 1) as nat);
        if !accepts_send(v, l, label_at(log, send)) || comes_before(log, seq![send], l.pos) {
            rest
        } else {
            match l.kind {
                KindView::Recv { loc, .. } => if !maximal_read(v, n - 1, l.pos, seq![send]) {
                    Seq::empty()
                } else if revisit_readable(
                    v.current.graph,
                    v.locs,
                    loc,
                    l,
                    v.monitors.contains(l.pos.thread),
                    seq![send],
                    send,
                ) && maximal_extension(v, l.pos, seq![send]) {
                    seq![
                        RevisitView {
                            backward: true,
                            pos: l.pos,
                            rev: PlacementView::Default(send),
                        },
                    ] + rest
                } else {
                    rest
                },
                KindView::Inbox { loc, max, rfs, .. } => if !has_room(max, read_count(rfs) + 1) {
                    rest
                } else if !maximal_read(v, n - 1, l.pos, seq![send]) {
                    Seq::empty()
                } else {
                    let sets = inbox_sets(v, loc, l.pos, send);
                    inbox_revisits(v, n - 1, send, sets, sets.len()) + rest
                },
                _ => rest,
            }
        }
    }
}

/// The worklist with the first `n` of `revs`.
pub open spec fn with_revisits(
    queue: Seq<(usize, RevisitView)>,
    stamp: usize,
    revs: Seq<RevisitView>,
    n: nat,
) -> Seq<(usize, RevisitView)>
    decreases n,
{
    if n == 0 {
        queue
    } else {
        pushed(with_revisits(queue, stamp, revs, (n - 1) as nat), stamp, revs[n - 1])
    }
}

/// Whether an inbox among the labels takes the message of `send`.
pub open spec fn inbox_waits<P: RecvPredicate>(v: MustView<P>, send: Event) -> bool {
    exists|i: int|
        0 <= i < log_of(v).len() && (#[trigger] log_of(v)[i]).is_inbox() && accepts_send(
            v,
            log_of(v)[i],
            label_at(log_of(v), send),
        )
}

/// Whether `send` needs no revisits, because its thread does what its double did.
pub open spec fn is_symmetric_send<P: RecvPredicate>(v: MustView<P>, send: Event) -> bool {
    v.config.symmetry && (sym_of(log_of(v), send.thread) matches Some(sym) && prefix_symmetric(
        log_of(v),
        sym,
        send,
    )) && !inbox_waits(v, send)
}

/// The exploration after the revisits by the new event `send` were noted.
pub open spec fn revisits_noted<P: RecvPredicate>(v: MustView<P>, send: Event) -> MustView<P> {
    if is_symmetric_send(v, send) {
        v
    } else {
        let revs = revisits_from(v, send, log_of(v).len());
        MustView {
            current: StateView {
                rqueue: with_revisits(
                    v.current.rqueue,
                    label_at(log_of(v), send).stamp,
                    revs,
                    revs.len(),
                ),
                ..v.current
            },
            ..v
        }
    }
}

/// Whether a revisit goes backward, from a receive to sends of the log.
pub open spec fn backward_ok(log: Seq<LabelView>, r: RevisitView) -> bool {
    &&& r.backward
    &&& in_log(log, r.pos)
    &&& has_alternatives(label_at(log, r.pos).kind)
    &&& forall|i: int|
        0 <= i < sends_of(r.rev).len() ==> in_log(log, #[trigger] sends_of(r.rev)[i]) && label_at(
            log,
            sends_of(r.rev)[i],
        ).kind is Send
}

/// What can be read after a revisit is a send of the log.
proof fn lemma_readable_send<P: RecvPredicate>(
    g: GraphView,
    locs: Seq<RecvLoc<P>>,
    loc: usize,
    r: LabelView,
    monitor: bool,
    sends: Seq<Event>,
    send: Event,
)
    requires
        crate::exec_graph::graph_wf(g),
        revisit_readable(g, locs, loc, r, monitor, sends, send),
    ensures
        in_log(g.log, send),
        label_at(g.log, send).kind is Send,
{
    let rest = restricted(g, r.stamp, sends).log;
    lemma_rfs(rest, locs, loc, r.pos, monitor, rest.len());
    let rfs = rfs_of(rest, locs, loc, r.pos, monitor);
    let i = choose|i: int| 0 <= i < rfs.len() && rfs[i] == send;
    let k = choose|k: int|
        0 <= k < rest.len() && (#[trigger] rest[k]).pos == rfs[i] && crate::cons::readable(
            rest,
            locs,
            loc,
            r.pos,
            monitor,
            rest[k],
        );
    lemma_survivors(g.log, r.stamp, sends, g.log.len());
    assert(stays_from(g.log, r.stamp, sends, g.log.len(), rest[k]));
    let m = choose|m: int| 0 <= m < g.log.len() && rest[k] == #[trigger] g.log[m];
    lemma_index_of(g.log, m);
}

/// What an inbox can read after a revisit are sends of the log.
proof fn lemma_inbox_sends<P: RecvPredicate>(
    g: GraphView,
    locs: Seq<RecvLoc<P>>,
    loc: usize,
    l: LabelView,
    sends: Seq<Event>,
)
    requires
        crate::exec_graph::graph_wf(g),
        inbox_readable(g, locs, loc, l, sends),
    ensures
        forall|k: int|
            0 <= k < sends.len() ==> in_log(g.log, #[trigger] sends[k]) && label_at(
                g.log,
                sends[k],
            ).kind is Send,
{
    let rest = restricted(g, l.stamp, sends).log;
    let offers = offers_of(rest, locs, loc, l.pos, false);
    crate::exec_graph::lemma_restricted(g, l.stamp, sends);
    lemma_offers(rest, locs, loc, l.pos, false, rest.len());
    assert forall|k: int| 0 <= k < sends.len() implies in_log(g.log, #[trigger] sends[k])
        && label_at(g.log, sends[k]).kind is Send by {
        let i = choose|i: int| 0 <= i < offers.len() && offers[i] == sends[k];
        assert(in_log(rest, offers[i]));
    }
}

impl<P: RecvPredicate> Must<P> {
    /// Whether the event `f` is read by a label with stamp `stamp`, although newer,
    /// and would be deleted by a revisit of `rev_pos` that keeps `prefix`.
    fn is_deleted(
        &self,
        f: Event,
        stamp: usize,
        rev_stamp: usize,
        prefix: &VectorClock,
    ) -> (b: bool)
        requires
            self.wf(),
            prefix.wf(),
        ensures
            b == (in_log(log_of(self@), f) && stamp_of(log_of(self@), f) > stamp && stamp_of(
                log_of(self@),
                f,
            ) > rev_stamp && !crate::vector_clock::covers(prefix@, f)),
    {
        match self.current.graph.label_opt(f) {
            Some(l) => l.stamp > stamp && l.stamp > rev_stamp && !prefix.contains(f),
            None => false,
        }
    }

    /// Whether `l` reads a newer send that a revisit of `rev` would delete.
    pub fn revisited_by_deleted(&self, l: &Label, rev: &Revisit) -> (b: bool)
        requires
            self.wf(),
        ensures
            b == reads_deleted(log_of(self@), l@, rev.pos, sends_of(rev.rev@)),
    {
        let ghost log = log_of(self@);
        let sends = rev.sends();
        let prefix = self.current.graph.porf(&sends);
        let rev_stamp = match self.current.graph.label_opt(rev.pos) {
            Some(r) => r.stamp,
            None => 0,
        };
        match &l.kind {
            LabelKind::Recv { rf, .. } => match rf {
                Some(f) => {
                    let b = self.is_deleted(*f, l.stamp, rev_stamp, &prefix);
                    proof {
                        assert(crate::vector_clock::covers(prefix@, *f) <==> comes_before(
                            log,
                            sends@,
                            *f,
                        ));
                        if b {
                            assert(l@.reads(*f));
                        }
                    }
                    b
                },
                None => false,
            },
            LabelKind::Inbox { rfs, .. } => match rfs {
                Some(fs) => {
                    let mut i: usize = 0;
                    while i < fs.len()
                        invariant
                            self.wf(),
                            log == log_of(self@),
                            prefix.wf(),
                            forall|x: Event| #[trigger]
                                crate::vector_clock::covers(prefix@, x) <==> comes_before(
                                    log,
                                    sends@,
                                    x,
                                ),
                            sends@ == sends_of(rev.rev@),
                            rev_stamp == stamp_of(log, rev.pos),
                            l@.kind is Inbox,
                            l@.kind->Inbox_rfs == Some(fs@),
                            i <= fs.len(),
                            forall|k: int|
                                0 <= k < i ==> !(in_log(log, #[trigger] fs@[k]) && stamp_of(
                                    log,
                                    fs@[k],
                                ) > l@.stamp && stamp_of(log, fs@[k]) > rev_stamp && !comes_before(
                                    log,
                                    sends@,
                                    fs@[k],
                                )),
                        decreases fs.len() - i,
                    {
                        let f = fs[i];
                        assert(crate::vector_clock::covers(prefix@, f) <==> comes_before(
                            log,
                            sends@,
                            f,
                        ));
                        if self.is_deleted(f, l.stamp, rev_stamp, &prefix) {
                            assert(fs@[i as int] == f);
                            assert(fs@.contains(f));
                            assert(l@.reads(f));
                            return true;
                        }
                        i += 1;
                    }
                    assert forall|f: Event| #[trigger] l@.reads(f) implies !(in_log(log, f)
                        && stamp_of(log, f) > l@.stamp && stamp_of(log, f) > rev_stamp
                        && !comes_before(log, sends@, f)) by {
                        let k = choose|k: int| 0 <= k < fs@.len() && fs@[k] == f;
                        assert(fs@[k] == f);
                    }
                    false
                },
                None => false,
            },
            _ => false,
        }
    }

    /// Whether the receive or inbox at place `i` reads what it reads when nothing is
    /// decided for it.
    pub fn reads_tiebreaker(&self, i: usize) -> (b: bool)
        requires
            self.wf(),
            i < log_of(self@).len(),
        ensures
            b == reads_first(self@, i as int),
    {
        let n = self.current.graph.len();
        assert(i < n);
        let l = self.current.graph.label_in(i);
        match &l.kind {
            LabelKind::Recv { loc, blocking, rf, .. } => {
                if !*blocking {
                    return rf.is_none();
                }
                let before = self.current.graph.prefix(i + 1);
                let rfs = self.checker.rfs(&before, &self.locs, *loc, l.pos, self.is_monitor(l.pos));
                let first = if rfs.len() > 0 {
                    Some(rfs[0])
                } else {
                    None
                };
                *rf == first
            },
            LabelKind::Inbox { loc, min, max, rfs: read, .. } => {
                if *min == 0 {
                    return read.is_none();
                }
                let before = self.current.graph.prefix(i + 1);
                let mut rfs = self.checker.inbox_rfs(&before, &self.locs, *loc, l.pos);
                let ghost all = rfs@;
                let upper = match max {
                    Some(m) => if *m < rfs.len() {
                        *m
                    } else {
                        rfs.len()
                    },
                    None => rfs.len(),
                };
                rfs.truncate(upper);
                assert(rfs@ =~= canonical_set(all, *min, *max));
                match read {
                    Some(es) => rfs.len() > 0 && events_equal(es, &rfs),
                    None => rfs.len() == 0,
                }
            },
            _ => true,
        }
    }

    /// Whether the receive or inbox at place `i` was extended without a decision.
    pub fn is_maximal_recv(&self, i: usize, rev: &Revisit) -> (b: bool)
        requires
            self.wf(),
            i < log_of(self@).len(),
        ensures
            b == maximal_read(self@, i as int, rev.pos, sends_of(rev.rev@)),
    {
        let l = self.current.graph.label_in(i);
        let revisitable = match &l.kind {
            LabelKind::Recv { revisitable, .. } => *revisitable,
            LabelKind::Inbox { revisitable, .. } => *revisitable,
            _ => true,
        };
        !self.revisited_by_deleted(l, rev) && revisitable && self.reads_tiebreaker(i)
    }

    /// Whether the event at place `i` took the alternative under which a revisit
    /// that deletes it is made.
    pub fn is_maximal(&self, i: usize, rev: &Revisit) -> (b: bool)
        requires
            self.wf(),
            i < log_of(self@).len(),
        ensures
            b == maximal_label(self@, i as int, rev.pos, sends_of(rev.rev@)),
    {
        match &self.current.graph.label_in(i).kind {
            LabelKind::Recv { .. } => self.is_maximal_recv(i, rev),
            LabelKind::Inbox { .. } => self.is_maximal_recv(i, rev),
            LabelKind::CToss { result } => *result,
            LabelKind::Send { dropped, .. } => !*dropped,
            LabelKind::Choice { end, result, .. } => *result == *end,
            _ => true,
        }
    }

    /// Whether all events that a revisit deletes took the alternative under which
    /// it is made.
    pub fn is_maximal_extension(&self, rev: &Revisit) -> (b: bool)
        requires
            self.wf(),
        ensures
            b == maximal_extension(self@, rev.pos, sends_of(rev.rev@)),
    {
        let ghost log = log_of(self@);
        let sends = rev.sends();
        let prefix = self.current.graph.porf(&sends);
        let rev_stamp = match self.current.graph.label_opt(rev.pos) {
            Some(r) => r.stamp,
            None => 0,
        };
        let mut i: usize = 0;
        while i < self.current.graph.len()
            invariant
                self.wf(),
                log == log_of(self@),
                prefix.wf(),
                forall|x: Event| #[trigger]
                    crate::vector_clock::covers(prefix@, x) <==> comes_before(log, sends@, x),
                sends@ == sends_of(rev.rev@),
                rev_stamp == stamp_of(log, rev.pos),
                i <= log.len(),
                forall|k: int|
                    0 <= k < i && !survives(log, rev_stamp, sends@, #[trigger] log[k])
                        ==> maximal_label(self@, k, rev.pos, sends@),
            decreases log.len() - i,
        {
            let l = self.current.graph.label_in(i);
            assert(crate::vector_clock::covers(prefix@, l.pos) <==> comes_before(
                log,
                sends@,
                l.pos,
            ));
            if l.stamp > rev_stamp && !prefix.contains(l.pos) {
                if !self.is_maximal(i, rev) {
                    assert(!survives(log, rev_stamp, sends@, log[i as int]));
                    return false;
                }
            }
            i += 1;
        }
        true
    }

    /// Whether the receive or inbox labelled `l` takes the message that `s` sent.
    fn takes_send(&self, l: &Label, s: &Label) -> (b: bool)
        ensures
            b == accepts_send(self@, l@, s@),
    {
        let (to, tag, monitors) = match &s.kind {
            LabelKind::Send { loc, tag, monitors, .. } => (*loc, tag, monitors),
            _ => {
                return false;
            },
        };
        match &l.kind {
            LabelKind::Recv { loc, .. } => if self.is_monitor(l.pos) {
                crate::loc::thread_in(monitors, l.pos.thread)
            } else {
                *loc < self.locs.len() && self.locs[*loc].matches(to, s.pos.thread, tag)
            },
            LabelKind::Inbox { loc, .. } => *loc < self.locs.len() && self.locs[*loc].matches(
                to,
                s.pos.thread,
                tag,
            ),
            _ => false,
        }
    }

    /// Whether an inbox takes the message of `send`.
    fn has_inbox_for(&self, send: Event) -> (b: bool)
        requires
            self.wf(),
            in_log(log_of(self@), send),
        ensures
            b == inbox_waits(self@, send),
    {
        let s = self.current.graph.label(send);
        let mut i: usize = 0;
        while i < self.current.graph.len()
            invariant
                self.wf(),
                s@ == label_at(log_of(self@), send),
                i <= log_of(self@).len(),
                forall|k: int|
                    0 <= k < i ==> !((#[trigger] log_of(self@)[k]).is_inbox() && accepts_send(
                        self@,
                        log_of(self@)[k],
                        s@,
                    )),
            decreases log_of(self@).len() - i,
        {
            let l = self.current.graph.label_in(i);
            if matches!(l.kind, LabelKind::Inbox { .. }) {
                if self.takes_send(l, s) {
                    assert(log_of(self@)[i as int].is_inbox());
                    return true;
                }
            }
            i += 1;
        }
        false
    }

    /// The sends that an inbox could take, sorted.
    fn inbox_candidates(&self, loc: usize, reader: Event) -> (r: Vec<Event>)
        ensures
            r@ == inbox_sends(self@, loc, reader, log_of(self@).len()),
    {
        let mut r: Vec<Event> = Vec::new();
        let mut i: usize = 0;
        while i < self.current.graph.len()
            invariant
                i <= log_of(self@).len(),
                r@ == inbox_sends(self@, loc, reader, i as nat),
            decreases log_of(self@).len() - i,
        {
            let l = self.current.graph.label_in(i);
            if let LabelKind::Send { loc: to, tag, dropped, .. } = &l.kind {
                if loc < self.locs.len() && self.locs[loc].matches(*to, l.pos.thread, tag)
                    && !*dropped {
                    crate::cons::insert_event(&mut r, l.pos);
                }
            }
            i += 1;
        }
        r
    }

    /// Whether the inbox at place `i` is to be revisited by `set`.
    fn is_inbox_revisit(&self, i: usize, send: Event, rev: &Revisit, set: &Vec<Event>) -> (b: bool)
        requires
            self.wf(),
            i < log_of(self@).len(),
            rev.pos == log_of(self@)[i as int].pos,
            rev.rev@ == PlacementView::Inbox(set@),
        ensures
            b == inbox_revisit(self@, i as int, send, set@),
    {
        let l = self.current.graph.label_in(i);
        match &l.kind {
            LabelKind::Inbox { loc, min, max, .. } => {
                if set.len() < *min {
                    return false;
                }
                if let Some(m) = max {
                    if set.len() > *m {
                        return false;
                    }
                }
                if Consistency::inbox_owner(&self.current.graph, set) != Some(send) {
                    return false;
                }
                self.checker.is_revisit_consistent_inbox(
                    &self.current.graph,
                    &self.locs,
                    *loc,
                    l,
                    set,
                ) && self.is_maximal_recv(i, rev) && self.is_maximal_extension(rev)
            },
            _ => false,
        }
    }

    /// The revisits of the inbox at place `i`.
    fn calc_inbox_revisits(&self, i: usize, loc: usize, send: Event) -> (r: Vec<RevisitEnum>)
        requires
            self.wf(),
            i < log_of(self@).len(),
            log_of(self@)[i as int].kind is Inbox,
        ensures
            revs_view(r@) == inbox_revisits(
                self@,
                i as int,
                send,
                inbox_sets(self@, loc, log_of(self@)[i as int].pos, send),
                inbox_sets(self@, loc, log_of(self@)[i as int].pos, send).len(),
            ),
    {
        let pos = self.current.graph.label_in(i).pos;
        let mut cands = self.inbox_candidates(loc, pos);
        crate::cons::insert_event(&mut cands, send);
        let sets = crate::revisit::subsets_containing(&cands, send);
        let ghost all = sets_view(sets@);
        let mut r: Vec<RevisitEnum> = Vec::new();
        assert(revs_view(r@) =~= Seq::<RevisitView>::empty());
        let mut k: usize = 0;
        while k < sets.len()
            invariant
                self.wf(),
                i < log_of(self@).len(),
                pos == log_of(self@)[i as int].pos,
                all == sets_view(sets@),
                k <= sets.len(),
                revs_view(r@) == inbox_revisits(self@, i as int, send, all, k as nat),
            decreases sets.len() - k,
        {
            assert(all[k as int] == sets@[k as int]@);
            let set = Consistency::normalize_event_set(&sets[k]);
            let rev = Revisit::new_inbox(pos, crate::event_label::copy_events(&set));
            let ghost before = revs_view(r@);
            if self.is_inbox_revisit(i, send, &rev, &set) {
                r.push(RevisitEnum::BackwardRevisit(rev));
                assert(revs_view(r@) =~= before.push(
                    RevisitView { backward: true, pos, rev: PlacementView::Inbox(set@) },
                ));
            }
            k += 1;
        }
        r
    }

    /// The revisits by the new event `send`.
    fn find_revisits(&self, send: Event) -> (r: Vec<RevisitEnum>)
        requires
            self.wf(),
            in_log(log_of(self@), send),
        ensures
            revs_view(r@) == revisits_from(self@, send, log_of(self@).len()),
    {
        let ghost log = log_of(self@);
        let s = self.current.graph.label(send);
        let mut seeds: Vec<Event> = Vec::new();
        seeds.push(send);
        assert(seeds@ =~= seq![send]);
        let send_porf = self.current.graph.porf(&seeds);
        let mut r: Vec<RevisitEnum> = Vec::new();
        let ghost all = revisits_from(self@, send, log.len());
        assert(revs_view(r@) + all =~= all);
        let mut n: usize = self.current.graph.len();
        while n > 0
            invariant
                self.wf(),
                log == log_of(self@),
                s@ == label_at(log, send),
                send_porf.wf(),
                forall|x: Event| #[trigger]
                    crate::vector_clock::covers(send_porf@, x) <==> comes_before(
                        log,
                        seq![send],
                        x,
                    ),
                n <= log.len(),
                all == revisits_from(self@, send, log.len()),
                revs_view(r@) + revisits_from(self@, send, n as nat) == all,
            decreases n,
        {
            let l = self.current.graph.label_in(n - 1);
            assert(crate::vector_clock::covers(send_porf@, l.pos) <==> comes_before(
                log,
                seq![send],
                l.pos,
            ));
            let ghost before = revs_view(r@);
            let ghost rest = revisits_from(self@, send, (n - 1) as nat);
            if self.takes_send(l, s) && !send_porf.contains(l.pos) {
                match &l.kind {
                    LabelKind::Recv { loc, .. } => {
                        let rev = Revisit::new(l.pos, send);
                        if !self.is_maximal_recv(n - 1, &rev) {
                            assert(before + Seq::<RevisitView>::empty() =~= before);
                            return r;
                        }
                        if self.checker.is_revisit_consistent(
                            &self.current.graph,
                            &self.locs,
                            *loc,
                            l,
                            self.is_monitor(l.pos),
                            send,
                        ) && self.is_maximal_extension(&rev) {
                            r.push(RevisitEnum::BackwardRevisit(rev));
                            proof {
                                let view = RevisitView {
                                    backward: true,
                                    pos: l.pos,
                                    rev: PlacementView::Default(send),
                                };
                                assert(revs_view(r@) =~= before + seq![view]);
                                assert((before + seq![view]) + rest =~= before + (seq![view]
                                    + rest));
                            }
                        }
                    },
                    LabelKind::Inbox { loc, max, rfs, .. } => {
                        let current_size = match rfs {
                            Some(es) => es.len(),
                            None => 0,
                        };
                        let room = match max {
                            Some(m) => current_size < *m,
                            None => true,
                        };
                        if room {
                            let rev = Revisit::new_inbox(l.pos, {
                                let mut one: Vec<Event> = Vec::new();
                                one.push(send);
                                one
                            });
                            assert(sends_of(rev.rev@) =~= seq![send]);
                            if !self.is_maximal_recv(n - 1, &rev) {
                                assert(before + Seq::<RevisitView>::empty() =~= before);
                                return r;
                            }
                            let mut found = self.calc_inbox_revisits(n - 1, *loc, send);
                            let ghost more = revs_view(found@);
                            r.append(&mut found);
                            proof {
                                assert(revs_view(r@) =~= before + more);
                                assert((before + more) + rest =~= before + (more + rest));
                            }
                        }
                    },
                    _ => {},
                }
            }
            n -= 1;
        }
        assert(revs_view(r@) + Seq::<RevisitView>::empty() =~= revs_view(r@));
        r
    }

    /// Notes the revisits by the new event `send`.
    pub fn calc_revisits(&mut self, send: Event)
        requires
            old(self).wf(),
            in_log(log_of(old(self)@), send),
            label_at(log_of(old(self)@), send).kind is Send,
            log_of(old(self)@).last().pos == send,
        ensures
            final(self).wf(),
            final(self)@ == revisits_noted(old(self)@, send),
    {
        let ghost before = self@;
        let ghost log = log_of(before);
        if self.config.symmetry {
            let sym = match self.current.graph.label_opt(Event::new(send.thread, 0)) {
                Some(l) => match &l.kind {
                    LabelKind::Begin { sym_id, .. } => *sym_id,
                    _ => None,
                },
                None => None,
            };
            if self.is_prefix_symmetric(sym, send) && !self.has_inbox_for(send) {
                return ;
            }
        }
        let stamp = self.current.graph.label(send).stamp;
        let mut revs = self.find_revisits(send);
        let ghost all = revs_view(revs@);
        proof {
            lemma_revisits_ok(before, send, log.len());
            let at = index_of(log, send);
            assert(log[at].pos == send);
            lemma_index_of(log, log.len() - 1);
        }
        let mut i: usize = 0;
        while i < revs.len()
            invariant
                self.wf(),
                must_ok(before),
                log == log_of(before),
                log == log_of(self@),
                all == revs_view(revs@),
                i <= revs.len(),
                stamp == label_at(log, send).stamp,
                in_log(log, send),
                log.last().pos == send,
                log.len() > 0,
                index_of(log, send) == log.len() - 1,
                forall|k: int| 0 <= k < all.len() ==> backward_ok(log, #[trigger] all[k]),
                self@ == (MustView {
                    current: StateView {
                        rqueue: with_revisits(before.current.rqueue, stamp, all, i as nat),
                        ..before.current
                    },
                    ..before
                }),
            decreases revs.len() - i,
        {
            let rev = copy_revisit(&revs[i]);
            proof {
                assert(all[i as int] == rev@);
                assert(backward_ok(log, all[i as int]));
                lemma_newest(log, rev@.pos);
                assert forall|k: int| 0 <= k < sends_of(rev@.rev).len() implies sent_by(
                    log,
                    #[trigger] sends_of(rev@.rev)[k],
                    stamp,
                ) by {
                    lemma_newest(log, sends_of(rev@.rev)[k]);
                }
                assert(log[log.len() - 1].stamp < before.current.graph.stamp);
                lemma_revisit_ok(self@, stamp, rev@);
            }
            self.push_revisit(stamp, rev);
            i += 1;
            assert(self@ =~= MustView {
                current: StateView {
                    rqueue: with_revisits(before.current.rqueue, stamp, all, i as nat),
                    ..before.current
                },
                ..before
            });
        }
    }
}

/// The views of a list of revisits.
pub open spec fn revs_view(revs: Seq<RevisitEnum>) -> Seq<RevisitView> {
    Seq::new(revs.len(), |i: int| revs[i]@)
}

fn copy_revisit(r: &RevisitEnum) -> (c: RevisitEnum)
    ensures
        c@ == r@,
{
    match r {
        RevisitEnum::ForwardRevisit(rev) => RevisitEnum::ForwardRevisit(copy_placed(rev)),
        RevisitEnum::BackwardRevisit(rev) => RevisitEnum::BackwardRevisit(copy_placed(rev)),
    }
}

fn copy_placed(rev: &Revisit) -> (c: Revisit)
    ensures
        c.pos == rev.pos,
        c.rev@ == rev.rev@,
{
    match &rev.rev {
        crate::revisit::RevisitPlacement::Default(e) => Revisit::new(rev.pos, *e),
        crate::revisit::RevisitPlacement::Inbox(es) => Revisit::new_inbox(
            rev.pos,
            crate::event_label::copy_events(es),
        ),
    }
}

/// No event of the log is newer than the last one.
proof fn lemma_newest(log: Seq<LabelView>, e: Event)
    requires
        crate::exec_graph::log_wf(log),
        in_log(log, e),
    ensures
        label_at(log, e).stamp <= log.last().stamp,
{
    let i = index_of(log, e);
    assert(log[i].pos == e);
    if i < log.len() - 1 {
        assert(log[i].stamp < log[log.len() - 1].stamp);
    }
}

/// The revisits found go backward, from receives of the log to sends of the log.
proof fn lemma_revisits_ok<P: RecvPredicate>(v: MustView<P>, send: Event, n: nat)
    requires
        must_ok(v),
        in_log(log_of(v), send),
        label_at(log_of(v), send).kind is Send,
        n <= log_of(v).len(),
    ensures
        forall|k: int|
            0 <= k < revisits_from(v, send, n).len() ==> backward_ok(
                log_of(v),
                #[trigger] revisits_from(v, send, n)[k],
            ),
    decreases n,
{
    if n > 0 {
        let log = log_of(v);
        let l = log[n - 1];
        let rest = revisits_from(v, send, (n - 1) as nat);
        let all = revisits_from(v, send, n);
        lemma_revisits_ok(v, send, (n - 1) as nat);
        lemma_index_of(log, n - 1);
        assert forall|k: int| 0 <= k < all.len() implies backward_ok(log, #[trigger] all[k]) by {
            match l.kind {
                KindView::Recv { .. } => {
                    let one = RevisitView {
                        backward: true,
                        pos: l.pos,
                        rev: PlacementView::Default(send),
                    };
                    if all == rest {
                        assert(all[k] == rest[k]);
                    } else {
                        assert(all == seq![one] + rest);
                        if k == 0 {
                            assert(all[k] == one);
                        } else {
                            assert(all[k] == rest[k - 1]);
                        }
                    }
                },
                KindView::Inbox { loc, .. } => {
                    let sets = inbox_sets(v, loc, l.pos, send);
                    let more = inbox_revisits(v, n - 1, send, sets, sets.len());
                    if all == rest {
                        assert(all[k] == rest[k]);
                    } else {
                        assert(all == more + rest);
                        if k < more.len() {
                            lemma_inbox_revisits_ok(v, n - 1, send, sets, sets.len());
                            assert(all[k] == more[k]);
                        } else {
                            assert(all[k] == rest[k - more.len()]);
                        }
                    }
                },
                _ => {
                    assert(all[k] == rest[k]);
                },
            }
        }
    }
}

proof fn lemma_inbox_revisits_ok<P: RecvPredicate>(
    v: MustView<P>,
    i: int,
    send: Event,
    sets: Seq<Seq<Event>>,
    n: nat,
)
    requires
        must_ok(v),
        0 <= i < log_of(v).len(),
    ensures
        forall|k: int|
            0 <= k < inbox_revisits(v, i, send, sets, n).len() ==> backward_ok(
                log_of(v),
                #[trigger] inbox_revisits(v, i, send, sets, n)[k],
            ),
    decreases n,
{
    if n > 0 {
        let log = log_of(v);
        let l = log[i];
        lemma_inbox_revisits_ok(v, i, send, sets, (n - 1) as nat);
        lemma_index_of(log, i);
        let before = inbox_revisits(v, i, send, sets, (n - 1) as nat);
        let after = inbox_revisits(v, i, send, sets, n);
        let set = normalized(sets[n - 1], sets[n - 1].len());
        assert forall|k: int| 0 <= k < after.len() implies backward_ok(log, #[trigger] after[k]) by {
            if k < before.len() {
                assert(after[k] == before[k]);
            } else {
                let loc = l.kind->Inbox_loc;
                assert forall|j: int| 0 <= j < set.len() implies in_log(log, #[trigger] set[j])
                    && label_at(log, set[j]).kind is Send by {
                    lemma_inbox_sends(v.current.graph, v.locs, loc, l, set);
                }
                assert(sends_of(after[k].rev) == set);
            }
        }
    }
}

} // verus!
