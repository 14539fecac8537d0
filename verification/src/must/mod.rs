//! The exploration: it records what the program does, and decides which
//! executions to visit next.

use crate::config::Config;
use crate::cons::{graph_consistent, Consistency};
use crate::event::{Event, TaskId, ThreadId};
use crate::event_label::{KindView, LabelKind, LabelView, Val};
use crate::exec_graph::{
    extends, graph_wf, in_log, label_at, lemma_with_kind, lemma_with_label, thread_size, with_kind,
    with_label, ExecutionGraph, GraphView,
};
use crate::layout::{placed, GraphKind, Layout};
use crate::loc::{RecvLoc, RecvPredicate};
use crate::replay::{ReplayInformation, ReplayView};
use crate::revisit::{
    list_sorted, pushed, sends_of, RevisitEnum, RevisitQueue, RevisitView,
};
use vstd::prelude::*;

pub mod backward;
pub mod blocking;
pub mod delivery;
pub mod ending;
pub mod ending_laws;
pub mod event_laws;
pub mod handle;
pub mod laws;
pub mod order_laws;
pub mod print;
pub mod print_laws;
pub mod read_laws;
pub mod revisit_laws;
pub mod sched;
pub mod step;
pub mod visit;

verus! {

/// A graph, and the revisits of it that remain to be made.
pub struct MustState {
    pub graph: ExecutionGraph,
    pub rqueue: RevisitQueue,
}

/// A state as the contracts see it.
#[verifier::ext_equal]
pub struct StateView {
    pub graph: GraphView,
    pub rqueue: Seq<(usize, RevisitView)>,
}

impl View for MustState {
    type V = StateView;

    open spec fn view(&self) -> StateView {
        StateView { graph: self.graph@, rqueue: self.rqueue@ }
    }
}

/// Whether what an event did has alternatives that can be visited later.
pub open spec fn has_alternatives(kind: KindView) -> bool {
    match kind {
        KindView::Recv { .. } => true,
        KindView::Inbox { .. } => true,
        KindView::Send { .. } => true,
        KindView::CToss { .. } => true,
        KindView::Choice { .. } => true,
        KindView::Sample { .. } => true,
        _ => false,
    }
}

/// Whether an entry of a worklist fits the log: it names an event of the log with
/// alternatives, and, going backward, sends of the log; none is newer than the
/// stamp of the entry.
pub open spec fn entry_ok(log: Seq<LabelView>, entry: (usize, RevisitView)) -> bool {
    &&& in_log(log, entry.1.pos)
    &&& has_alternatives(label_at(log, entry.1.pos).kind)
    &&& label_at(log, entry.1.pos).stamp <= entry.0
    &&& !entry.1.backward ==> label_at(log, entry.1.pos).stamp == entry.0
    &&& entry.1.backward ==> forall|i: int|
        0 <= i < sends_of(entry.1.rev).len() ==> sent_by(log, #[trigger] sends_of(entry.1.rev)[i], entry.0)
}

/// Whether `e` is a send of the log that is not newer than `stamp`.
pub open spec fn sent_by(log: Seq<LabelView>, e: Event, stamp: usize) -> bool {
    in_log(log, e) && label_at(log, e).kind is Send && label_at(log, e).stamp <= stamp
}

/// Whether all entries of a worklist fit the graph.
pub open spec fn queue_ok(g: GraphView, queue: Seq<(usize, RevisitView)>) -> bool {
    &&& list_sorted(queue)
    &&& forall|k: int|
        0 <= k < queue.len() ==> entry_ok(g.log, #[trigger] queue[k]) && queue[k].0 < g.stamp
}

/// The invariant of states.
pub open spec fn state_ok(s: StateView) -> bool {
    graph_wf(s.graph) && queue_ok(s.graph, s.rqueue)
}

impl MustState {
    pub fn new() -> (s: Self)
        ensures
            state_ok(s@),
            s.rqueue@.len() == 0,
            s.graph@ == (GraphView {
                log: seq![
                    LabelView {
                        pos: Event { thread: ThreadId { id: 0 }, index: 0 },
                        stamp: 0,
                        kind: KindView::Begin { parent: None, sym_id: None },
                    },
                ],
                stamp: 1,
                tasks: seq![(TaskId { id: 0 }, ThreadId { id: 0 })],
            }),
    {
        MustState { graph: ExecutionGraph::new(), rqueue: RevisitQueue::new() }
    }
}

/// A picture to be drawn: a graph, and its slot on the page.
pub struct Page {
    pub graph: ExecutionGraph,
    pub kind: GraphKind,
    pub row: usize,
    pub col: usize,
    pub row_start: usize,
}

/// A picture as the contracts see it.
pub struct PageView {
    pub graph: GraphView,
    pub kind: GraphKind,
    pub row: usize,
    pub col: usize,
    pub row_start: usize,
}

impl View for Page {
    type V = PageView;

    open spec fn view(&self) -> PageView {
        PageView {
            graph: self.graph@,
            kind: self.kind,
            row: self.row,
            col: self.col,
            row_start: self.row_start,
        }
    }
}

/// The exploration of all executions of a program. `P` tells which messages a
/// receive accepts.
pub struct Must<P> {
    /// The states to return to, each with the layout that it had.
    pub states: Vec<(MustState, Layout)>,
    pub current: MustState,
    /// Where the receives of the program look for messages.
    pub locs: Vec<RecvLoc<P>>,
    pub monitors: Vec<ThreadId>,
    pub checker: Consistency,
    pub config: Config,
    pub replay_info: ReplayInformation,
    pub stopped: bool,
    pub warn_limit: usize,
    /// The sizes of the threads that drew a warning.
    pub warnings: Vec<usize>,
    /// How many executions were complete.
    pub execs: u64,
    /// How many executions were blocked.
    pub blocked: u64,
    /// The numbers of alternatives from which one was picked at random.
    pub estimates: Vec<u64>,
    /// What the threads published, by thread and type.
    pub published: Vec<(ThreadId, u64, Val)>,
    pub layout: Layout,
    pub pages: Vec<Page>,
    /// Whether the pictures cannot be written.
    pub pages_fail: bool,
    /// How many graphs may be handed to other workers.
    pub room: usize,
    /// The graphs that other workers are to explore.
    pub handoffs: Vec<ExecutionGraph>,
}

/// An exploration as the contracts see it.
#[verifier::ext_equal]
pub struct MustView<P> {
    pub states: Seq<(StateView, Layout)>,
    pub current: StateView,
    pub locs: Seq<RecvLoc<P>>,
    pub monitors: Seq<ThreadId>,
    pub config: Config,
    pub replay: ReplayView,
    pub stopped: bool,
    pub warn_limit: usize,
    pub warnings: Seq<usize>,
    pub execs: u64,
    pub blocked: u64,
    pub estimates: Seq<u64>,
    pub published: Seq<(ThreadId, u64, Val)>,
    pub layout: Layout,
    pub pages: Seq<PageView>,
    pub pages_fail: bool,
    pub room: usize,
    pub handoffs: Seq<GraphView>,
}

impl<P> View for Must<P> {
    type V = MustView<P>;

    open spec fn view(&self) -> MustView<P> {
        MustView {
            states: Seq::new(
                self.states@.len(),
                |i: int| (self.states@[i].0@, self.states@[i].1),
            ),
            current: self.current@,
            locs: self.locs@,
            monitors: self.monitors@,
            config: self.config,
            replay: self.replay_info@,
            stopped: self.stopped,
            warn_limit: self.warn_limit,
            warnings: self.warnings@,
            execs: self.execs,
            blocked: self.blocked,
            estimates: self.estimates@,
            published: self.published@,
            layout: self.layout,
            pages: Seq::new(self.pages@.len(), |i: int| self.pages@[i]@),
            pages_fail: self.pages_fail,
            room: self.room,
            handoffs: Seq::new(self.handoffs@.len(), |i: int| self.handoffs@[i]@),
        }
    }
}

/// The invariant of explorations: the worklists name only what their graphs hold.
pub open spec fn must_ok<P>(v: MustView<P>) -> bool {
    &&& state_ok(v.current)
    &&& forall|i: int| 0 <= i < v.states.len() ==> state_ok((#[trigger] v.states[i]).0)
}

/// The exploration with another graph.
pub open spec fn with_graph<P>(v: MustView<P>, graph: GraphView) -> MustView<P> {
    MustView { current: StateView { graph, ..v.current }, ..v }
}

/// The exploration with one more revisit to make.
pub open spec fn with_revisit<P>(v: MustView<P>, stamp: usize, r: RevisitView) -> MustView<P> {
    MustView {
        current: StateView { rqueue: pushed(v.current.rqueue, stamp, r), ..v.current },
        ..v
    }
}

/// The log of the current graph.
pub open spec fn log_of<P>(v: MustView<P>) -> Seq<LabelView> {
    v.current.graph.log
}

/// The exploration after a picture of the current graph was taken.
pub open spec fn logged<P>(v: MustView<P>, kind: GraphKind) -> MustView<P> {
    if v.config.tikz {
        MustView {
            pages: v.pages.push(
                PageView {
                    graph: v.current.graph,
                    kind,
                    row: v.layout.row,
                    col: v.layout.col,
                    row_start: v.layout.row_start,
                },
            ),
            layout: placed(v.layout, kind is Complete || kind is Blocked, !v.pages_fail),
            ..v
        }
    } else {
        v
    }
}

/// Whether a thread has grown so large that a warning is due.
pub open spec fn too_large<P>(v: MustView<P>, t: ThreadId) -> bool {
    thread_size(log_of(v), t) > v.config.thread_threshold && v.warn_limit > 0
}

/// The exploration after the event `pos` was recorded.
pub open spec fn added<P>(v: MustView<P>, pos: Event, kind: KindView) -> MustView<P> {
    let warned = if too_large(v, pos.thread) {
        MustView {
            stopped: true,
            warn_limit: (v.warn_limit - 1) as usize,
            warnings: v.warnings.push(thread_size(log_of(v), pos.thread) as usize),
            ..v
        }
    } else {
        v
    };
    logged(with_graph(warned, with_label(v.current.graph, pos, kind)), GraphKind::Snapshot)
}

/// Whether no entry of the worklist names the event `pos`.
pub open spec fn unnamed(queue: Seq<(usize, RevisitView)>, pos: Event) -> bool {
    forall|k: int|
        0 <= k < queue.len() ==> (#[trigger] queue[k]).1.pos != pos && !(queue[k].1.backward
            && sends_of(queue[k].1.rev).contains(pos))
}

/// Whether the event `pos` can be recorded: it comes next in its thread, or
/// replaces the event recorded last, which no revisit names.
pub open spec fn recordable<P>(v: MustView<P>, pos: Event) -> bool {
    &&& extends(log_of(v), pos)
    &&& in_log(log_of(v), pos) ==> unnamed(v.current.rqueue, pos)
    &&& v.current.graph.stamp < usize::MAX
    &&& thread_size(log_of(v), pos.thread) <= usize::MAX
}

/// An entry fits as long as the labels that it names stay.
pub proof fn lemma_entry_kept(
    before: Seq<LabelView>,
    after: Seq<LabelView>,
    entry: (usize, RevisitView),
)
    requires
        entry_ok(before, entry),
        in_log(after, entry.1.pos),
        has_alternatives(label_at(after, entry.1.pos).kind),
        label_at(after, entry.1.pos).stamp == label_at(before, entry.1.pos).stamp,
        forall|e: Event|
            #![trigger in_log(before, e)]
            entry.1.backward && in_log(before, e) && label_at(before, e).kind is Send && sends_of(
                entry.1.rev,
            ).contains(e) ==> in_log(after, e) && label_at(after, e).kind is Send && label_at(
                after,
                e,
            ).stamp == label_at(before, e).stamp,
    ensures
        entry_ok(after, entry),
{
    if entry.1.backward {
        assert forall|i: int| 0 <= i < sends_of(entry.1.rev).len() implies sent_by(
            after,
            #[trigger] sends_of(entry.1.rev)[i],
            entry.0,
        ) by {
            let e = sends_of(entry.1.rev)[i];
            assert(sent_by(before, e, entry.0));
            assert(sends_of(entry.1.rev).contains(e));
        }
    }
}

/// Recording an event keeps the state in order.
pub proof fn lemma_added_ok<P>(v: MustView<P>, pos: Event, kind: KindView)
    requires
        must_ok(v),
        recordable(v, pos),
    ensures
        must_ok(added(v, pos, kind)),
        in_log(log_of(added(v, pos, kind)), pos),
        label_at(log_of(added(v, pos, kind)), pos) == (LabelView {
            pos,
            stamp: v.current.graph.stamp,
            kind,
        }),
        added(v, pos, kind).current.graph == with_label(v.current.graph, pos, kind),
        added(v, pos, kind).current.rqueue == v.current.rqueue,
{
    let g = v.current.graph;
    let h = with_label(g, pos, kind);
    lemma_with_label(g, pos, kind);
    assert forall|k: int| 0 <= k < v.current.rqueue.len() implies entry_ok(
        h.log,
        #[trigger] v.current.rqueue[k],
    ) && v.current.rqueue[k].0 < h.stamp by {
        let entry = v.current.rqueue[k];
        assert(entry_ok(g.log, entry));
        assert(entry.1.pos != pos);
        assert forall|e: Event|
            #![trigger in_log(g.log, e)]
            entry.1.backward && in_log(g.log, e) && label_at(g.log, e).kind is Send && sends_of(
                entry.1.rev,
            ).contains(e) implies in_log(h.log, e) && label_at(h.log, e).kind is Send && label_at(
            h.log,
            e,
        ).stamp == label_at(g.log, e).stamp by {
            assert(e != pos);
        }
        lemma_entry_kept(g.log, h.log, entry);
    }
    let w = added(v, pos, kind);
    assert(w.states == v.states);
    assert(w.current.graph == h);
    assert(w.current.rqueue == v.current.rqueue);
}

/// One more revisit that fits keeps the state in order.
pub proof fn lemma_revisit_ok<P>(v: MustView<P>, stamp: usize, r: RevisitView)
    requires
        must_ok(v),
        entry_ok(log_of(v), (stamp, r)),
        stamp < v.current.graph.stamp,
    ensures
        must_ok(with_revisit(v, stamp, r)),
{
    let queue = v.current.rqueue;
    let after = pushed(queue, stamp, r);
    crate::revisit::lemma_pushed(queue, stamp, r);
    assert forall|k: int| 0 <= k < after.len() implies entry_ok(log_of(v), #[trigger] after[k])
        && after[k].0 < v.current.graph.stamp by {
        if after[k] != (stamp, r) {
            assert(queue.contains(after[k]));
            let j = choose|j: int| 0 <= j < queue.len() && queue[j] == after[k];
            assert(entry_ok(log_of(v), queue[j]));
        }
    }
    let w = with_revisit(v, stamp, r);
    assert(w.states == v.states);
}

/// Changing what an event did, to something that has alternatives as well, keeps
/// the state in order.
pub proof fn lemma_with_kind_ok<P>(v: MustView<P>, pos: Event, kind: KindView)
    requires
        must_ok(v),
        in_log(log_of(v), pos),
        has_alternatives(label_at(log_of(v), pos).kind) ==> has_alternatives(kind),
        label_at(log_of(v), pos).kind is Send ==> kind is Send,
    ensures
        must_ok(with_graph(v, with_kind(v.current.graph, pos, kind))),
{
    let g = v.current.graph;
    let h = with_kind(g, pos, kind);
    lemma_with_kind(g, pos, kind);
    assert forall|k: int| 0 <= k < v.current.rqueue.len() implies entry_ok(
        h.log,
        #[trigger] v.current.rqueue[k],
    ) && v.current.rqueue[k].0 < h.stamp by {
        let entry = v.current.rqueue[k];
        assert(entry_ok(g.log, entry));
        assert(in_log(h.log, entry.1.pos));
        assert forall|e: Event|
            #![trigger in_log(g.log, e)]
            entry.1.backward && in_log(g.log, e) && label_at(g.log, e).kind is Send && sends_of(
                entry.1.rev,
            ).contains(e) implies in_log(h.log, e) && label_at(h.log, e).kind is Send && label_at(
            h.log,
            e,
        ).stamp == label_at(g.log, e).stamp by {
            assert(in_log(h.log, e));
            if e != pos {
                assert(label_at(h.log, e) == label_at(g.log, e));
            }
        }
        if entry.1.pos != pos {
            assert(label_at(h.log, entry.1.pos) == label_at(g.log, entry.1.pos));
        }
        lemma_entry_kept(g.log, h.log, entry);
    }
    let w = with_graph(v, h);
    assert(w.states == v.states);
}

impl<P: RecvPredicate> Must<P> {
    /// Holds of every exploration that the methods build.
    pub open spec fn wf(&self) -> bool {
        must_ok(self@)
    }

    /// An exploration that has visited nothing yet.
    pub fn new(conf: Config, replay_mode: bool) -> (m: Self)
        ensures
            m.wf(),
            m@.states.len() == 0,
            m@.current.rqueue.len() == 0,
            m@.current.graph == (GraphView {
                log: seq![
                    LabelView {
                        pos: Event { thread: ThreadId { id: 0 }, index: 0 },
                        stamp: 0,
                        kind: KindView::Begin { parent: None, sym_id: None },
                    },
                ],
                stamp: 1,
                tasks: seq![(TaskId { id: 0 }, ThreadId { id: 0 })],
            }),
            m@.locs.len() == 0,
            m@.monitors.len() == 0,
            m@.config == conf,
            m@.replay == (ReplayView {
                order: Seq::empty(),
                at: 0,
                current: None,
                replay_mode,
                error_found: false,
                config: conf,
            }),
            !m@.stopped,
            m@.warn_limit == 1,
            m@.warnings.len() == 0,
            m@.execs == 0,
            m@.blocked == 0,
            m@.estimates.len() == 0,
            m@.published.len() == 0,
            m@.layout == (Layout {
                row: 0,
                col: 0,
                row_start: 0,
                last_graph: None,
                next_anchor: None,
            }),
            m@.pages.len() == 0,
            !m@.pages_fail,
            m@.room == 0,
            m@.handoffs.len() == 0,
    {
        Must {
            states: Vec::new(),
            current: MustState::new(),
            locs: Vec::new(),
            monitors: Vec::new(),
            checker: Consistency {  },
            config: conf,
            replay_info: ReplayInformation::new(conf, replay_mode),
            stopped: false,
            warn_limit: 1,
            warnings: Vec::new(),
            execs: 0,
            blocked: 0,
            estimates: Vec::new(),
            published: Vec::new(),
            layout: Layout::new(),
            pages: Vec::new(),
            pages_fail: false,
            room: 0,
            handoffs: Vec::new(),
        }
    }

    /// Whether the current execution counts.
    pub fn is_consistent(&self) -> (b: bool)
        ensures
            b == graph_consistent(self@.current.graph),
    {
        self.checker.is_consistent(&self.current.graph)
    }

    /// Keeps a picture of the current graph, if pictures are wanted.
    pub fn log_tikz_graph(&mut self, kind: GraphKind)
        ensures
            final(self)@ == logged(old(self)@, kind),
    {
        let ghost before = self@;
        if !self.config.tikz {
            return ;
        }
        let page = Page {
            graph: self.current.graph.copy(),
            kind,
            row: self.layout.row,
            col: self.layout.col,
            row_start: self.layout.row_start,
        };
        self.pages.push(page);
        self.layout = self.layout.place(
            matches!(kind, GraphKind::Complete | GraphKind::Blocked),
            !self.pages_fail,
        );
        assert(self@ =~= logged(before, kind));
    }

    /// Takes note whether the last picture could be written.
    pub fn note_page(&mut self, written: bool)
        ensures
            final(self)@ == (MustView { pages_fail: !written, ..old(self)@ }),
    {
        let ghost before = self@;
        self.pages_fail = !written;
        assert(self@ =~= MustView { pages_fail: !written, ..before });
    }

    /// Records the event `pos`.
    pub fn add_to_graph(&mut self, pos: Event, kind: LabelKind)
        requires
            old(self).wf(),
            recordable(old(self)@, pos),
        ensures
            final(self).wf(),
            final(self)@ == added(old(self)@, pos, kind@),
    {
        let ghost before = self@;
        proof {
            lemma_added_ok(before, pos, kind@);
        }
        let tindex = self.current.graph.thread_size(pos.thread);
        if tindex > self.config.thread_threshold as usize && self.warn_limit > 0 {
            self.warnings.push(tindex);
            self.warn_limit = self.warn_limit - 1;
            self.stopped = true;
        }
        self.current.graph.add_label(pos, kind);
        assert(self@ =~= with_graph(
            if too_large(before, pos.thread) {
                MustView {
                    stopped: true,
                    warn_limit: (before.warn_limit - 1) as usize,
                    warnings: before.warnings.push(
                        thread_size(log_of(before), pos.thread) as usize,
                    ),
                    ..before
                }
            } else {
                before
            },
            with_label(before.current.graph, pos, kind@),
        ));
        self.log_tikz_graph(GraphKind::Snapshot);
    }

    /// Whether the event `pos` is recorded already, so that it is executed again.
    pub fn is_replay(&self, pos: Event) -> (b: bool)
        requires
            self.wf(),
        ensures
            b == in_log(log_of(self@), pos),
    {
        self.current.graph.contains(pos)
    }

    /// Whether the thread of `recv` is a monitor.
    pub fn is_monitor(&self, recv: Event) -> (b: bool)
        ensures
            b == self@.monitors.contains(recv.thread),
    {
        crate::loc::thread_in(&self.monitors, recv.thread)
    }

    pub fn stop(&mut self)
        ensures
            final(self)@ == (MustView { stopped: true, ..old(self)@ }),
    {
        let ghost before = self@;
        self.stopped = true;
        assert(self@ =~= MustView { stopped: true, ..before });
    }

    pub fn unstop(&mut self)
        ensures
            final(self)@ == (MustView { stopped: false, ..old(self)@ }),
    {
        let ghost before = self@;
        self.stopped = false;
        assert(self@ =~= MustView { stopped: false, ..before });
    }

    pub fn is_stopped(&self) -> (b: bool)
        ensures
            b == self@.stopped,
    {
        self.stopped
    }

    /// Adds a revisit to the worklist of the current state.
    pub fn push_revisit(&mut self, stamp: usize, r: RevisitEnum)
        ensures
            final(self)@ == with_revisit(old(self)@, stamp, r@),
    {
        let ghost before = self@;
        crate::revisit::push_worklist(&mut self.current.rqueue, stamp, r);
        assert(self@ =~= with_revisit(before, stamp, r@));
    }
}

} // verus!
