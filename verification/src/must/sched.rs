//! Which task runs next, and what happens when none can.

use crate::config::SchedulePolicy;
use crate::cons::offers_of;
use crate::event::{Event, TaskId, ThreadId};
use crate::event_label::{BlockType, KindView, LabelKind};
use crate::exec_graph::{
    block_of, graph_wf, has_thread, in_log, index_of, label_at, last_label, last_place,
    lemma_index_of, lemma_last_place, lemma_without, task_of, thread_complete, thread_of, GraphView,
};
use crate::loc::RecvPredicate;
use crate::must::{
    entry_ok, lemma_entry_kept, log_of, must_ok, state_ok, with_graph, Must, MustView, StateView,
};
use crate::random::{ascending_upto, is_order, lemma_order, shuffled};
use crate::replay::ReplayView;
use rand_pcg::Pcg64Mcg;
use vstd::prelude::*;

verus! {

/// Whether the thread that `task` runs can go on from its `i`-th instruction. A
/// blocked thread runs only up to where it was blocked.
pub open spec fn runnable_at<P>(v: MustView<P>, task: TaskId, i: usize) -> bool {
    match thread_of(v.current.graph.tasks, task) {
        Some(tid) => has_thread(log_of(v), tid) && match block_of(log_of(v), tid) {
            Some(BlockType::Join(_)) => i + 1 < last_label(log_of(v), tid).pos.index,
            Some(BlockType::Value(_, _)) => i + 1 < last_label(log_of(v), tid).pos.index,
            Some(_) => i < last_label(log_of(v), tid).pos.index,
            None => true,
        },
        None => false,
    }
}

/// The first of the tasks, taken in `order[..n]`, that can go on.
pub open spec fn first_runnable<P>(
    v: MustView<P>,
    tasks: Seq<(TaskId, usize)>,
    order: Seq<usize>,
    n: nat,
) -> Option<TaskId>
    decreases n,
{
    if n == 0 {
        None
    } else {
        match first_runnable(v, tasks, order, (n - 1) as nat) {
            Some(t) => Some(t),
            None => {
                let entry = tasks[order[n - 1] as int];
                if runnable_at(v, entry.0, entry.1) {
                    Some(entry.0)
                } else {
                    None
                }
            },
        }
    }
}

/// Whether what thread `t` waits for has come: enough messages, or the end of a
/// thread.
pub open spec fn is_ready<P: RecvPredicate>(v: MustView<P>, t: ThreadId) -> bool {
    match block_of(log_of(v), t) {
        Some(BlockType::Value(loc, min)) => offers_of(
            log_of(v),
            v.locs,
            loc,
            last_label(log_of(v), t).pos,
            v.monitors.contains(t),
        ).len() >= min,
        Some(BlockType::Join(cid)) => thread_complete(log_of(v), cid),
        _ => false,
    }
}

/// Those of the first `n` tasks whose threads are ready.
pub open spec fn ready_tasks<P: RecvPredicate>(
    v: MustView<P>,
    tasks: Seq<(TaskId, usize)>,
    n: nat,
) -> Seq<TaskId>
    decreases n,
{
    if n == 0 {
        Seq::empty()
    } else {
        let before = ready_tasks(v, tasks, (n - 1) as nat);
        match thread_of(v.current.graph.tasks, tasks[n - 1].0) {
            Some(t) => if is_ready(v, t) {
                before.push(tasks[n - 1].0)
            } else {
                before
            },
            None => before,
        }
    }
}

/// The graph in which thread `t` is no longer blocked.
pub open spec fn unblocked(g: GraphView, t: ThreadId) -> GraphView {
    if block_of(g.log, t) is Some {
        GraphView { log: g.log.remove(last_place(g.log, t, g.log.len()) - 1), ..g }
    } else {
        g
    }
}

/// The graph in which the threads of the first `n` tasks are no longer blocked.
pub open spec fn all_unblocked(g: GraphView, tasks: Seq<TaskId>, n: nat) -> GraphView
    decreases n,
{
    if n == 0 {
        g
    } else {
        let before = all_unblocked(g, tasks, (n - 1) as nat);
        match thread_of(g.tasks, tasks[n - 1]) {
            Some(t) => unblocked(before, t),
            None => before,
        }
    }
}

/// What the next task is, and the exploration then, when tasks are tried in `order`.
pub open spec fn scheduled<P: RecvPredicate>(
    v: MustView<P>,
    tasks: Seq<(TaskId, usize)>,
    order: Seq<usize>,
) -> (MustView<P>, Option<TaskId>) {
    match first_runnable(v, tasks, order, order.len()) {
        Some(t) => (v, Some(t)),
        None => {
            let ready = ready_tasks(v, tasks, tasks.len());
            (
                with_graph(v, all_unblocked(v.current.graph, ready, ready.len())),
                if ready.len() > 0 {
                    Some(ready[0])
                } else {
                    None
                },
            )
        },
    }
}

/// Unblocking a thread keeps the worklist in order: no revisit names a block.
pub proof fn lemma_unblocked_ok(s: StateView, t: ThreadId)
    requires
        state_ok(s),
    ensures
        state_ok(StateView { graph: unblocked(s.graph, t), ..s }),
        unblocked(s.graph, t).tasks == s.graph.tasks,
{
    let g = s.graph;
    let h = unblocked(g, t);
    if block_of(g.log, t) is Some {
        let k = last_place(g.log, t, g.log.len()) - 1;
        lemma_last_place(g.log, t, g.log.len());
        lemma_without(g.log, t);
        let f = |i: int| if i < k { i } else { i + 1 };
        assert forall|i: int| 0 <= i < h.log.len() implies #[trigger] h.log[i] == g.log[f(i)] by {}
        assert forall|e: Event| in_log(g.log, e) && e != g.log[k].pos implies in_log(h.log, e)
            && label_at(h.log, e) == label_at(g.log, e) by {
            let i = index_of(g.log, e);
            assert(g.log[i].pos == e);
            lemma_index_of(g.log, i);
            let j = if i < k { i } else { i - 1 };
            assert(h.log[j] == g.log[i]);
            lemma_index_of(h.log, j);
        }
        lemma_index_of(g.log, k);
        assert forall|i: int| 0 <= i < s.rqueue.len() implies entry_ok(
            h.log,
            #[trigger] s.rqueue[i],
        ) && s.rqueue[i].0 < h.stamp by {
            let entry = s.rqueue[i];
            assert(entry_ok(g.log, entry));
            assert(entry.1.pos != g.log[k].pos);
            lemma_entry_kept(g.log, h.log, entry);
        }
        assert(graph_wf(h));
    } else {
        assert(StateView { graph: h, ..s } == s);
    }
}

impl<P: RecvPredicate> Must<P> {
    /// The thread that `task` runs.
    pub fn to_thread_id(&self, task: TaskId) -> (r: Option<ThreadId>)
        ensures
            r == thread_of(self@.current.graph.tasks, task),
    {
        self.current.graph.to_thread_id(task)
    }

    /// The task that runs `tid`.
    pub fn to_task_id(&self, tid: ThreadId) -> (r: Option<TaskId>)
        ensures
            r == task_of(self@.current.graph.tasks, tid),
    {
        self.current.graph.to_task_id(tid)
    }

    /// Whether the thread of a task can go on from its `i`-th instruction.
    pub fn is_thread_runnable(&self, t: TaskId, i: usize) -> (b: bool)
        ensures
            b == runnable_at(self@, t, i),
    {
        let tid = match self.to_thread_id(t) {
            Some(tid) => tid,
            None => {
                return false;
            },
        };
        match self.current.graph.thread_last(tid) {
            Some(last) => match &last.kind {
                LabelKind::Block { btype } => {
                    let index = last.pos.index as usize;
                    match btype {
                        BlockType::Join(_) | BlockType::Value(_, _) => index > 0 && i < index - 1,
                        BlockType::Assume | BlockType::Assert => i < index,
                    }
                },
                _ => true,
            },
            None => false,
        }
    }

    /// Whether enough messages have come for the receive at which `t` is blocked.
    pub fn is_waiting_on_written(&self, t: ThreadId) -> (b: bool)
        ensures
            b == (block_of(log_of(self@), t) is Some && block_of(log_of(self@), t)->0 is Value
                && is_ready(self@, t)),
    {
        match self.current.graph.thread_last(t) {
            Some(last) => match &last.kind {
                LabelKind::Block { btype: BlockType::Value(loc, min) } => {
                    proof {
                        lemma_last_place(log_of(self@), t, log_of(self@).len());
                    }
                    let offers = self.checker.offers(
                        &self.current.graph,
                        &self.locs,
                        *loc,
                        last.pos,
                        self.is_monitor(last.pos),
                    );
                    offers.len() >= *min
                },
                _ => false,
            },
            None => false,
        }
    }

    /// Whether the thread that `t` waits for has ended.
    pub fn is_waiting_on_finished(&self, t: ThreadId) -> (b: bool)
        ensures
            b == (block_of(log_of(self@), t) is Some && block_of(log_of(self@), t)->0 is Join
                && is_ready(self@, t)),
    {
        match self.current.graph.thread_block(t) {
            Some(BlockType::Join(cid)) => self.current.graph.is_thread_complete(cid),
            _ => false,
        }
    }

    /// Unblocks the threads that are ready; returns the task of the first one.
    pub fn unblock_ready(&mut self, runnable: &Vec<(TaskId, usize)>) -> (r: Option<TaskId>)
        requires
            old(self).wf(),
        ensures
            final(self).wf(),
            ({
                let ready = ready_tasks(old(self)@, runnable@, runnable@.len());
                &&& final(self)@ == with_graph(
                    old(self)@,
                    all_unblocked(old(self)@.current.graph, ready, ready.len()),
                )
                &&& r == if ready.len() > 0 {
                    Some(ready[0])
                } else {
                    None
                }
            }),
    {
        let ghost before = self@;
        let mut ready: Vec<TaskId> = Vec::new();
        let mut i: usize = 0;
        while i < runnable.len()
            invariant
                self@ == before,
                i <= runnable.len(),
                ready@ == ready_tasks(before, runnable@, i as nat),
            decreases runnable.len() - i,
        {
            let task = runnable[i].0;
            if let Some(t) = self.to_thread_id(task) {
                if self.is_waiting_on_written(t) || self.is_waiting_on_finished(t) {
                    ready.push(task);
                }
            }
            i += 1;
        }
        let mut k: usize = 0;
        while k < ready.len()
            invariant
                self.wf(),
                k <= ready.len(),
                self@ == with_graph(
                    before,
                    all_unblocked(before.current.graph, ready@, k as nat),
                ),
                self@.current.graph.tasks == before.current.graph.tasks,
            decreases ready.len() - k,
        {
            let ghost mid = self@;
            if let Some(t) = self.to_thread_id(ready[k]) {
                proof {
                    lemma_unblocked_ok(mid.current, t);
                }
                if self.current.graph.thread_block(t).is_some() {
                    self.current.graph.remove_last(t);
                }
                proof {
                    assert(self@ =~= with_graph(mid, unblocked(mid.current.graph, t)));
                    assert(self@.states == mid.states);
                    assert(self@.current == StateView {
                        graph: unblocked(mid.current.graph, t),
                        ..mid.current
                    });
                }
            }
            k += 1;
            assert(self@ =~= with_graph(
                before,
                all_unblocked(before.current.graph, ready@, k as nat),
            ));
        }
        if ready.len() > 0 {
            Some(ready[0])
        } else {
            None
        }
    }

    /// The next task when tasks are tried in `order`. Where none can go on, the
    /// threads that are ready are unblocked.
    pub fn next_task_in(&mut self, runnable: &Vec<(TaskId, usize)>, order: &Vec<usize>) -> (r:
        Option<TaskId>)
        requires
            old(self).wf(),
            is_order(order@, runnable@.len()),
        ensures
            final(self).wf(),
            (final(self)@, r) == scheduled(old(self)@, runnable@, order@),
    {
        let ghost before = self@;
        proof {
            let n = runnable.len();
            lemma_order(order@, n as nat);
        }
        let mut i: usize = 0;
        while i < order.len()
            invariant
                self@ == before,
                must_ok(before),
                i <= order.len(),
                forall|k: int| 0 <= k < order@.len() ==> #[trigger] order@[k] < runnable@.len(),
                first_runnable(before, runnable@, order@, i as nat) is None,
                before == old(self)@,
            decreases order.len() - i,
        {
            assert(order@[i as int] < runnable@.len());
            let entry = &runnable[order[i]];
            if self.is_thread_runnable(entry.0, entry.1) {
                proof {
                    assert(first_runnable(before, runnable@, order@, (i + 1) as nat) == Some(
                        entry.0,
                    ));
                    lemma_first_runnable(before, runnable@, order@, (i + 1) as nat, order@.len());
                }
                return Some(entry.0);
            }
            i += 1;
        }
        self.unblock_ready(runnable)
    }

    /// The task to run next, among the runnable tasks with the instruction each has
    /// reached. A replayed execution prescribes it.
    pub fn next_task(&mut self, runnable: &Vec<(TaskId, usize)>, rng: &mut Pcg64Mcg) -> (r: Option<
        TaskId,
    >)
        requires
            old(self).wf(),
        ensures
            final(self).wf(),
            ({
                let v = old(self)@;
                let w = final(self)@;
                if v.stopped {
                    w == v && r is None
                } else if v.replay.replay_mode {
                    if v.replay.at < v.replay.order.len() {
                        let next = v.replay.order[v.replay.at as int];
                        w == (MustView {
                            replay: ReplayView {
                                at: (v.replay.at + 1) as usize,
                                current: Some(next),
                                ..v.replay
                            },
                            ..v
                        }) && r == task_of(v.current.graph.tasks, next.thread)
                    } else {
                        w == v && r is None
                    }
                } else if v.config.schedule_policy is LTR {
                    (w, r) == scheduled(
                        v,
                        runnable@,
                        Seq::new(runnable@.len(), |i: int| i as usize),
                    )
                } else {
                    exists|order: Seq<usize>| #[trigger]
                        is_order(order, runnable@.len()) && (w, r) == scheduled(
                            v,
                            runnable@,
                            order,
                        )
                }
            }),
    {
        let ghost before = self@;
        if self.is_stopped() {
            return None;
        }
        if self.replay_info.replay_mode {
            let next = self.replay_info.next_task();
            assert(self@.current == before.current);
            assert(self@.states == before.states);
            return match next {
                Some(tid) => {
                    assert(self@ =~= MustView { replay: self@.replay, ..before });
                    self.to_task_id(tid)
                },
                None => {
                    assert(self@ =~= before);
                    None
                },
            };
        }
        let plain = ascending_upto(runnable.len());
        let order = match self.config.schedule_policy {
            SchedulePolicy::LTR => plain,
            SchedulePolicy::Arbitrary => shuffled(&plain, rng),
        };
        assert(is_order(order@, runnable@.len()));
        self.next_task_in(runnable, &order)
    }

    /// The stuck tasks, each with the instruction it has reached, that wait for the
    /// end of `finished` and can now go on.
    pub fn unstuck_joiners(&self, stuck: &Vec<(TaskId, u32)>, finished: ThreadId) -> (r: Vec<
        TaskId,
    >)
        requires
            self.wf(),
        ensures
            r@ == joiners(self@, stuck@, finished, stuck@.len()),
    {
        let mut r: Vec<TaskId> = Vec::new();
        let mut i: usize = 0;
        while i < stuck.len()
            invariant
                self.wf(),
                i <= stuck.len(),
                r@ == joiners(self@, stuck@, finished, i as nat),
            decreases stuck.len() - i,
        {
            let (task, at) = (stuck[i].0, stuck[i].1);
            if let Some(tid) = self.to_thread_id(task) {
                if at < u32::MAX {
                    if let Some(l) = self.current.graph.label_opt(Event::new(tid, at + 1)) {
                        if let LabelKind::TJoin { cid } = &l.kind {
                            if *cid == finished {
                                r.push(task);
                            }
                        }
                    }
                }
            }
            i += 1;
        }
        r
    }
}

/// Whether the next event of `task` after its `at`-th joins `finished`.
pub open spec fn joins<P>(v: MustView<P>, task: TaskId, at: u32, finished: ThreadId) -> bool {
    match thread_of(v.current.graph.tasks, task) {
        Some(tid) => at < u32::MAX && {
            let next = Event { thread: tid, index: (at + 1) as u32 };
            in_log(log_of(v), next) && label_at(log_of(v), next).kind == KindView::TJoin {
                cid: finished,
            }
        },
        None => false,
    }
}

/// Those of the first `n` stuck tasks that join `finished` next.
pub open spec fn joiners<P>(
    v: MustView<P>,
    stuck: Seq<(TaskId, u32)>,
    finished: ThreadId,
    n: nat,
) -> Seq<TaskId>
    decreases n,
{
    if n == 0 {
        Seq::empty()
    } else if joins(v, stuck[n - 1].0, stuck[n - 1].1, finished) {
        joiners(v, stuck, finished, (n - 1) as nat).push(stuck[n - 1].0)
    } else {
        joiners(v, stuck, finished, (n - 1) as nat)
    }
}

/// What was found first stays first.
proof fn lemma_first_runnable<P>(
    v: MustView<P>,
    tasks: Seq<(TaskId, usize)>,
    order: Seq<usize>,
    m: nat,
    n: nat,
)
    requires
        m <= n,
        first_runnable(v, tasks, order, m) is Some,
    ensures
        first_runnable(v, tasks, order, n) == first_runnable(v, tasks, order, m),
    decreases n,
{
    if m < n {
        lemma_first_runnable(v, tasks, order, m, (n - 1) as nat);
    }
}

} // verus!
