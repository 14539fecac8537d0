//! The start and the end of an execution.

use crate::cons::graph_consistent;
use crate::event::{main_thread_id, Event, ThreadId};
use crate::event_label::{BlockType, KindView, LabelKind, LabelView, Val};
use crate::exec_graph::{
    block_of, in_log, index_of, is_daemon, label_at, lemma_index_of, lemma_ready, ready,
    thread_complete, threads_upto, ExecutionGraph,
};
use crate::layout::{fresh_row, GraphKind};
use crate::linear::{exhausted, runs};
use crate::loc::RecvPredicate;
use crate::must::step::revisit_next;
use crate::must::{
    entry_ok, has_alternatives, lemma_entry_kept, log_of, logged, state_ok, with_graph, Must,
    MustState, MustView, StateView,
};
use crate::replay::{ReplayInformation, ReplayView};
use crate::revisit::sends_of;
use vstd::prelude::*;

verus! {

/// How an execution ended.
#[derive(Clone, Copy, Debug, PartialEq, Eq, Structural)]
pub enum EndCondition {
    AllThreadsCompleted,
    /// An assumption of the program did not hold.
    FailedAssumption,
    Deadlock,
    /// A monitor ended by itself.
    MonitorTerminated,
}

/// How many executions were visited.
#[derive(Clone, Copy, Debug, PartialEq, Eq, Structural)]
pub struct Stats {
    pub execs: u64,
    pub block: u64,
}

/// Where the progress of the exploration is reported.
#[derive(Clone, Copy, Debug, PartialEq, Eq, Structural)]
pub enum ProgressTo {
    Nowhere,
    Output,
    OutputAndErrors,
}

/// What is to be told and done when an execution has ended.
#[derive(Clone, Copy, Debug, PartialEq, Eq, Structural)]
pub struct Report {
    pub execs: u64,
    pub blocked: u64,
    pub progress: ProgressTo,
    /// Whether the graph is to be printed.
    pub print_graph: bool,
    /// Whether the largest number of executions is reached.
    pub exceeded: bool,
}

/// The first reason for which one of `threads[..n]` is stuck. Daemons may wait for
/// messages.
pub open spec fn first_block(log: Seq<LabelView>, threads: Seq<ThreadId>, n: nat) -> Option<
    BlockType,
>
    decreases n,
{
    if n == 0 {
        None
    } else {
        match first_block(log, threads, (n - 1) as nat) {
            Some(b) => Some(b),
            None => match block_of(log, threads[n - 1]) {
                Some(BlockType::Value(loc, min)) => if is_daemon(log, threads[n - 1]) {
                    None
                } else {
                    Some(BlockType::Value(loc, min))
                },
                other => other,
            },
        }
    }
}

/// Why the execution is blocked, if it is.
pub open spec fn blocked_by(log: Seq<LabelView>) -> Option<BlockType> {
    let threads = threads_upto(log, log.len());
    first_block(log, threads, threads.len())
}

/// How an execution ended that is blocked by `block`.
pub open spec fn end_condition(block: Option<BlockType>) -> EndCondition {
    match block {
        None => EndCondition::AllThreadsCompleted,
        Some(BlockType::Assume) => EndCondition::FailedAssumption,
        Some(BlockType::Assert) => EndCondition::FailedAssumption,
        Some(_) => EndCondition::Deadlock,
    }
}

/// A number without the zeros at its end.
pub open spec fn without_zeros(n: nat) -> nat
    decreases n,
{
    if n == 0 {
        0
    } else if n % 10 == 0 {
        without_zeros(n / 10)
    } else {
        n
    }
}

/// Whether a rarer and rarer report is due after `n` executions: after 1, 2, 3, to
/// 10, 20, 30, to 100 and so on.
pub open spec fn report_due(n: nat) -> bool {
    0 < n && without_zeros(n) < 10
}

/// The power of ten.
pub open spec fn ten_to(k: nat) -> nat
    decreases k,
{
    if k == 0 {
        1
    } else {
        10 * ten_to((k - 1) as nat)
    }
}

/// Whether `n` is the digit `d`, not zero, followed by `k` zeros.
pub open spec fn digit_and_zeros(n: nat, d: nat, k: nat) -> bool {
    1 <= d <= 9 && n == d * ten_to(k)
}

/// Reports are due exactly after one digit times a power of ten executions.
pub proof fn law_report_due(n: nat)
    ensures
        report_due(n) <==> exists|d: nat, k: nat| #[trigger] digit_and_zeros(n, d, k),
{
    if report_due(n) {
        lemma_due_form(n);
    }
    if exists|d: nat, k: nat| #[trigger] digit_and_zeros(n, d, k) {
        let (d, k) = choose|d: nat, k: nat| #[trigger] digit_and_zeros(n, d, k);
        lemma_form_due(d, k);
    }
}

proof fn lemma_due_form(n: nat)
    requires
        report_due(n),
    ensures
        exists|d: nat, k: nat| #[trigger] digit_and_zeros(n, d, k),
    decreases n,
{
    if n % 10 == 0 {
        lemma_due_form(n / 10);
        let (d, k) = choose|d: nat, k: nat| #[trigger] digit_and_zeros(n / 10, d, k);
        assert(ten_to(k + 1) == 10 * ten_to(k));
        let t = ten_to(k);
        assert(d * (10 * t) == 10 * (d * t)) by (nonlinear_arith);
        assert(digit_and_zeros(n, d, k + 1));
    } else {
        assert(ten_to(0) == 1);
        assert(digit_and_zeros(n, n, 0));
    }
}

proof fn lemma_form_due(d: nat, k: nat)
    requires
        1 <= d <= 9,
    ensures
        report_due(d * ten_to(k)),
    decreases k,
{
    if k == 0 {
        assert(ten_to(0) == 1);
        assert(d * 1 == d);
    } else {
        lemma_form_due(d, (k - 1) as nat);
        let t = ten_to((k - 1) as nat);
        assert(d * (10 * t) == 10 * (d * t)) by (nonlinear_arith);
        let m = d * t;
        assert((10 * m) % 10 == 0);
        assert((10 * m) / 10 == m);
    }
}

/// Where progress is reported after `total` executions.
pub open spec fn progress_at(every: u64, total: nat) -> ProgressTo {
    if every > 0 {
        if total % (every as nat) == 0 {
            ProgressTo::OutputAndErrors
        } else {
            ProgressTo::Nowhere
        }
    } else if report_due(total) {
        ProgressTo::Output
    } else {
        ProgressTo::Nowhere
    }
}

/// The exploration after the execution that ended was counted, if it is consistent.
pub open spec fn counted<P>(v: MustView<P>, block: Option<BlockType>) -> MustView<P> {
    let w = if !graph_consistent(v.current.graph) {
        v
    } else if block is Some {
        MustView { blocked: (v.blocked + 1) as u64, ..v }
    } else {
        MustView { execs: (v.execs + 1) as u64, ..v }
    };
    logged(
        w,
        if block is Some {
            GraphKind::Blocked
        } else {
            GraphKind::Complete
        },
    )
}

/// What is to be told when an execution has been counted.
pub open spec fn report_of<P>(v: MustView<P>, block: Option<BlockType>) -> Report {
    let total = v.execs + v.blocked;
    Report {
        execs: v.execs,
        blocked: v.blocked,
        progress: progress_at(v.config.progress_report, total as nat),
        print_graph: graph_consistent(v.current.graph) && (if block is Some {
            v.config.verbose >= 2
        } else {
            v.config.verbose >= 1
        }),
        exceeded: v.config.max_iterations matches Some(n) && n <= total,
    }
}

/// A list of threads with one more, in ascending order.
pub open spec fn with_thread(list: Seq<ThreadId>, t: ThreadId) -> Seq<ThreadId>
    decreases list.len(),
{
    if list.len() == 0 {
        seq![t]
    } else if list.last() == t {
        list
    } else if list.last().id < t.id {
        list.push(t)
    } else {
        with_thread(list.drop_last(), t).push(list.last())
    }
}

/// Whether threads are listed in ascending order, each once.
pub open spec fn threads_ascend(list: Seq<ThreadId>) -> bool {
    forall|i: int, j: int|
        0 <= i < j < list.len() ==> (#[trigger] list[i]).id < (#[trigger] list[j]).id
}

/// Monitors are listed in ascending order, each once, however they are registered.
pub proof fn law_monitors_are_in_order(list: Seq<ThreadId>, t: ThreadId)
    requires
        threads_ascend(list),
    ensures
        threads_ascend(with_thread(list, t)),
        forall|x: ThreadId| #[trigger]
            with_thread(list, t).contains(x) <==> list.contains(x) || x == t,
    decreases list.len(),
{
    let after = with_thread(list, t);
    if list.len() == 0 {
        assert(after[0] == t);
    } else if list.last() == t {
        assert(list[list.len() - 1] == t);
    } else if list.last().id < t.id {
        assert(after[list.len() as int] == t);
        assert forall|i: int, j: int| 0 <= i < j < after.len() implies (#[trigger] after[i]).id < (
        #[trigger] after[j]).id by {
            if j == list.len() && i < list.len() - 1 {
                assert(list[i].id < list[list.len() - 1].id);
            }
        }
        assert forall|x: ThreadId| #[trigger] after.contains(x) <==> list.contains(x) || x == t by {
            if list.contains(x) {
                let k = choose|k: int| 0 <= k < list.len() && list[k] == x;
                assert(after[k] == x);
            }
        }
    } else {
        let shorter = list.drop_last();
        let inner = with_thread(shorter, t);
        law_monitors_are_in_order(shorter, t);
        assert forall|i: int, j: int| 0 <= i < j < after.len() implies (#[trigger] after[i]).id < (
        #[trigger] after[j]).id by {
            if j == inner.len() {
                assert(after[i] == inner[i]);
                assert(inner.contains(inner[i]));
                if inner[i] != t {
                    let k = choose|k: int| 0 <= k < shorter.len() && shorter[k] == inner[i];
                    assert(list[k].id < list[list.len() - 1].id);
                }
            } else {
                assert(after[i] == inner[i] && after[j] == inner[j]);
            }
        }
        assert forall|x: ThreadId| #[trigger] after.contains(x) <==> list.contains(x) || x == t by {
            if after.contains(x) {
                let k = choose|k: int| 0 <= k < after.len() && after[k] == x;
                if k < inner.len() {
                    assert(inner[k] == x);
                    assert(inner.contains(x));
                    if x != t {
                        let m = choose|m: int| 0 <= m < shorter.len() && shorter[m] == x;
                        assert(list[m] == x);
                    }
                } else {
                    assert(list[list.len() - 1] == x);
                }
            }
            if list.contains(x) || x == t {
                if x == list.last() {
                    assert(after[inner.len() as int] == x);
                } else {
                    if x != t {
                        let m = choose|m: int| 0 <= m < list.len() && list[m] == x;
                        assert(shorter[m] == x);
                    }
                    assert(inner.contains(x));
                    let k = choose|k: int| 0 <= k < inner.len() && inner[k] == x;
                    assert(after[k] == x);
                }
            }
        }
    }
}

/// Adds a thread to an ascending list.
fn insert_thread(list: &mut Vec<ThreadId>, t: ThreadId)
    ensures
        final(list)@ == with_thread(old(list)@, t),
    decreases old(list)@.len(),
{
    let ghost before = list@;
    let n = list.len();
    if n == 0 {
        list.push(t);
        assert(list@ =~= seq![t]);
    } else if list[n - 1] == t {
    } else if list[n - 1].id < t.id {
        list.push(t);
    } else {
        let last = list.pop();
        assert(list@ =~= before.drop_last());
        insert_thread(list, t);
        if let Some(l) = last {
            list.push(l);
        }
    }
}

/// Those of the first `n` monitors that have not ended.
pub open spec fn running_monitors(log: Seq<LabelView>, monitors: Seq<ThreadId>, n: nat) -> Seq<
    ThreadId,
>
    decreases n,
{
    if n == 0 {
        Seq::empty()
    } else if thread_complete(log, monitors[n - 1]) {
        running_monitors(log, monitors, (n - 1) as nat)
    } else {
        running_monitors(log, monitors, (n - 1) as nat).push(monitors[n - 1])
    }
}

/// The monitors that are told that the execution has stopped: none where an
/// assumption failed.
pub open spec fn monitors_to_stop<P>(v: MustView<P>, condition: EndCondition) -> Seq<ThreadId> {
    if condition is FailedAssumption {
        Seq::empty()
    } else {
        running_monitors(log_of(v), v.monitors, v.monitors.len())
    }
}

/// The exploration after an execution was brought to its end.
pub open spec fn ended<P>(v: MustView<P>) -> MustView<P> {
    let block = blocked_by(log_of(v));
    let w = counted(v, block);
    MustView {
        monitors: if end_condition(block) is FailedAssumption {
            w.monitors
        } else {
            Seq::empty()
        },
        published: Seq::empty(),
        ..w
    }
}

/// The exploration at the start of the execution after one that has ended, and
/// whether there is one.
pub open spec fn moved_on<P>(v: MustView<P>) -> (MustView<P>, bool) {
    revisit_next(MustView { layout: fresh_row(v.layout), stopped: false, ..v })
}

/// How an execution ended.
pub struct Ending {
    pub condition: EndCondition,
    /// The monitors that are to be told.
    pub monitors: Vec<ThreadId>,
    /// What the threads published, by thread and type.
    pub published: Vec<(ThreadId, u64, Val)>,
    pub report: Report,
}

/// What a monitor is told when it stops.
pub struct ExecutionEnd {
    pub condition: EndCondition,
    /// What the threads published, by thread and type.
    pub published: Vec<(ThreadId, u64, Val)>,
}

fn copy_published(list: &Vec<(ThreadId, u64, Val)>) -> (r: Vec<(ThreadId, u64, Val)>)
    ensures
        r@ == list@,
{
    let mut r: Vec<(ThreadId, u64, Val)> = Vec::new();
    let mut i: usize = 0;
    while i < list.len()
        invariant
            i <= list@.len(),
            r@ == list@.take(i as int),
        decreases list.len() - i,
    {
        r.push(list[i]);
        i += 1;
    }
    assert(r@ =~= list@);
    r
}

/// Why a monitor cannot be spawned.
#[derive(Clone, Copy, Debug, PartialEq, Eq, Structural)]
pub enum MonitorSpawnError {
    /// Monitors can only be spawned from the main thread.
    NotMainThread,
    /// Monitors must be spawned before any other instruction.
    NotFirst,
}

/// Whether the `i`-th event of thread `t` spawned a monitor.
pub open spec fn spawns_monitor<P>(v: MustView<P>, t: ThreadId, i: u32) -> bool {
    let e = Event { thread: t, index: i };
    in_log(log_of(v), e) && (label_at(log_of(v), e).kind matches KindView::TCreate { cid, .. }
        && v.monitors.contains(cid))
}

/// What `publish` leaves: one value per thread and type, the latest.
pub open spec fn with_published(
    list: Seq<(ThreadId, u64, Val)>,
    entry: (ThreadId, u64, Val),
    n: nat,
) -> Seq<(ThreadId, u64, Val)>
    decreases n,
{
    if n == 0 {
        list.push(entry)
    } else if list[n - 1].0 == entry.0 && list[n - 1].1 == entry.1 {
        list.update(n - 1, entry)
    } else {
        with_published(list, entry, (n - 1) as nat)
    }
}

impl<P: RecvPredicate> Must<P> {
    /// Prepares for an execution.
    pub fn begin_execution(&mut self)
        requires
            old(self).wf(),
        ensures
            final(self).wf(),
            final(self)@ == with_graph(old(self)@, ready(old(self)@.current.graph)),
    {
        let ghost before = self@;
        self.current.graph.initialize_for_execution();
        proof {
            let g = before.current.graph;
            let h = ready(g);
            assert(self@ =~= with_graph(before, h));
            lemma_ready(g);
            assert forall|e: Event| in_log(g.log, e) implies (#[trigger] label_at(h.log, e)).stamp
                == label_at(g.log, e).stamp && has_alternatives(label_at(h.log, e).kind)
                == has_alternatives(label_at(g.log, e).kind) && (label_at(h.log, e).kind is Send) == (
            label_at(g.log, e).kind is Send) by {
                let i = index_of(g.log, e);
                assert(g.log[i].pos == e);
                assert(h.log[i].pos == e);
                lemma_index_of(g.log, i);
                lemma_index_of(h.log, i);
            }
            assert forall|k: int| 0 <= k < before.current.rqueue.len() implies entry_ok(
                h.log,
                #[trigger] before.current.rqueue[k],
            ) && before.current.rqueue[k].0 < h.stamp by {
                let entry = before.current.rqueue[k];
                assert(entry_ok(g.log, entry));
                assert(in_log(h.log, entry.1.pos));
                assert(label_at(h.log, entry.1.pos).stamp == label_at(g.log, entry.1.pos).stamp);
                assert forall|e: Event|
                    #![trigger in_log(g.log, e)]
                    entry.1.backward && in_log(g.log, e) && label_at(g.log, e).kind is Send
                        && sends_of(entry.1.rev).contains(e) implies in_log(h.log, e) && label_at(
                    h.log,
                    e,
                ).kind is Send && label_at(h.log, e).stamp == label_at(g.log, e).stamp by {
                    assert(in_log(h.log, e));
                    assert(label_at(h.log, e).stamp == label_at(g.log, e).stamp);
                }
                lemma_entry_kept(g.log, h.log, entry);
            }
            assert(self@.states == before.states);
        }
    }

    /// Publishes a value of `thread_id`; it replaces the last one of the same type.
    pub fn publish(&mut self, thread_id: ThreadId, val: Val)
        ensures
            final(self)@ == (MustView {
                published: with_published(
                    old(self)@.published,
                    (thread_id, val.type_key, val),
                    old(self)@.published.len(),
                ),
                ..old(self)@
            }),
    {
        let ghost before = self@;
        let ghost entry = (thread_id, val.type_key, val);
        let mut n: usize = self.published.len();
        while n > 0
            invariant
                n <= self.published.len(),
                self@ == before,
                entry == (thread_id, val.type_key, val),
                before == old(self)@,
                with_published(before.published, entry, n as nat) == with_published(
                    before.published,
                    entry,
                    before.published.len(),
                ),
            decreases n,
        {
            if self.published[n - 1].0 == thread_id && self.published[n - 1].1 == val.type_key {
                self.published.set(n - 1, (thread_id, val.type_key, val));
                assert(self@ =~= MustView {
                    published: with_published(before.published, entry, before.published.len()),
                    ..before
                });
                return ;
            }
            n -= 1;
        }
        self.published.push((thread_id, val.type_key, val));
        assert(self@ =~= MustView {
            published: with_published(before.published, entry, before.published.len()),
            ..before
        });
    }

    /// Registers the thread of a monitor. Monitors are kept in ascending order.
    pub fn handle_register_mon(&mut self, monitor: ThreadId)
        ensures
            final(self)@ == (MustView {
                monitors: with_thread(old(self)@.monitors, monitor),
                ..old(self)@
            }),
    {
        let ghost before = self@;
        insert_thread(&mut self.monitors, monitor);
        assert(self@ =~= MustView {
            monitors: with_thread(before.monitors, monitor),
            ..before
        });
    }

    /// Whether a monitor may be spawned at `curr`: by the main thread, before it has
    /// done anything but spawning monitors.
    pub fn validate_monitor_spawn(&self, curr: Event) -> (r: Result<(), MonitorSpawnError>)
        requires
            self.wf(),
        ensures
            r == Err::<(), MonitorSpawnError>(MonitorSpawnError::NotMainThread)
                <==> curr.thread.id != 0,
            r is Ok <==> curr.thread.id == 0 && forall|i: u32|
                1 <= i < curr.index ==> #[trigger] spawns_monitor(self@, curr.thread, i),
    {
        if curr.thread != main_thread_id() {
            return Err(MonitorSpawnError::NotMainThread);
        }
        let mut i: u32 = 1;
        while i < curr.index
            invariant
                self.wf(),
                curr.thread.id == 0,
                1 <= i,
                curr.index >= 1 ==> i <= curr.index,
                forall|k: u32| 1 <= k < i ==> #[trigger] spawns_monitor(self@, curr.thread, k),
            decreases curr.index - i,
        {
            let spawns = match self.current.graph.label_opt(Event::new(curr.thread, i)) {
                Some(l) => match &l.kind {
                    LabelKind::TCreate { cid, .. } => crate::loc::thread_in(&self.monitors, *cid),
                    _ => false,
                },
                None => false,
            };
            if !spawns {
                assert(!spawns_monitor(self@, curr.thread, i));
                return Err(MonitorSpawnError::NotFirst);
            }
            i += 1;
        }
        Ok(())
    }

    /// Why the execution is blocked, if it is.
    pub fn check_blocked(&self) -> (r: Option<BlockType>)
        ensures
            r == blocked_by(log_of(self@)),
    {
        let threads = self.current.graph.thread_ids();
        let mut i: usize = 0;
        while i < threads.len()
            invariant
                i <= threads.len(),
                threads@ == threads_upto(log_of(self@), log_of(self@).len()),
                first_block(log_of(self@), threads@, i as nat) is None,
            decreases threads.len() - i,
        {
            let t = threads[i];
            let block = self.current.graph.thread_block(t);
            let stuck = match block {
                Some(BlockType::Value(_, _)) => !self.current.graph.is_thread_daemon(t),
                Some(_) => true,
                None => false,
            };
            if stuck {
                proof {
                    lemma_first_block(
                        log_of(self@),
                        threads@,
                        (i + 1) as nat,
                        threads@.len(),
                    );
                }
                return block;
            }
            i += 1;
        }
        None
    }

    /// Whether a rarer and rarer report is due after `n` executions.
    pub fn should_report(n: u64) -> (b: bool)
        ensures
            b == report_due(n as nat),
    {
        if n == 0 {
            return false;
        }
        let mut p = n;
        while p % 10 == 0
            invariant
                p > 0,
                without_zeros(p as nat) == without_zeros(n as nat),
            decreases p,
        {
            p = p / 10;
        }
        p < 10
    }

    /// Counts the execution that has ended. Returns what is to be told.
    pub fn record_ending_telemetry(&mut self, maybe_block: &Option<BlockType>) -> (r: Report)
        requires
            old(self).wf(),
            old(self)@.execs + old(self)@.blocked < u64::MAX,
        ensures
            final(self).wf(),
            final(self)@ == counted(old(self)@, *maybe_block),
            r == report_of(final(self)@, *maybe_block),
    {
        let ghost before = self@;
        let blocked = maybe_block.is_some();
        let is_consistent = self.is_consistent();
        if is_consistent {
            if blocked {
                self.blocked = self.blocked + 1;
            } else {
                self.execs = self.execs + 1;
            }
        }
        let num_total = self.execs + self.blocked;
        let progress = if self.config.progress_report > 0 {
            if num_total % self.config.progress_report == 0 {
                ProgressTo::OutputAndErrors
            } else {
                ProgressTo::Nowhere
            }
        } else if Self::should_report(num_total) {
            ProgressTo::Output
        } else {
            ProgressTo::Nowhere
        };
        let ghost mid = self@;
        assert(mid =~= if !is_consistent {
            before
        } else if blocked {
            MustView { blocked: (before.blocked + 1) as u64, ..before }
        } else {
            MustView { execs: (before.execs + 1) as u64, ..before }
        });
        self.log_tikz_graph(if blocked {
            GraphKind::Blocked
        } else {
            GraphKind::Complete
        });
        proof {
            assert(self@.current == before.current);
            assert(self@.states == before.states);
        }
        let exceeded = match self.config.max_iterations {
            Some(n) => n <= num_total,
            None => false,
        };
        Report {
            execs: self.execs,
            blocked: self.blocked,
            progress,
            print_graph: is_consistent && (if blocked {
                self.config.verbose >= 2
            } else {
                self.config.verbose >= 1
            }),
            exceeded,
        }
    }

    /// What a monitor is told that ends by itself.
    pub fn invoke_on_stop(&self) -> (e: ExecutionEnd)
        ensures
            e.condition is MonitorTerminated,
            e.published@ == self@.published,
    {
        ExecutionEnd {
            condition: EndCondition::MonitorTerminated,
            published: copy_published(&self.published),
        }
    }

    /// Brings the current execution to its end.
    pub fn end_execution(&mut self) -> (r: Ending)
        requires
            old(self).wf(),
            old(self)@.execs + old(self)@.blocked < u64::MAX,
        ensures
            final(self).wf(),
            final(self)@ == ended(old(self)@),
            r.condition == end_condition(blocked_by(log_of(old(self)@))),
            r.monitors@ == monitors_to_stop(old(self)@, r.condition),
            r.published@ == old(self)@.published,
            r.report == report_of(
                counted(old(self)@, blocked_by(log_of(old(self)@))),
                blocked_by(log_of(old(self)@)),
            ),
    {
        let ghost before = self@;
        let maybe_block = self.check_blocked();
        let report = self.record_ending_telemetry(&maybe_block);
        let condition = match maybe_block {
            None => EndCondition::AllThreadsCompleted,
            Some(BlockType::Assume) | Some(BlockType::Assert) => EndCondition::FailedAssumption,
            Some(_) => EndCondition::Deadlock,
        };
        let mut monitors: Vec<ThreadId> = Vec::new();
        let ghost mid = self@;
        assert(log_of(mid) == log_of(before));
        if condition != EndCondition::FailedAssumption {
            let mut i: usize = 0;
            while i < self.monitors.len()
                invariant
                    self@ == mid,
                    i <= self.monitors.len(),
                    monitors@ == running_monitors(log_of(mid), mid.monitors, i as nat),
                decreases self.monitors.len() - i,
            {
                if !self.current.graph.is_thread_complete(self.monitors[i]) {
                    monitors.push(self.monitors[i]);
                }
                i += 1;
            }
            self.monitors = Vec::new();
        } else {
            assert(monitors@ =~= Seq::<ThreadId>::empty());
        }
        let published = copy_published(&self.published);
        self.published = Vec::new();
        proof {
            assert(self@ =~= ended(before));
            assert(self@.states == before.states);
            assert(self@.current == before.current);
        }
        Ending { condition, monitors, published, report }
    }

    /// Goes on to the next execution; returns false where there is none.
    pub fn next_execution(&mut self) -> (b: bool)
        requires
            old(self).wf(),
        ensures
            final(self).wf(),
            (final(self)@, b) == moved_on(old(self)@),
    {
        let ghost before = self@;
        self.layout = self.layout.next_execution();
        self.unstop();
        proof {
            assert(self@ =~= MustView {
                layout: fresh_row(before.layout),
                stopped: false,
                ..before
            });
            assert(self@.states == before.states);
            assert(self@.current == before.current);
        }
        self.try_revisit()
    }

    /// Ends the current execution and goes on to the next one. Returns true where
    /// nothing more is to be explored.
    pub fn complete_execution(&mut self) -> (done: bool)
        requires
            old(self).wf(),
            old(self)@.execs + old(self)@.blocked < u64::MAX,
        ensures
            final(self).wf(),
            ({
                let w = ended(old(self)@);
                let report = report_of(
                    counted(old(self)@, blocked_by(log_of(old(self)@))),
                    blocked_by(log_of(old(self)@)),
                );
                if report.exceeded {
                    final(self)@ == w && done
                } else {
                    (final(self)@, !done) == moved_on(w)
                }
            }),
    {
        let ending = self.end_execution();
        if ending.report.exceeded {
            return true;
        }
        !self.next_execution()
    }

    pub fn stats(&self) -> (s: Stats)
        ensures
            s == (Stats { execs: self@.execs, block: self@.blocked }),
    {
        Stats { execs: self.execs, block: self.blocked }
    }

    /// Lets up to `room` graphs be handed to other workers.
    pub fn set_parallel_queues(&mut self, room: usize)
        ensures
            final(self)@ == (MustView { room, ..old(self)@ }),
    {
        let ghost before = self@;
        self.room = room;
        assert(self@ =~= MustView { room, ..before });
    }

    /// Explores from `eg` alone.
    pub fn reset_execution_graph(&mut self, eg: ExecutionGraph)
        requires
            eg.wf(),
        ensures
            final(self).wf(),
            final(self)@ == (MustView {
                states: Seq::empty(),
                current: StateView { graph: eg@, rqueue: Seq::empty() },
                ..old(self)@
            }),
    {
        let ghost before = self@;
        self.current.rqueue.clear();
        self.states = Vec::new();
        self.current.graph = eg;
        assert(self@ =~= MustView {
            states: Seq::empty(),
            current: StateView { graph: eg@, rqueue: Seq::empty() },
            ..before
        });
    }

    /// Extracts from a failing execution what is needed to replay it, up to `pos`. Only
    /// the first failure is kept, and none where failures are not to be kept.
    pub fn store_replay_information(&mut self, pos: Option<Event>) -> (stored: bool)
        requires
            old(self).wf(),
        ensures
            final(self).wf(),
            stored == (!old(self)@.replay.error_found && old(self)@.config.error_trace),
            !stored ==> final(self)@ == old(self)@,
            stored ==> final(self)@ == (MustView { replay: final(self)@.replay, ..old(self)@ })
                && final(self)@.replay == (ReplayView {
                order: final(self)@.replay.order,
                at: 0,
                current: None,
                replay_mode: true,
                error_found: true,
                config: old(self)@.config,
            }) && runs(log_of(old(self)@), pos, final(self)@.replay.order) && exhausted(
                log_of(old(self)@),
                pos,
                final(self)@.replay.order,
            ),
    {
        let ghost before = self@;
        if self.replay_info.error_found || !self.config.error_trace {
            return false;
        }
        let order = self.current.graph.top_sort(pos);
        self.replay_info = ReplayInformation::create(order, self.config);
        proof {
            assert(self@ =~= MustView { replay: self@.replay, ..before });
            assert(self@.states == before.states);
            assert(self@.current == before.current);
        }
        true
    }

    /// Replays the recorded execution of `replay_info` on its graph, under its settings.
    pub fn load_replay_information(
        &mut self,
        replay_info: ReplayInformation,
        error_state: MustState,
    )
        requires
            old(self).wf(),
            state_ok(error_state@),
        ensures
            final(self).wf(),
            final(self)@ == (MustView {
                replay: replay_info@,
                current: error_state@,
                config: replay_info@.config,
                ..old(self)@
            }),
    {
        let ghost before = self@;
        self.replay_info = replay_info;
        self.current = error_state;
        self.config = self.replay_info.config();
        proof {
            assert(self@ =~= MustView {
                replay: replay_info@,
                current: error_state@,
                config: replay_info@.config,
                ..before
            });
            assert(self@.states == before.states);
        }
    }
}

/// What was found first stays first.
proof fn lemma_first_block(log: Seq<LabelView>, threads: Seq<ThreadId>, m: nat, n: nat)
    requires
        m <= n,
        first_block(log, threads, m) is Some,
    ensures
        first_block(log, threads, n) == first_block(log, threads, m),
    decreases n,
{
    if m < n {
        lemma_first_block(log, threads, m, (n - 1) as nat);
    }
}

} // verus!
