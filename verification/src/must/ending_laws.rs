//! What an exploration tells of an execution that has ended.

use crate::event::ThreadId;
use crate::event_label::{BlockType, KindView, LabelView};
use crate::exec_graph::{
    block_of, creation_place, first_event, has_thread, index_of, is_daemon, last_place,
    lemma_below, lemma_index_of, lemma_last_place, log_wf, thread_complete, threads_upto,
};
use crate::layout::GraphKind;
use crate::must::ending::{
    blocked_by, counted, digit_and_zeros, end_condition, ended, first_block, law_report_due,
    monitors_to_stop, report_of, running_monitors, threads_ascend, EndCondition, ProgressTo,
};
use crate::must::{log_of, must_ok, MustView};
use vstd::prelude::*;

verus! {

/// Whether the label at place `i` is the last one of its thread.
pub open spec fn ends_thread(log: Seq<LabelView>, i: int) -> bool {
    0 <= i < log.len() && forall|j: int|
        i < j < log.len() ==> (#[trigger] log[j]).pos.thread != log[i].pos.thread
}

/// Whether the label `l` creates thread `t`.
pub open spec fn creates(l: LabelView, t: ThreadId) -> bool {
    l.kind matches KindView::TCreate { cid, .. } && cid == t
}

/// Whether thread `t` was made a daemon when it was created last.
pub open spec fn made_daemon(log: Seq<LabelView>, t: ThreadId) -> bool {
    exists|c: int|
        0 <= c < log.len() && creates(#[trigger] log[c], t) && log[c].kind->daemon && forall|d: int|
            c < d < log.len() ==> !creates(#[trigger] log[d], t)
}

/// Whether the thread of the label at place `i` is stuck there for the reason `why`. A
/// daemon that waits for a message is not stuck.
pub open spec fn stuck(log: Seq<LabelView>, i: int, why: BlockType) -> bool {
    &&& ends_thread(log, i)
    &&& log[i].kind == (KindView::Block { btype: why })
    &&& !(why is Value && made_daemon(log, log[i].pos.thread))
}

/// Whether thread `a` began before thread `b`.
pub open spec fn began_before(log: Seq<LabelView>, a: ThreadId, b: ThreadId) -> bool {
    exists|i: int, j: int|
        0 <= i < j < log.len() && (#[trigger] log[i]).pos == first_event(a) && (
        #[trigger] log[j]).pos == first_event(b)
}

/// Whether of all stuck threads that of the label at place `i` began first, and why it is
/// stuck.
pub open spec fn stuck_first(log: Seq<LabelView>, i: int, why: BlockType) -> bool {
    stuck(log, i, why) && forall|j: int, other: BlockType| #[trigger]
        stuck(log, j, other) && j != i ==> began_before(log, log[i].pos.thread, log[j].pos.thread)
}

/// Why thread `t` is stuck, if it is.
spec fn stuck_reason(log: Seq<LabelView>, t: ThreadId) -> Option<BlockType> {
    match block_of(log, t) {
        Some(BlockType::Value(loc, min)) => if is_daemon(log, t) {
            None
        } else {
            Some(BlockType::Value(loc, min))
        },
        other => other,
    }
}

proof fn lemma_creation_place(log: Seq<LabelView>, t: ThreadId, n: nat)
    requires
        n <= log.len(),
    ensures
        creation_place(log, t, n) <= n,
        creation_place(log, t, n) > 0 ==> creates(log[creation_place(log, t, n) - 1], t),
        forall|d: int| creation_place(log, t, n) <= d < n ==> !creates(#[trigger] log[d], t),
    decreases n,
{
    if n > 0 {
        lemma_creation_place(log, t, (n - 1) as nat);
    }
}

proof fn lemma_made_daemon(log: Seq<LabelView>, t: ThreadId)
    ensures
        is_daemon(log, t) == made_daemon(log, t),
{
    lemma_creation_place(log, t, log.len());
    let n = creation_place(log, t, log.len());
    if made_daemon(log, t) {
        let c = choose|c: int|
            0 <= c < log.len() && creates(#[trigger] log[c], t) && log[c].kind->daemon && forall|
                d: int,
            |
                c < d < log.len() ==> !creates(#[trigger] log[d], t);
        assert(c == n - 1);
    }
    if is_daemon(log, t) {
        assert(creates(log[n - 1], t));
    }
}

/// A thread is stuck for the reason that its last label gives.
proof fn lemma_stuck_reason(log: Seq<LabelView>, t: ThreadId)
    ensures
        stuck_reason(log, t) matches Some(why) ==> has_thread(log, t) && stuck(
            log,
            last_place(log, t, log.len()) - 1,
            why,
        ) && log[last_place(log, t, log.len()) - 1].pos.thread == t,
        forall|i: int, why: BlockType| #[trigger]
            stuck(log, i, why) && log[i].pos.thread == t ==> stuck_reason(log, t) == Some(why) && i
                == last_place(log, t, log.len()) - 1,
{
    lemma_made_daemon(log, t);
    lemma_last_place(log, t, log.len());
    let n = last_place(log, t, log.len());
    assert forall|i: int, why: BlockType| #[trigger]
        stuck(log, i, why) && log[i].pos.thread == t implies stuck_reason(log, t) == Some(why) && i
        == n - 1 by {
        if n - 1 > i {
            assert(log[n - 1].pos.thread == t);
        }
    }
}

/// Where the threads of the first `n` labels began, in their order.
proof fn lemma_threads(log: Seq<LabelView>, n: nat)
    requires
        n <= log.len(),
    ensures
        forall|k: int|
            0 <= k < threads_upto(log, n).len() ==> exists|p: int|
                0 <= p < n && (#[trigger] log[p]).pos == first_event(
                    #[trigger] threads_upto(log, n)[k],
                ),
        forall|p: int|
            0 <= p < n && (#[trigger] log[p]).pos.index == 0 ==> threads_upto(log, n).contains(
                log[p].pos.thread,
            ),
        forall|j: int, k: int|
            0 <= j < k < threads_upto(log, n).len() ==> began_before(
                log,
                #[trigger] threads_upto(log, n)[j],
                #[trigger] threads_upto(log, n)[k],
            ),
    decreases n,
{
    if n > 0 {
        let m = (n - 1) as nat;
        lemma_threads(log, m);
        let before = threads_upto(log, m);
        let after = threads_upto(log, n);
        if log[n - 1].pos.index == 0 {
            let t = log[n - 1].pos.thread;
            assert(log[n - 1].pos == first_event(t));
            assert forall|k: int| 0 <= k < after.len() implies exists|p: int|
                0 <= p < n && (#[trigger] log[p]).pos == first_event(#[trigger] after[k]) by {
                if k < before.len() {
                    assert(after[k] == before[k]);
                    let p = choose|p: int|
                        0 <= p < m && (#[trigger] log[p]).pos == first_event(before[k]);
                    assert(log[p].pos == first_event(after[k]));
                } else {
                    assert(log[n - 1].pos == first_event(after[k]));
                }
            }
            assert forall|p: int|
                0 <= p < n && (#[trigger] log[p]).pos.index == 0 implies after.contains(
                log[p].pos.thread,
            ) by {
                if p < m {
                    let k = choose|k: int| 0 <= k < before.len() && before[k] == log[p].pos.thread;
                    assert(after[k] == log[p].pos.thread);
                } else {
                    assert(after[before.len() as int] == t);
                }
            }
            assert forall|j: int, k: int| 0 <= j < k < after.len() implies began_before(
                log,
                #[trigger] after[j],
                #[trigger] after[k],
            ) by {
                assert(after[j] == before[j]);
                if k < before.len() {
                    assert(after[k] == before[k]);
                } else {
                    let p = choose|p: int|
                        0 <= p < m && (#[trigger] log[p]).pos == first_event(before[j]);
                    assert(log[p].pos == first_event(after[j]) && log[n - 1].pos == first_event(
                        after[k],
                    ));
                }
            }
        }
    }
}

/// Which of the threads is the first that is stuck.
proof fn lemma_first_block(log: Seq<LabelView>, threads: Seq<ThreadId>, n: nat) -> (k: int)
    requires
        n <= threads.len(),
    ensures
        first_block(log, threads, n) is None ==> forall|j: int|
            0 <= j < n ==> stuck_reason(log, #[trigger] threads[j]) is None,
        first_block(log, threads, n) matches Some(why) ==> 0 <= k < n && stuck_reason(
            log,
            threads[k],
        ) == Some(why) && forall|j: int|
            0 <= j < k ==> stuck_reason(log, #[trigger] threads[j]) is None,
    decreases n,
{
    if n == 0 {
        0
    } else {
        let k = lemma_first_block(log, threads, (n - 1) as nat);
        if first_block(log, threads, (n - 1) as nat) is Some {
            k
        } else {
            n - 1
        }
    }
}

proof fn lemma_blocked_by(log: Seq<LabelView>) -> (i: int)
    requires
        log_wf(log),
    ensures
        blocked_by(log) is None ==> forall|j: int, why: BlockType| !(#[trigger] stuck(log, j, why)),
        blocked_by(log) matches Some(why) ==> stuck_first(log, i, why),
{
    let threads = threads_upto(log, log.len());
    lemma_threads(log, log.len());
    let k = lemma_first_block(log, threads, threads.len());
    assert forall|j: int, why: BlockType| #[trigger] stuck(log, j, why) implies threads.contains(
        log[j].pos.thread,
    ) && stuck_reason(log, log[j].pos.thread) == Some(why) by {
        lemma_below(log, j, 0);
        let p = index_of(log, first_event(log[j].pos.thread));
        assert(log[p].pos == first_event(log[j].pos.thread));
        lemma_stuck_reason(log, log[j].pos.thread);
    }
    if blocked_by(log) is None {
        assert forall|j: int, why: BlockType| !(#[trigger] stuck(log, j, why)) by {
            if stuck(log, j, why) {
                let m = choose|m: int| 0 <= m < threads.len() && threads[m] == log[j].pos.thread;
                assert(stuck_reason(log, threads[m]) is None);
            }
        }
        0
    } else {
        let t = threads[k];
        lemma_stuck_reason(log, t);
        let i = last_place(log, t, log.len()) - 1;
        let why = blocked_by(log)->0;
        assert(stuck(log, i, why));
        assert forall|j: int, other: BlockType| #[trigger]
            stuck(log, j, other) && j != i implies began_before(
            log,
            log[i].pos.thread,
            log[j].pos.thread,
        ) by {
            let u = log[j].pos.thread;
            let m = choose|m: int| 0 <= m < threads.len() && threads[m] == u;
            assert(stuck_reason(log, threads[m]) is Some);
            assert(m >= k);
            assert(m != k);
            assert(began_before(log, threads[k], threads[m]));
        }
        i
    }
}

/// Of two threads each began before the other in no log.
proof fn lemma_stuck_first_is_one(
    log: Seq<LabelView>,
    i: int,
    why: BlockType,
    j: int,
    other: BlockType,
)
    requires
        log_wf(log),
        stuck_first(log, i, why),
        stuck_first(log, j, other),
    ensures
        i == j,
        why == other,
{
    if i != j {
        let a = log[i].pos.thread;
        let b = log[j].pos.thread;
        assert(stuck(log, i, why) && stuck(log, j, other));
        assert(began_before(log, a, b) && began_before(log, b, a));
        let (p, q) = choose|p: int, q: int|
            0 <= p < q < log.len() && (#[trigger] log[p]).pos == first_event(a) && (
            #[trigger] log[q]).pos == first_event(b);
        let (r, s) = choose|r: int, s: int|
            0 <= r < s < log.len() && (#[trigger] log[r]).pos == first_event(b) && (
            #[trigger] log[s]).pos == first_event(a);
        lemma_index_of(log, p);
        lemma_index_of(log, q);
        lemma_index_of(log, r);
        lemma_index_of(log, s);
    }
}

/// An execution that has ended is told as complete exactly if no thread is stuck, as a
/// failed assumption exactly if of the stuck threads the one that began first is stuck at
/// an assumption or assertion, and as a deadlock exactly if that thread waits for a message
/// or for another thread.
pub proof fn law_endings_are_told_as_they_are<P>(v: MustView<P>)
    requires
        must_ok(v),
    ensures
        ({
            let log = log_of(v);
            let told = end_condition(blocked_by(log));
            &&& told == EndCondition::AllThreadsCompleted <==> forall|i: int, why: BlockType|
                !(#[trigger] stuck(log, i, why))
            &&& told == EndCondition::FailedAssumption <==> exists|i: int, why: BlockType| #[trigger]
                stuck_first(log, i, why) && (why == BlockType::Assume || why == BlockType::Assert)
            &&& told == EndCondition::Deadlock <==> exists|i: int, why: BlockType| #[trigger]
                stuck_first(log, i, why) && (why is Value || why is Join)
        }),
{
    let log = log_of(v);
    let i = lemma_blocked_by(log);
    if blocked_by(log) is Some {
        let why = blocked_by(log)->0;
        assert(stuck_first(log, i, why));
        assert(stuck(log, i, why));
        assert forall|j: int, other: BlockType| #[trigger] stuck_first(log, j, other) implies j == i
            && other == why by {
            lemma_stuck_first_is_one(log, j, other, i, why);
        }
    } else {
        assert forall|j: int, other: BlockType| !(#[trigger] stuck_first(log, j, other)) by {
            if stuck_first(log, j, other) {
                assert(stuck(log, j, other));
            }
        }
    }
}

/// An execution is counted as complete exactly if no thread is stuck, and as blocked
/// otherwise; its picture, where pictures are kept, says the same. Nothing of it is carried
/// over but the monitors, where an assumption failed.
pub proof fn law_endings_are_counted_as_they_are<P>(v: MustView<P>)
    requires
        must_ok(v),
        v.execs < u64::MAX,
        v.blocked < u64::MAX,
    ensures
        ({
            let log = log_of(v);
            let complete = forall|i: int, why: BlockType| !(#[trigger] stuck(log, i, why));
            let w = ended(v);
            &&& w.execs == (if complete { v.execs + 1 } else { v.execs as int })
            &&& w.blocked == (if complete { v.blocked as int } else { v.blocked + 1 })
            &&& w.current == v.current
            &&& w.states == v.states
            &&& w.locs == v.locs
            &&& w.config == v.config
            &&& w.published.len() == 0
            &&& w.monitors.len() > 0 ==> w.monitors == v.monitors && end_condition(
                blocked_by(log),
            ) == EndCondition::FailedAssumption
            &&& v.config.tikz ==> w.pages.len() == v.pages.len() + 1 && w.pages.last().graph
                == v.current.graph && w.pages.last().kind == (if complete {
                GraphKind::Complete
            } else {
                GraphKind::Blocked
            })
            &&& !v.config.tikz ==> w.pages == v.pages
        }),
{
    let log = log_of(v);
    let i = lemma_blocked_by(log);
    if blocked_by(log) is Some {
        assert(stuck(log, i, blocked_by(log)->0));
    }
}

proof fn lemma_running(log: Seq<LabelView>, monitors: Seq<ThreadId>, n: nat)
    requires
        n <= monitors.len(),
    ensures
        forall|t: ThreadId| #[trigger]
            running_monitors(log, monitors, n).contains(t) <==> exists|k: int|
                0 <= k < n && #[trigger] monitors[k] == t && !thread_complete(log, t),
        threads_ascend(monitors) ==> threads_ascend(running_monitors(log, monitors, n)),
    decreases n,
{
    if n > 0 {
        let m = (n - 1) as nat;
        lemma_running(log, monitors, m);
        let before = running_monitors(log, monitors, m);
        let after = running_monitors(log, monitors, n);
        let t = monitors[n - 1];
        assert forall|x: ThreadId| #[trigger] after.contains(x) <==> exists|k: int|
            0 <= k < n && #[trigger] monitors[k] == x && !thread_complete(log, x) by {
            if after.contains(x) {
                let k = choose|k: int| 0 <= k < after.len() && after[k] == x;
                if k < before.len() {
                    assert(before[k] == x);
                    assert(before.contains(x));
                    let p = choose|p: int|
                        0 <= p < m && #[trigger] monitors[p] == x && !thread_complete(log, x);
                    assert(monitors[p] == x);
                } else {
                    assert(monitors[n - 1] == x);
                }
            }
            if exists|k: int| 0 <= k < n && #[trigger] monitors[k] == x && !thread_complete(log, x) {
                let k = choose|k: int|
                    0 <= k < n && #[trigger] monitors[k] == x && !thread_complete(log, x);
                if k < m {
                    assert(before.contains(x));
                    let p = choose|p: int| 0 <= p < before.len() && before[p] == x;
                    assert(after[p] == x);
                } else {
                    assert(after[before.len() as int] == x);
                }
            }
        }
        if threads_ascend(monitors) && !thread_complete(log, t) {
            assert forall|i: int, j: int| 0 <= i < j < after.len() implies (
            #[trigger] after[i]).id < (#[trigger] after[j]).id by {
                assert(after[i] == before[i]);
                if j < before.len() {
                    assert(after[j] == before[j]);
                } else {
                    assert(before.contains(before[i]));
                    let p = choose|p: int|
                        0 <= p < m && #[trigger] monitors[p] == before[i] && !thread_complete(
                            log,
                            before[i],
                        );
                    assert(monitors[p].id < monitors[n - 1].id);
                }
            }
        }
    }
}

/// A monitor is told that the execution has ended exactly if it is registered, no
/// assumption failed, and it has not ended itself. Monitors are told in ascending order.
pub proof fn law_running_monitors_are_told<P>(v: MustView<P>, t: ThreadId)
    requires
        must_ok(v),
    ensures
        ({
            let log = log_of(v);
            let told = end_condition(blocked_by(log));
            &&& monitors_to_stop(v, told).contains(t) <==> v.monitors.contains(t) && told
                != EndCondition::FailedAssumption && !(exists|i: int|
                #![trigger ends_thread(log, i)]
                ends_thread(log, i) && log[i].pos.thread == t && log[i].kind is End)
            &&& threads_ascend(v.monitors) ==> threads_ascend(monitors_to_stop(v, told))
        }),
{
    let log = log_of(v);
    lemma_running(log, v.monitors, v.monitors.len());
    lemma_last_place(log, t, log.len());
    let n = last_place(log, t, log.len());
    if thread_complete(log, t) {
        assert(ends_thread(log, n - 1));
    }
    assert forall|i: int|
        #![trigger ends_thread(log, i)]
        ends_thread(log, i) && log[i].pos.thread == t && log[i].kind is End implies thread_complete(
        log,
        t,
    ) by {
        if n - 1 > i {
            assert(log[n - 1].pos.thread == t);
        }
    }
    if v.monitors.contains(t) {
        let k = choose|k: int| 0 <= k < v.monitors.len() && v.monitors[k] == t;
        assert(v.monitors[k] == t);
    }
}

/// What is told of the numbers: the graph is printed of complete executions at the first
/// level of detail and of all at the second; progress is told after every so many
/// executions where a number is set, and otherwise after one digit times a power of ten; the exploration is over once the largest number is
/// reached.
pub proof fn law_reports_go_by_the_settings<P>(v: MustView<P>)
    requires
        must_ok(v),
        v.execs < u64::MAX,
        v.blocked < u64::MAX,
    ensures
        ({
            let block = blocked_by(log_of(v));
            let w = counted(v, block);
            let report = report_of(w, block);
            let total = v.execs + v.blocked + 1;
            &&& report.execs + report.blocked == total
            &&& report.print_graph == (v.config.verbose >= 2 || (v.config.verbose == 1 && block is None))
            &&& v.config.progress_report > 0 ==> (report.progress == ProgressTo::OutputAndErrors
                <==> exists|k: int| total == #[trigger] (k * v.config.progress_report))
            &&& v.config.progress_report > 0 ==> report.progress != ProgressTo::Output
            &&& v.config.progress_report == 0 ==> report.progress != ProgressTo::OutputAndErrors
            &&& v.config.progress_report == 0 ==> (report.progress == ProgressTo::Output
                <==> exists|d: nat, k: nat| #[trigger] digit_and_zeros(total as nat, d, k))
            &&& v.config.max_iterations is None ==> !report.exceeded
            &&& v.config.max_iterations matches Some(n) ==> report.exceeded == (total >= n)
        }),
{
    let every = v.config.progress_report;
    let total = v.execs + v.blocked + 1;
    if every > 0 {
        if total % (every as int) == 0 {
            let k = total / (every as int);
            vstd::arithmetic::div_mod::lemma_fundamental_div_mod(total, every as int);
            assert(total == k * every) by (nonlinear_arith)
                requires
                    total == every * k + 0,
            ;
        }
        assert forall|k: int| total == #[trigger] (k * every) implies total % (every as int) == 0 by {
            vstd::arithmetic::div_mod::lemma_mod_multiples_basic(k, every as int);
        }
    }
    law_report_due(total as nat);
}

} // verus!
