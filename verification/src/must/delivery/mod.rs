//! Each message is taken once.

pub mod revisits;
pub mod runs;
pub mod steps;

use crate::cons::stamp_of;
use crate::event::{Event, ThreadId};
use crate::event_label::{KindView, LabelView};
use crate::exec_graph::{
    closed_clock, comes_before, covers_all, has_thread, in_log, index_of, is_cause, label_at,
    last_label, last_place, lemma_below, lemma_index_of, lemma_last_place, lemma_places_upto,
    lemma_prefix, lemma_without, log_wf, places_upto, previous, survives,
};
use crate::must::backward::is_revisitable;
use crate::must::StateView;
use crate::revisit::{sends_of, PlacementView, RevisitView};
use crate::vector_clock::covers;
use vstd::prelude::*;

verus! {

/// Whether the message of `e` is meant for the monitor `t` too.
pub open spec fn listed(log: Seq<LabelView>, e: Event, t: ThreadId) -> bool {
    label_at(log, e).kind matches KindView::Send { monitors, .. } && monitors.contains(t)
}

/// Whether the label `l` takes the message of `e`: it reads it, and not as a monitor.
pub open spec fn takes(log: Seq<LabelView>, l: LabelView, e: Event) -> bool {
    l.reads(e) && !listed(log, e, l.pos.thread)
}

/// Whether no message is taken by two events.
pub open spec fn delivered_once(log: Seq<LabelView>) -> bool {
    forall|i: int, j: int, e: Event|
        0 <= i < log.len() && 0 <= j < log.len() && #[trigger] takes(log, log[i], e)
            && #[trigger] takes(log, log[j], e) ==> i == j
}

/// Whether `l` is a receive or an inbox.
pub open spec fn is_reader(l: LabelView) -> bool {
    l.kind is Recv || l.kind is Inbox
}

/// Whether what is read was sent.
pub open spec fn reads_sends(log: Seq<LabelView>) -> bool {
    forall|i: int, e: Event|
        0 <= i < log.len() && #[trigger] log[i].reads(e) ==> in_log(log, e) && label_at(
            log,
            e,
        ).kind is Send
}

/// Whether threads begin after their creation.
pub open spec fn begins_created(log: Seq<LabelView>) -> bool {
    forall|i: int|
        0 <= i < log.len() ==> ((#[trigger] log[i]).kind matches KindView::Begin {
            parent: Some(p),
            ..
        } ==> in_log(log, p) && label_at(log, p).kind is TCreate && stamp_of(log, p)
            < log[i].stamp)
}

/// Whether the threads that were joined had ended before, for good.
pub open spec fn joins_ended(log: Seq<LabelView>) -> bool {
    forall|i: int|
        0 <= i < log.len() ==> ((#[trigger] log[i]).kind matches KindView::TJoin { cid }
            ==> has_thread(log, cid) && last_label(log, cid).kind is End && last_label(
            log,
            cid,
        ).stamp < log[i].stamp)
}

/// Whether the label at place `x` reads the newer event `e`, and the label at place `y`
/// was recorded in between.
pub open spec fn spans(log: Seq<LabelView>, x: int, y: int, e: Event) -> bool {
    &&& 0 <= x < y < log.len()
    &&& log[x].reads(e)
    &&& log[y].stamp <= stamp_of(log, e)
}

/// Whether the receives that were recorded between a receive and a newer event that it
/// reads are final.
pub open spec fn spanned_final(log: Seq<LabelView>) -> bool {
    forall|x: int, y: int, e: Event| #[trigger]
        spans(log, x, y, e) && is_reader(log[y]) ==> !is_revisitable(log[y])
}

/// The invariant by which messages are taken once.
#[verifier::opaque]
pub open spec fn sound_log(log: Seq<LabelView>) -> bool {
    &&& log_wf(log)
    &&& reads_sends(log)
    &&& begins_created(log)
    &&& joins_ended(log)
    &&& spanned_final(log)
    &&& delivered_once(log)
}

/// The labels up to `stamp`.
pub open spec fn upto(log: Seq<LabelView>, stamp: usize) -> Seq<LabelView> {
    log.take(places_upto(log, stamp, log.len()) as int)
}

/// Whether the label `l` stays when the revisit `r` is made.
pub open spec fn stays(log: Seq<LabelView>, r: RevisitView, l: LabelView) -> bool {
    r.backward ==> survives(log, stamp_of(log, r.pos), sends_of(r.rev), l)
}

/// Whether the message of `e` was sent, and what stays of the log by the revisit `r`
/// takes it nowhere but at the revisited event.
pub open spec fn free_for(log: Seq<LabelView>, r: RevisitView, e: Event) -> bool {
    &&& in_log(log, e)
    &&& label_at(log, e).kind is Send
    &&& listed(log, e, r.pos.thread) || forall|k: int|
        0 <= k < log.len() && stays(log, r, #[trigger] log[k]) && log[k].pos != r.pos ==> !takes(
            log,
            log[k],
            e,
        )
}

/// Whether the placement fits the receive or inbox labelled `l`.
pub open spec fn placement_fits(l: LabelView, placement: PlacementView) -> bool {
    match placement {
        PlacementView::Default(_) => l.kind is Recv,
        PlacementView::Inbox(_) => l.kind is Inbox,
    }
}

/// Whether the revisit `r` of the execution `log` reads only messages that nothing else
/// takes then.
pub open spec fn sound_entry(log: Seq<LabelView>, r: RevisitView) -> bool {
    let l = label_at(log, r.pos);
    &&& in_log(log, r.pos)
    &&& log.len() > 0
    &&& r.backward ==> {
        &&& is_reader(l)
        &&& is_revisitable(l)
        &&& !comes_before(log, sends_of(r.rev), r.pos)
        &&& log.last().kind is Send
    }
    &&& !r.backward ==> log.last().pos == r.pos
    &&& is_reader(l) ==> {
        &&& placement_fits(l, r.rev)
        &&& forall|i: int|
            0 <= i < sends_of(r.rev).len() ==> free_for(log, r, #[trigger] sends_of(r.rev)[i])
    }
}

/// Whether the graph of a state, and what its worklist leads to, takes each message once.
pub open spec fn sound_state(s: StateView) -> bool {
    &&& sound_log(s.graph.log)
    &&& forall|k: int|
        0 <= k < s.rqueue.len() ==> sound_log(upto(s.graph.log, (#[trigger] s.rqueue[k]).0))
            && sound_entry(upto(s.graph.log, s.rqueue[k].0), s.rqueue[k].1)
}

/// Whether all labels of `part` are labels of `log`.
pub open spec fn within(log: Seq<LabelView>, part: Seq<LabelView>) -> bool {
    forall|k: int| 0 <= k < part.len() ==> log.contains(#[trigger] part[k])
}

/// What is in a part of a log is labelled as in the log.
pub proof fn lemma_within(log: Seq<LabelView>, part: Seq<LabelView>)
    requires
        log_wf(log),
        log_wf(part),
        within(log, part),
    ensures
        forall|e: Event| #[trigger]
            in_log(part, e) ==> in_log(log, e) && label_at(part, e) == label_at(log, e),
        forall|e: Event|
            in_log(log, e) && part.contains(#[trigger] label_at(log, e)) ==> in_log(part, e),
{
    assert forall|e: Event| #[trigger] in_log(part, e) implies in_log(log, e) && label_at(part, e)
        == label_at(log, e) by {
        let k = index_of(part, e);
        assert(part[k].pos == e);
        assert(log.contains(part[k]));
        let m = choose|m: int| 0 <= m < log.len() && log[m] == part[k];
        lemma_index_of(log, m);
    }
    assert forall|e: Event|
        in_log(log, e) && part.contains(#[trigger] label_at(log, e)) implies in_log(part, e) by {
        let m = index_of(log, e);
        assert(log[m].pos == e);
        let k = choose|k: int| 0 <= k < part.len() && part[k] == label_at(log, e);
        assert(part[k].pos == e);
    }
}

/// The last label of a thread is that of its last event.
pub proof fn lemma_last_label(log: Seq<LabelView>, t: ThreadId, k: int)
    requires
        log_wf(log),
        0 <= k < log.len(),
        log[k].pos.thread == t,
        forall|i: int| k < i < log.len() ==> (#[trigger] log[i]).pos.thread != t,
    ensures
        has_thread(log, t),
        last_label(log, t) == log[k],
{
    lemma_last_place(log, t, log.len());
    let p = last_place(log, t, log.len()) - 1;
    if p < k {
        assert(log[k].pos.thread != t);
    }
}

/// A thread with an event has a last label.
pub proof fn lemma_has_thread(log: Seq<LabelView>, k: int)
    requires
        0 <= k < log.len(),
    ensures
        has_thread(log, log[k].pos.thread),
{
    lemma_last_place(log, log[k].pos.thread, log.len());
}

/// In a part that holds it, the last label of a thread is the last one.
pub proof fn lemma_last_within(log: Seq<LabelView>, part: Seq<LabelView>, t: ThreadId)
    requires
        log_wf(log),
        log_wf(part),
        within(log, part),
        has_thread(log, t),
        part.contains(last_label(log, t)),
    ensures
        has_thread(part, t),
        last_label(part, t) == last_label(log, t),
{
    lemma_last_place(log, t, log.len());
    let p = last_place(log, t, log.len()) - 1;
    let k = choose|k: int| 0 <= k < part.len() && part[k] == log[p];
    assert forall|i: int| k < i < part.len() implies (#[trigger] part[i]).pos.thread != t by {
        if part[i].pos.thread == t {
            assert(log.contains(part[i]));
            let m = choose|m: int| 0 <= m < log.len() && log[m] == part[i];
            assert(part[k].stamp < part[i].stamp);
            if m < p {
                assert(log[m].stamp < log[p].stamp);
            }
            assert(m <= p);
        }
    }
    lemma_last_label(part, t, k);
}

/// The labels up to a stamp are a well-formed part of the log.
pub proof fn lemma_upto(log: Seq<LabelView>, stamp: usize)
    requires
        log_wf(log),
    ensures
        log_wf(upto(log, stamp)),
        within(log, upto(log, stamp)),
        upto(log, stamp).len() <= log.len(),
        forall|i: int|
            0 <= i < upto(log, stamp).len() ==> #[trigger] upto(log, stamp)[i] == log[i]
                && log[i].stamp <= stamp,
        forall|i: int| upto(log, stamp).len() <= i < log.len() ==> (#[trigger] log[i]).stamp > stamp,
        forall|e: Event| #[trigger]
            in_log(upto(log, stamp), e) <==> in_log(log, e) && stamp_of(log, e) <= stamp,
        forall|e: Event| #[trigger]
            in_log(upto(log, stamp), e) ==> label_at(upto(log, stamp), e) == label_at(log, e),
{
    let part = upto(log, stamp);
    lemma_places_upto(log, stamp, log.len());
    lemma_prefix(log, places_upto(log, stamp, log.len()) as int);
    assert forall|k: int| 0 <= k < part.len() implies log.contains(#[trigger] part[k]) by {
        assert(part[k] == log[k]);
    }
    lemma_within(log, part);
    assert forall|e: Event| #[trigger] in_log(part, e) <==> in_log(log, e) && stamp_of(log, e)
        <= stamp by {
        if in_log(part, e) {
            let k = index_of(part, e);
            assert(part[k].pos == e);
            lemma_index_of(log, k);
        }
        if in_log(log, e) && stamp_of(log, e) <= stamp {
            let k = index_of(log, e);
            assert(log[k].pos == e);
            assert(part[k].pos == e);
        }
    }
}

/// The labels up to a stamp are the first ones, as many as are not newer.
pub proof fn lemma_upto_is(log: Seq<LabelView>, stamp: usize, n: int)
    requires
        log_wf(log),
        0 <= n <= log.len(),
        n > 0 ==> log[n - 1].stamp <= stamp,
        n < log.len() ==> log[n].stamp > stamp,
    ensures
        upto(log, stamp) == log.take(n),
{
    lemma_upto(log, stamp);
    let m = places_upto(log, stamp, log.len()) as int;
    lemma_places_upto(log, stamp, log.len());
    if m < n {
        assert(log[n - 1].stamp > stamp) by {
            assert(log[m].stamp > stamp);
            if m < n - 1 {
                assert(log[m].stamp < log[n - 1].stamp);
            }
        }
    }
    if n < m {
        assert(log[n].stamp <= stamp);
    }
}

/// Whether `log` may go on with the label `l` so that messages are taken once.
pub open spec fn may_append(log: Seq<LabelView>, l: LabelView) -> bool {
    &&& forall|e: Event| #[trigger]
        l.reads(e) ==> in_log(log, e) && label_at(log, e).kind is Send && (listed(
            log,
            e,
            l.pos.thread,
        ) || forall|k: int| 0 <= k < log.len() ==> !takes(log, #[trigger] log[k], e))
    &&& l.kind matches KindView::Begin { parent: Some(p), .. } ==> in_log(log, p) && label_at(
        log,
        p,
    ).kind is TCreate
    &&& l.kind matches KindView::TJoin { cid } ==> cid != l.pos.thread && has_thread(log, cid)
        && last_label(log, cid).kind is End
    &&& forall|k: int|
        0 <= k < log.len() ==> ((#[trigger] log[k]).kind matches KindView::TJoin { cid } ==> cid
            != l.pos.thread)
}

/// What holds of a log holds when a fitting label is added.
pub proof fn lemma_append(log: Seq<LabelView>, l: LabelView)
    requires
        sound_log(log),
        log_wf(log.push(l)),
        may_append(log, l),
    ensures
        sound_log(log.push(l)),
{
    reveal(sound_log);
    let after = log.push(l);
    let n = log.len() as int;
    assert forall|k: int| 0 <= k < log.len() implies after.contains(#[trigger] log[k]) by {
        assert(after[k] == log[k]);
    }
    lemma_within(after, log);
    lemma_index_of(after, n);
    assert forall|e: Event| in_log(log, e) implies #[trigger] stamp_of(log, e) < l.stamp by {
        let k = index_of(log, e);
        assert(log[k].pos == e);
        assert(after[k].stamp < after[n].stamp);
    }
    assert forall|k: int, e: Event| 0 <= k < log.len() && in_log(log, e) implies #[trigger] takes(
        after,
        log[k],
        e,
    ) == takes(log, log[k], e) by {
        assert(label_at(after, e) == label_at(log, e));
    }
    assert forall|i: int, e: Event| 0 <= i < after.len() && #[trigger] after[i].reads(e) implies
        in_log(after, e) && label_at(after, e).kind is Send && in_log(log, e) by {
        if i < n {
            assert(log[i].reads(e));
        }
    }
    assert(begins_created(after)) by {
        assert forall|i: int| 0 <= i < after.len() implies ((
        #[trigger] after[i]).kind matches KindView::Begin { parent: Some(p), .. } ==> in_log(
            after,
            p,
        ) && label_at(after, p).kind is TCreate && stamp_of(after, p) < after[i].stamp) by {
            if i < n {
                assert(after[i] == log[i]);
            }
            if let KindView::Begin { parent: Some(p), .. } = after[i].kind {
                assert(in_log(log, p));
                assert(stamp_of(log, p) < l.stamp);
            }
        }
    }
    assert(joins_ended(after)) by {
        assert forall|i: int| 0 <= i < after.len() implies ((
        #[trigger] after[i]).kind matches KindView::TJoin { cid } ==> has_thread(after, cid)
            && last_label(after, cid).kind is End && last_label(after, cid).stamp
            < after[i].stamp) by {
            if i < n {
                assert(after[i] == log[i]);
            }
            if let KindView::TJoin { cid } = after[i].kind {
                assert(cid != l.pos.thread);
                assert(has_thread(log, cid));
                lemma_last_place(log, cid, log.len());
                let p = last_place(log, cid, log.len()) - 1;
                assert(after[p] == log[p]);
                lemma_last_label(after, cid, p);
                assert(after[p].stamp < after[n].stamp);
            }
        }
    }
    assert(spanned_final(after)) by {
        assert forall|x: int, y: int, e: Event| #[trigger]
            spans(after, x, y, e) && is_reader(after[y]) implies !is_revisitable(after[y]) by {
            assert(after[x].reads(e));
            assert(in_log(log, e));
            assert(stamp_of(log, e) < l.stamp);
            assert(label_at(after, e) == label_at(log, e));
            assert(y < n);
            assert(spans(log, x, y, e));
        }
    }
    assert(delivered_once(after)) by {
        assert forall|i: int, j: int, e: Event|
            0 <= i < after.len() && 0 <= j < after.len() && #[trigger] takes(after, after[i], e)
                && #[trigger] takes(after, after[j], e) implies i == j by {
            assert(after[i].reads(e));
            assert(in_log(log, e));
            assert(label_at(after, e) == label_at(log, e));
            if i < n && j < n {
                assert(takes(log, log[i], e));
                assert(takes(log, log[j], e));
            } else if i < n {
                assert(takes(log, log[i], e));
                assert(l.reads(e));
            } else if j < n {
                assert(takes(log, log[j], e));
                assert(l.reads(e));
            }
        }
    }
}

/// What holds of a log holds without its last label, if that is a receive.
#[verifier::spinoff_prover]
#[verifier::rlimit(40)]
pub proof fn lemma_drop_last(log: Seq<LabelView>)
    requires
        sound_log(log),
        log.len() > 0,
        is_reader(log.last()),
    ensures
        sound_log(log.drop_last()),
        forall|k: int|
            0 <= k < log.len() - 1 ==> ((#[trigger] log[k]).kind matches KindView::TJoin { cid }
                ==> cid != log.last().pos.thread),
        forall|e: Event| #[trigger]
            in_log(log, e) && e != log.last().pos ==> in_log(log.drop_last(), e) && label_at(
                log.drop_last(),
                e,
            ) == label_at(log, e),
{
    reveal(sound_log);
    let before = log.drop_last();
    let n = before.len() as int;
    assert(before =~= log.take(n));
    lemma_prefix(log, n);
    assert forall|k: int| 0 <= k < before.len() implies log.contains(#[trigger] before[k]) by {
        assert(log[k] == before[k]);
    }
    lemma_within(log, before);
    assert forall|e: Event| #[trigger] in_log(log, e) && e != log.last().pos implies in_log(
        before,
        e,
    ) && label_at(before, e) == label_at(log, e) by {
        let k = index_of(log, e);
        assert(log[k].pos == e);
        assert(before[k].pos == e);
    }
    lemma_index_of(log, n);
    assert forall|k: int| 0 <= k < log.len() - 1 implies ((
    #[trigger] log[k]).kind matches KindView::TJoin { cid } ==> cid != log.last().pos.thread) by {
        if let KindView::TJoin { cid } = log[k].kind {
            if cid == log.last().pos.thread {
                lemma_last_label(log, cid, n);
            }
        }
    }
    assert(reads_sends(before)) by {
        assert forall|i: int, e: Event| 0 <= i < before.len() && #[trigger] before[i].reads(
            e,
        ) implies in_log(before, e) && label_at(before, e).kind is Send by {
            assert(log[i].reads(e));
            assert(in_log(log, e));
        }
    }
    assert(begins_created(before)) by {
        assert forall|i: int| 0 <= i < before.len() implies ((
        #[trigger] before[i]).kind matches KindView::Begin { parent: Some(p), .. } ==> in_log(
            before,
            p,
        ) && label_at(before, p).kind is TCreate && stamp_of(before, p) < before[i].stamp) by {
            assert(before[i] == log[i]);
            if let KindView::Begin { parent: Some(p), .. } = log[i].kind {
                assert(in_log(log, p));
            }
        }
    }
    assert(joins_ended(before)) by {
        assert forall|i: int| 0 <= i < before.len() implies ((
        #[trigger] before[i]).kind matches KindView::TJoin { cid } ==> has_thread(before, cid)
            && last_label(before, cid).kind is End && last_label(before, cid).stamp
            < before[i].stamp) by {
            assert(before[i] == log[i]);
            if let KindView::TJoin { cid } = log[i].kind {
                lemma_last_place(log, cid, log.len());
                let p = last_place(log, cid, log.len()) - 1;
                assert(p < n);
                assert(before[p] == log[p]);
                lemma_last_within(log, before, cid);
            }
        }
    }
    assert(spanned_final(before)) by {
        assert forall|x: int, y: int, e: Event| #[trigger]
            spans(before, x, y, e) && is_reader(before[y]) implies !is_revisitable(before[y]) by {
            assert(before[x].reads(e));
            assert(spans(log, x, y, e));
        }
    }
    assert(delivered_once(before)) by {
        assert forall|i: int, j: int, e: Event|
            0 <= i < before.len() && 0 <= j < before.len() && #[trigger] takes(
                before,
                before[i],
                e,
            ) && #[trigger] takes(before, before[j], e) implies i == j by {
            assert(before[i].reads(e));
            assert(takes(log, log[i], e));
            assert(takes(log, log[j], e));
        }
    }
}

/// Whether two labels differ only in values, outcomes and where they look.
pub open spec fn same_effect(a: LabelView, b: LabelView) -> bool {
    &&& a.pos == b.pos
    &&& a.stamp == b.stamp
    &&& match a.kind {
        KindView::Recv { rf, revisitable, .. } => b.kind matches KindView::Recv {
            rf: rf2,
            revisitable: revisitable2,
            ..
        } && rf == rf2 && revisitable == revisitable2,
        KindView::Inbox { rfs, revisitable, .. } => b.kind matches KindView::Inbox {
            rfs: rfs2,
            revisitable: revisitable2,
            ..
        } && rfs == rfs2 && revisitable == revisitable2,
        KindView::Send { monitors, .. } => b.kind matches KindView::Send { monitors: monitors2, .. }
            && monitors == monitors2,
        KindView::Begin { parent, .. } => b.kind matches KindView::Begin { parent: parent2, .. }
            && parent == parent2,
        KindView::TJoin { cid } => b.kind matches KindView::TJoin { cid: cid2 } && cid == cid2,
        KindView::End { .. } => b.kind is End,
        KindView::TCreate { .. } => b.kind is TCreate,
        KindView::Block { .. } => b.kind is Block,
        KindView::CToss { .. } => b.kind is CToss,
        KindView::Choice { .. } => b.kind is Choice,
        KindView::Sample { .. } => b.kind is Sample,
        KindView::Unique { .. } => b.kind is Unique,
    }
}

/// Whether two logs differ only in values, outcomes and where receives look.
pub open spec fn same_effects(a: Seq<LabelView>, b: Seq<LabelView>) -> bool {
    a.len() == b.len() && forall|i: int|
        0 <= i < a.len() ==> same_effect(#[trigger] a[i], #[trigger] b[i])
}

pub proof fn lemma_last_place_same(a: Seq<LabelView>, b: Seq<LabelView>, t: ThreadId, n: nat)
    requires
        n <= a.len(),
        a.len() == b.len(),
        forall|i: int| 0 <= i < n ==> (#[trigger] a[i]).pos == (#[trigger] b[i]).pos,
    ensures
        last_place(a, t, n) == last_place(b, t, n),
    decreases n,
{
    if n > 0 {
        lemma_last_place_same(a, b, t, (n - 1) as nat);
        assert(a[n - 1].pos == b[n - 1].pos);
    }
}

/// The events of logs with the same effects are the same, and have the same causes.
pub proof fn lemma_same_events(a: Seq<LabelView>, b: Seq<LabelView>)
    requires
        log_wf(a),
        same_effects(a, b),
    ensures
        log_wf(b),
        forall|e: Event| #[trigger] in_log(a, e) == in_log(b, e),
        forall|e: Event| #[trigger] in_log(b, e) ==> in_log(a, e),
        forall|e: Event|
            #![trigger label_at(b, e)]
            in_log(b, e) ==> same_effect(label_at(a, e), label_at(b, e)),
        forall|i: int, e: Event|
            0 <= i < a.len() ==> #[trigger] b[i].reads(e) == a[i].reads(e),
        forall|clock: Map<ThreadId, u32>|
            closed_clock(a, clock)
                == #[trigger] closed_clock(b, clock),
{
    assert forall|i: int| 0 <= i < a.len() implies (#[trigger] b[i]).pos == a[i].pos && b[i].stamp
        == a[i].stamp by {
        assert(same_effect(a[i], b[i]));
    }
    assert forall|e: Event| #[trigger] in_log(a, e) == in_log(b, e) by {
        if in_log(a, e) {
            let i = index_of(a, e);
            assert(a[i].pos == e);
            assert(b[i].pos == e);
        }
        if in_log(b, e) {
            let i = index_of(b, e);
            assert(b[i].pos == e);
            assert(a[i].pos == e);
        }
    }
    assert forall|e: Event| #[trigger] in_log(b, e) implies in_log(a, e) by {
        assert(in_log(a, e) == in_log(b, e));
    }
    assert(log_wf(b)) by {
        assert forall|i: int, j: int| 0 <= i < j < b.len() implies (#[trigger] b[i]).stamp < (
        #[trigger] b[j]).stamp by {
            assert(a[i].stamp < a[j].stamp);
        }
        assert forall|i: int, j: int|
            0 <= i < j < b.len() && (#[trigger] b[i]).pos.thread == (
            #[trigger] b[j]).pos.thread implies b[i].pos.index < b[j].pos.index by {
            assert(a[i].pos.thread == a[j].pos.thread);
        }
        assert forall|i: int| 0 <= i < b.len() && (#[trigger] b[i]).pos.index > 0 implies in_log(
            b,
            previous(b[i].pos),
        ) by {
            assert(a[i].pos.index > 0);
            assert(in_log(a, previous(a[i].pos)));
        }
    }
    assert forall|e: Event| in_log(b, e) implies same_effect(
        label_at(a, e),
        #[trigger] label_at(b, e),
    ) by {
        let i = index_of(b, e);
        assert(b[i].pos == e);
        lemma_index_of(b, i);
        lemma_index_of(a, i);
        assert(same_effect(a[i], b[i]));
    }
    assert forall|i: int, e: Event| 0 <= i < a.len() implies #[trigger] b[i].reads(e)
        == a[i].reads(e) by {
        assert(same_effect(a[i], b[i]));
    }
    assert forall|i: int, c: Event| 0 <= i < a.len() implies is_cause(
        a,
        a[i],
        c,
    ) == is_cause(b, b[i], c) by {
        assert(same_effect(a[i], b[i]));
        assert(in_log(a, c) == in_log(b, c));
        if let KindView::TJoin { cid } = a[i].kind {
            lemma_last_place_same(a, b, cid, a.len());
            lemma_last_place(a, cid, a.len());
            if has_thread(a, cid) {
                let p = last_place(a, cid, a.len()) - 1;
                assert(a[p].pos == b[p].pos);
            }
        }
    }
    assert forall|clock: Map<ThreadId, u32>|
        closed_clock(a, clock) == #[trigger] closed_clock(
            b,
            clock,
        ) by {
        if closed_clock(a, clock) {
            assert forall|i: int, c: Event|
                0 <= i < b.len() && covers(clock, b[i].pos)
                    && #[trigger] is_cause(
                    b,
                    b[i],
                    c,
                ) implies covers(clock, c) by {
                assert(is_cause(a, a[i], c));
            }
        }
        if closed_clock(b, clock) {
            assert forall|i: int, c: Event|
                0 <= i < a.len() && covers(clock, a[i].pos)
                    && #[trigger] is_cause(
                    a,
                    a[i],
                    c,
                ) implies covers(clock, c) by {
                assert(is_cause(b, b[i], c));
            }
        }
    }
}

/// Values and outcomes do not matter to what is taken.
pub proof fn lemma_same_sound(a: Seq<LabelView>, b: Seq<LabelView>)
    requires
        sound_log(a),
        same_effects(a, b),
    ensures
        sound_log(b),
{
    reveal(sound_log);
    lemma_same_events(a, b);
    assert(reads_sends(b)) by {
        assert forall|i: int, e: Event| 0 <= i < b.len() && #[trigger] b[i].reads(e) implies in_log(
            b,
            e,
        ) && label_at(b, e).kind is Send by {
            assert(a[i].reads(e));
            assert(in_log(a, e));
            assert(same_effect(label_at(a, e), label_at(b, e)));
        }
    }
    assert(begins_created(b)) by {
        assert forall|i: int| 0 <= i < b.len() implies ((
        #[trigger] b[i]).kind matches KindView::Begin { parent: Some(p), .. } ==> in_log(b, p)
            && label_at(b, p).kind is TCreate && stamp_of(b, p) < b[i].stamp) by {
            assert(same_effect(a[i], b[i]));
            if let KindView::Begin { parent: Some(p), .. } = a[i].kind {
                assert(in_log(a, p));
                assert(same_effect(label_at(a, p), label_at(b, p)));
            }
        }
    }
    assert(joins_ended(b)) by {
        assert forall|i: int| 0 <= i < b.len() implies ((
        #[trigger] b[i]).kind matches KindView::TJoin { cid } ==> has_thread(b, cid) && last_label(
            b,
            cid,
        ).kind is End && last_label(b, cid).stamp < b[i].stamp) by {
            assert(same_effect(a[i], b[i]));
            if let KindView::TJoin { cid } = a[i].kind {
                lemma_last_place_same(a, b, cid, a.len());
                lemma_last_place(a, cid, a.len());
                let p = last_place(a, cid, a.len()) - 1;
                assert(same_effect(a[p], b[p]));
            }
        }
    }
    assert(spanned_final(b)) by {
        assert forall|x: int, y: int, e: Event| #[trigger]
            spans(b, x, y, e) && is_reader(b[y]) implies !is_revisitable(b[y]) by {
            assert(b[x].reads(e));
            assert(in_log(b, e));
            assert(same_effect(label_at(a, e), label_at(b, e)));
            assert(same_effect(a[y], b[y]));
            assert(spans(a, x, y, e));
        }
    }
    assert(delivered_once(b)) by {
        assert forall|i: int, j: int, e: Event|
            0 <= i < b.len() && 0 <= j < b.len() && #[trigger] takes(b, b[i], e)
                && #[trigger] takes(b, b[j], e) implies i == j by {
            assert(b[i].reads(e));
            assert(in_log(b, e));
            assert(same_effect(label_at(a, e), label_at(b, e)));
            assert(same_effect(a[i], b[i]));
            assert(same_effect(a[j], b[j]));
            assert(takes(a, a[i], e));
            assert(takes(a, a[j], e));
        }
    }
}

/// Values and outcomes do not matter to what a revisit reads.
pub proof fn lemma_same_entry(a: Seq<LabelView>, b: Seq<LabelView>, r: RevisitView)
    requires
        sound_log(a),
        same_effects(a, b),
        sound_entry(a, r),
    ensures
        sound_entry(b, r),
{
    assert(log_wf(a)) by {
        reveal(sound_log);
    }
    lemma_same_events(a, b);
    let sends = sends_of(r.rev);
    assert(in_log(b, r.pos)) by {
        assert(in_log(a, r.pos));
    }
    assert(same_effect(label_at(a, r.pos), label_at(b, r.pos)));
    assert(same_effect(a[a.len() - 1], b[b.len() - 1]));
    assert forall|x: Event| comes_before(b, sends, x) implies #[trigger] comes_before(
        a,
        sends,
        x,
    ) by {
        assert forall|clock: Map<ThreadId, u32>| #[trigger]
            closed_clock(a, clock) && covers_all(
                clock,
                sends,
            ) implies covers(clock, x) by {
            assert(closed_clock(b, clock));
        }
    }
    if is_reader(label_at(b, r.pos)) {
        assert forall|i: int| 0 <= i < sends.len() implies free_for(b, r, #[trigger] sends[i]) by {
            let e = sends[i];
            assert(free_for(a, r, e));
            assert(in_log(a, e));
            assert(same_effect(label_at(a, e), label_at(b, e)));
            if !listed(b, e, r.pos.thread) {
                assert(!listed(a, e, r.pos.thread));
                assert forall|k: int|
                    0 <= k < b.len() && stays(b, r, #[trigger] b[k]) && b[k].pos
                        != r.pos implies !takes(b, b[k], e) by {
                    assert(same_effect(a[k], b[k]));
                    if r.backward {
                        let stamp = stamp_of(b, r.pos);
                        assert(comes_before(b, sends, b[k].pos) ==> comes_before(
                            a,
                            sends,
                            a[k].pos,
                        ));
                        if let KindView::Begin { parent: Some(p), .. } = b[k].kind {
                            if in_log(b, p) {
                                assert(in_log(a, p));
                                assert(same_effect(label_at(a, p), label_at(b, p)));
                                assert(comes_before(b, sends, label_at(b, p).pos)
                                    ==> comes_before(a, sends, label_at(a, p).pos));
                            }
                        }
                    }
                    assert(stays(a, r, a[k]));
                    assert(!takes(a, a[k], e));
                }
            }
        }
    }
}

/// Whether the label at place `k` blocks its thread.
pub open spec fn blocks_at(log: Seq<LabelView>, k: int) -> bool {
    &&& 0 <= k < log.len()
    &&& log[k].kind is Block
    &&& forall|i: int| k < i < log.len() ==> (#[trigger] log[i]).pos.thread != log[k].pos.thread
}

/// Taking a block away changes nothing else.
pub proof fn lemma_unblock_events(log: Seq<LabelView>, k: int)
    requires
        log_wf(log),
        blocks_at(log, k),
    ensures
        log_wf(log.remove(k)),
        within(log, log.remove(k)),
        forall|e: Event| #[trigger]
            in_log(log, e) && e != log[k].pos ==> in_log(log.remove(k), e) && label_at(
                log.remove(k),
                e,
            ) == label_at(log, e),
        forall|e: Event| #[trigger]
            in_log(log.remove(k), e) ==> in_log(log, e) && label_at(log.remove(k), e) == label_at(
                log,
                e,
            ),
{
    let part = log.remove(k);
    let t = log[k].pos.thread;
    lemma_last_label(log, t, k);
    lemma_last_place(log, t, log.len());
    assert(last_place(log, t, log.len()) - 1 == k) by {
        lemma_index_of(log, k);
        lemma_index_of(log, last_place(log, t, log.len()) - 1);
    }
    lemma_without(log, t);
    assert forall|i: int| 0 <= i < part.len() implies log.contains(#[trigger] part[i]) by {
        assert(part[i] == log[if i < k { i } else { i + 1 }]);
    }
    lemma_within(log, part);
    assert forall|e: Event| #[trigger] in_log(log, e) && e != log[k].pos implies in_log(part, e)
        && label_at(part, e) == label_at(log, e) by {
        let i = index_of(log, e);
        assert(log[i].pos == e);
        let j = if i < k { i } else { i - 1 };
        assert(part[j] == log[i]);
        lemma_index_of(part, j);
    }
}

/// The last label of a thread that is not blocked there stays the last.
pub proof fn lemma_unblock_last(log: Seq<LabelView>, k: int, t: ThreadId)
    requires
        log_wf(log),
        blocks_at(log, k),
        has_thread(log, t),
        !(last_label(log, t).kind is Block),
    ensures
        has_thread(log.remove(k), t),
        last_label(log.remove(k), t) == last_label(log, t),
{
    let part = log.remove(k);
    lemma_unblock_events(log, k);
    lemma_last_place(log, t, log.len());
    let p = last_place(log, t, log.len()) - 1;
    let j = if p < k { p } else { p - 1 };
    assert(part[j] == log[p]);
    lemma_last_within(log, part, t);
}

/// Messages are taken once when a thread is no longer blocked.
pub proof fn lemma_unblock_sound(log: Seq<LabelView>, k: int)
    requires
        sound_log(log),
        blocks_at(log, k),
    ensures
        sound_log(log.remove(k)),
{
    reveal(sound_log);
    let part = log.remove(k);
    lemma_unblock_events(log, k);
    lemma_index_of(log, k);
    let f = |i: int| if i < k { i } else { i + 1 };
    assert forall|i: int| 0 <= i < part.len() implies #[trigger] part[i] == log[f(i)] by {}
    assert(reads_sends(part)) by {
        assert forall|i: int, e: Event| 0 <= i < part.len() && #[trigger] part[i].reads(
            e,
        ) implies in_log(part, e) && label_at(part, e).kind is Send by {
            assert(log[f(i)].reads(e));
            assert(in_log(log, e));
        }
    }
    assert(begins_created(part)) by {
        assert forall|i: int| 0 <= i < part.len() implies ((
        #[trigger] part[i]).kind matches KindView::Begin { parent: Some(p), .. } ==> in_log(
            part,
            p,
        ) && label_at(part, p).kind is TCreate && stamp_of(part, p) < part[i].stamp) by {
            assert(part[i] == log[f(i)]);
            if let KindView::Begin { parent: Some(p), .. } = log[f(i)].kind {
                assert(in_log(log, p));
            }
        }
    }
    assert(joins_ended(part)) by {
        assert forall|i: int| 0 <= i < part.len() implies ((
        #[trigger] part[i]).kind matches KindView::TJoin { cid } ==> has_thread(part, cid)
            && last_label(part, cid).kind is End && last_label(part, cid).stamp < part[i].stamp) by {
            assert(part[i] == log[f(i)]);
            if let KindView::TJoin { cid } = log[f(i)].kind {
                lemma_unblock_last(log, k, cid);
            }
        }
    }
    assert(spanned_final(part)) by {
        assert forall|x: int, y: int, e: Event| #[trigger]
            spans(part, x, y, e) && is_reader(part[y]) implies !is_revisitable(part[y]) by {
            assert(part[x].reads(e));
            assert(in_log(part, e));
            assert(part[y] == log[f(y)]);
            assert(spans(log, f(x), f(y), e));
        }
    }
    assert(delivered_once(part)) by {
        assert forall|i: int, j: int, e: Event|
            0 <= i < part.len() && 0 <= j < part.len() && #[trigger] takes(part, part[i], e)
                && #[trigger] takes(part, part[j], e) implies i == j by {
            assert(part[i].reads(e));
            assert(in_log(part, e));
            assert(takes(log, log[f(i)], e));
            assert(takes(log, log[f(j)], e));
        }
    }
}

/// What comes before some events without the block came before them with it.
pub proof fn lemma_unblock_before(log: Seq<LabelView>, k: int, seeds: Seq<Event>, x: Event)
    requires
        sound_log(log),
        blocks_at(log, k),
        comes_before(log.remove(k), seeds, x),
    ensures
        comes_before(log, seeds, x),
{
    reveal(sound_log);
    let part = log.remove(k);
    lemma_unblock_events(log, k);
    let f = |i: int| if i < k { i } else { i + 1 };
    assert forall|clock: Map<ThreadId, u32>| #[trigger]
        closed_clock(log, clock) && covers_all(
            clock,
            seeds,
        ) implies covers(clock, x) by {
        assert(closed_clock(part, clock)) by {
            assert forall|i: int, c: Event|
                0 <= i < part.len() && covers(clock, part[i].pos)
                    && #[trigger] is_cause(
                    part,
                    part[i],
                    c,
                ) implies covers(clock, c) by {
                assert(part[i] == log[f(i)]);
                if let KindView::TJoin { cid } = log[f(i)].kind {
                    lemma_unblock_last(log, k, cid);
                }
                assert(is_cause(log, log[f(i)], c));
            }
        }
    }
}

/// Revisits read what nothing else takes when a thread is no longer blocked, too.
pub proof fn lemma_unblock_entry(log: Seq<LabelView>, k: int, r: RevisitView)
    requires
        sound_log(log),
        blocks_at(log, k),
        sound_entry(log, r),
        !(label_at(log, r.pos).kind is Block),
    ensures
        sound_entry(log.remove(k), r),
{
    assert(log_wf(log)) by {
        reveal(sound_log);
    }
    let part = log.remove(k);
    let sends = sends_of(r.rev);
    lemma_unblock_events(log, k);
    lemma_index_of(log, k);
    lemma_index_of(log, log.len() - 1);
    let f = |i: int| if i < k { i } else { i + 1 };
    assert forall|i: int| 0 <= i < part.len() implies #[trigger] part[i] == log[f(i)] by {}
    assert(in_log(log, r.pos));
    assert(label_at(log, r.pos).pos == r.pos) by {
        let i = index_of(log, r.pos);
        assert(log[i].pos == r.pos);
    }
    assert(k < log.len() - 1);
    assert(part.last() == log.last());
    if r.backward && comes_before(part, sends, r.pos) {
        lemma_unblock_before(log, k, sends, r.pos);
    }
    if is_reader(label_at(log, r.pos)) {
        assert forall|i: int| 0 <= i < sends.len() implies free_for(part, r, #[trigger] sends[i]) by {
            let e = sends[i];
            assert(free_for(log, r, e));
            assert(in_log(log, e));
            assert(e != log[k].pos);
            if !listed(part, e, r.pos.thread) {
                assert(!listed(log, e, r.pos.thread));
                assert forall|m: int|
                    0 <= m < part.len() && stays(part, r, #[trigger] part[m]) && part[m].pos
                        != r.pos implies !takes(part, part[m], e) by {
                    let l = log[f(m)];
                    assert(part[m] == l);
                    if takes(part, part[m], e) {
                        assert(is_reader(l));
                        if r.backward {
                            if comes_before(part, sends, l.pos) {
                                lemma_unblock_before(log, k, sends, l.pos);
                            }
                        }
                        assert(stays(log, r, l));
                        assert(takes(log, log[f(m)], e));
                    }
                }
            }
        }
    }
}

/// What comes before some events in a log comes before them in the labels up to a stamp
/// that has them all.
pub proof fn lemma_upto_before(log: Seq<LabelView>, stamp: usize, seeds: Seq<Event>, x: Event)
    requires
        sound_log(log),
        sound_log(upto(log, stamp)),
        forall|i: int| 0 <= i < seeds.len() ==> in_log(upto(log, stamp), #[trigger] seeds[i]),
        in_log(log, x),
        comes_before(log, seeds, x),
    ensures
        in_log(upto(log, stamp), x),
        comes_before(upto(log, stamp), seeds, x),
{
    reveal(sound_log);
    let part = upto(log, stamp);
    lemma_upto(log, stamp);
    assert forall|clock: Map<ThreadId, u32>| #[trigger]
        closed_clock(part, clock) && covers_all(clock, seeds) implies covers(clock, x) && in_log(
        part,
        x,
    ) by {
        let low = Map::new(
            |t: ThreadId| clock.dom().contains(t) && has_thread(part, t),
            |t: ThreadId|
                if clock[t] <= last_label(part, t).pos.index {
                    clock[t]
                } else {
                    last_label(part, t).pos.index
                },
        );
        assert forall|e: Event| #[trigger] covers(low, e) && in_log(log, e) implies in_log(part, e)
            && covers(clock, e) by {
            lemma_last_place(part, e.thread, part.len());
            let p = last_place(part, e.thread, part.len()) - 1;
            lemma_below(part, p, e.index);
            assert(Event { thread: part[p].pos.thread, index: e.index } == e);
        }
        assert forall|e: Event| covers(clock, e) && in_log(part, e) implies #[trigger] covers(
            low,
            e,
        ) by {
            let k = index_of(part, e);
            assert(part[k].pos == e);
            lemma_has_thread(part, k);
            lemma_last_place(part, e.thread, part.len());
            let p = last_place(part, e.thread, part.len()) - 1;
            if k < p {
                assert(part[k].pos.index < part[p].pos.index);
            }
        }
        assert(covers_all(low, seeds)) by {
            assert forall|i: int| 0 <= i < seeds.len() implies covers(low, #[trigger] seeds[i]) by {
                assert(covers(clock, seeds[i]));
                assert(in_log(part, seeds[i]));
            }
        }
        assert(closed_clock(log, low)) by {
            assert forall|i: int, c: Event|
                0 <= i < log.len() && covers(low, log[i].pos) && #[trigger] is_cause(
                    log,
                    log[i],
                    c,
                ) implies covers(low, c) by {
                lemma_index_of(log, i);
                assert(in_log(part, log[i].pos));
                assert(i < part.len()) by {
                    let k = index_of(part, log[i].pos);
                    assert(part[k].pos == log[i].pos);
                    lemma_index_of(log, k);
                }
                assert(part[i] == log[i]);
                assert(is_cause(part, part[i], c)) by {
                    match log[i].kind {
                        KindView::Recv { .. } => {
                            assert(part[i].reads(c));
                        },
                        KindView::Inbox { .. } => {
                            assert(part[i].reads(c));
                        },
                        KindView::Begin { .. } => {},
                        KindView::TJoin { cid } => {
                            lemma_last_place(log, cid, log.len());
                            let p = last_place(log, cid, log.len()) - 1;
                            assert(p < part.len());
                            assert(part[p] == log[p]);
                            lemma_last_within(log, part, cid);
                            lemma_index_of(part, p);
                        },
                        _ => {},
                    }
                }
                assert(covers(clock, c));
                assert(in_log(part, c));
            }
        }
        assert(covers(low, x));
    }
    let all = Map::new(|t: ThreadId| true, |t: ThreadId| u32::MAX);
    assert(closed_clock(part, all));
    assert(covers_all(all, seeds));
}

} // verus!
