//! Whatever an exploration does next, each message is taken once.

use crate::cons::{canonical_set, inbox_choices, lemma_offers, offers_of, on_offer, rfs_of};
use crate::event::Event;
use crate::event_label::{KindView, LabelView};
use crate::exec_graph::{
    in_log, index_of, label_at, lemma_index_of, lemma_with_label, log_wf, previous, restricted,
    survives, thread_complete, with_label, with_rf, with_rfs,
};
use crate::loc::{RecvLoc, RecvPredicate};
use crate::must::backward::{revisits_from, revisits_noted, with_revisits};
use crate::must::delivery::{
    free_for, is_reader, lemma_append, lemma_upto, lemma_upto_is, listed, may_append,
    placement_fits, sound_entry, sound_log, sound_state, stays, takes, upto,
};
use crate::must::handle::{comes_next, inbox_kind, lemma_comes_next, recv_kind, sent};
use crate::must::laws::{
    is_pick, law_inboxes_choose_among_ordered_sets, law_offers_are_the_readable_sends,
    law_sends_make_sound_revisits, picked, sound_revisit,
};
use crate::must::step::init_event;
use crate::must::visit::{
    as_rfs, asymmetric_rfs, forward_to, inbox_visited, loc_at, offered, pick_in_range, visited,
    with_forwards, with_inbox_forwards,
};
use crate::must::{
    added, lemma_revisit_ok, log_of, must_ok, state_ok, with_revisit, MustView, StateView,
};
use crate::revisit::{
    lemma_pushed, list_sorted, pushed, sends_of, upper_bound, PlacementView, RevisitView,
};
use vstd::prelude::*;

verus! {

/// The labels up to a stamp stay when a newer label is added.
pub proof fn lemma_upto_push(log: Seq<LabelView>, l: LabelView, stamp: usize)
    requires
        log_wf(log.push(l)),
        log_wf(log),
        l.stamp > stamp,
    ensures
        upto(log.push(l), stamp) == upto(log, stamp),
{
    let after = log.push(l);
    lemma_upto(log, stamp);
    let n = upto(log, stamp).len() as int;
    assert(upto(log, stamp) =~= log.take(n));
    if n > 0 {
        assert(upto(log, stamp)[n - 1] == log[n - 1]);
        assert(after[n - 1] == log[n - 1]);
    }
    if n < log.len() {
        assert(after[n] == log[n]);
    }
    lemma_upto_is(after, stamp, n);
    assert(after.take(n) =~= log.take(n));
}

/// Whether what the worklist `after` holds was in `before`, or is a sound revisit noted
/// together with the last label of `log`.
pub open spec fn soundly_noted(
    before: Seq<(usize, RevisitView)>,
    after: Seq<(usize, RevisitView)>,
    log: Seq<LabelView>,
) -> bool {
    forall|k: int|
        0 <= k < after.len() ==> before.contains(#[trigger] after[k]) || (after[k].0
            == log.last().stamp && sound_entry(log, after[k].1))
}

/// Messages are taken once when a fitting label is recorded, with sound revisits.
pub proof fn lemma_recorded(s: StateView, t: StateView, l: LabelView)
    requires
        state_ok(s),
        sound_state(s),
        t.graph.log == s.graph.log.push(l),
        log_wf(t.graph.log),
        l.stamp >= s.graph.stamp,
        may_append(s.graph.log, l),
        soundly_noted(s.rqueue, t.rqueue, t.graph.log),
    ensures
        sound_state(t),
{
    let log = s.graph.log;
    let after = t.graph.log;
    lemma_append(log, l);
    assert forall|k: int| 0 <= k < t.rqueue.len() implies sound_log(
        upto(after, (#[trigger] t.rqueue[k]).0),
    ) && sound_entry(upto(after, t.rqueue[k].0), t.rqueue[k].1) by {
        let entry = t.rqueue[k];
        if s.rqueue.contains(entry) {
            let m = choose|m: int| 0 <= m < s.rqueue.len() && s.rqueue[m] == entry;
            assert(s.rqueue[m].0 < s.graph.stamp);
            lemma_upto_push(log, l, entry.0);
            assert(sound_entry(upto(log, s.rqueue[m].0), s.rqueue[m].1));
        } else {
            lemma_upto_is(after, entry.0, after.len() as int);
            assert(after.take(after.len() as int) =~= after);
        }
    }
}

/// A label that reads nothing may be added to a thread that has not ended.
pub proof fn lemma_reads_nothing(log: Seq<LabelView>, l: LabelView)
    requires
        sound_log(log),
        !thread_complete(log, l.pos.thread),
        forall|e: Event| !l.reads(e),
        !(l.kind is Begin),
        l.kind matches KindView::TJoin { cid } ==> thread_complete(log, cid),
    ensures
        may_append(log, l),
{
    reveal(sound_log);
}

/// What is new has its place at the end of the log.
pub proof fn lemma_at_end<P>(v: MustView<P>, pos: Event, kind: KindView)
    requires
        must_ok(v),
        !in_log(log_of(v), pos),
        pos.index == 0 || in_log(log_of(v), previous(pos)),
        v.current.graph.stamp < usize::MAX,
    ensures
        with_label(v.current.graph, pos, kind).log == log_of(v).push(
            LabelView { pos, stamp: v.current.graph.stamp, kind },
        ),
        log_wf(log_of(v).push(LabelView { pos, stamp: v.current.graph.stamp, kind })),
{
    let log = log_of(v);
    if log.len() > 0 && log.last().pos == pos {
        assert(log[log.len() - 1].pos == pos);
    }
    lemma_with_label(v.current.graph, pos, kind);
}

/// A message on offer to `reader` is taken by no other event, unless it is meant for
/// `reader` as a monitor.
proof fn lemma_offer_free<P: RecvPredicate>(
    log: Seq<LabelView>,
    locs: Seq<RecvLoc<P>>,
    loc: usize,
    reader: Event,
    monitor: bool,
    e: Event,
)
    requires
        log_wf(log),
        offers_of(log, locs, loc, reader, monitor).contains(e),
    ensures
        in_log(log, e),
        label_at(log, e).kind is Send,
        label_at(log, e).pos == e,
        listed(log, e, reader.thread) || forall|k: int|
            0 <= k < log.len() && (#[trigger] log[k]).pos != reader ==> !takes(log, log[k], e),
{
    let offers = offers_of(log, locs, loc, reader, monitor);
    lemma_offers(log, locs, loc, reader, monitor, log.len());
    let i = choose|i: int| 0 <= i < offers.len() && offers[i] == e;
    let l = label_at(log, offers[i]);
    assert(on_offer(log, locs, loc, reader, monitor, l));
    if !listed(log, e, reader.thread) {
        assert(!monitor);
        assert forall|k: int| 0 <= k < log.len() && (#[trigger] log[k]).pos != reader implies !takes(
            log,
            log[k],
            e,
        ) by {
            if takes(log, log[k], e) {
                assert(log[k].reads(l.pos));
                assert(crate::cons::taken(log, reader, monitor, l));
            }
        }
    }
}

/// What can be read is on offer.
proof fn lemma_readable_offered<P: RecvPredicate>(
    log: Seq<LabelView>,
    locs: Seq<RecvLoc<P>>,
    loc: usize,
    reader: Event,
    monitor: bool,
    e: Event,
)
    requires
        log_wf(log),
        rfs_of(log, locs, loc, reader, monitor).contains(e),
    ensures
        offers_of(log, locs, loc, reader, monitor).contains(e),
{
    law_offers_are_the_readable_sends(log, locs, loc, reader, monitor);
    lemma_offers(log, locs, loc, reader, monitor, log.len());
    let i = index_of(log, e);
    assert(log[i].pos == e);
    assert(on_offer(log, locs, loc, reader, monitor, log[i]));
}

/// The same with another label at the place of the reader.
proof fn lemma_offer_free_at_end(
    log: Seq<LabelView>,
    blank: LabelView,
    l: LabelView,
    e: Event,
)
    requires
        log_wf(log.push(blank)),
        log_wf(log.push(l)),
        log_wf(log),
        blank.pos == l.pos,
        is_reader(blank),
        in_log(log.push(blank), e),
        label_at(log.push(blank), e).kind is Send,
        listed(log.push(blank), e, l.pos.thread) || forall|k: int|
            0 <= k < log.push(blank).len() && (#[trigger] log.push(blank)[k]).pos != l.pos
                ==> !takes(log.push(blank), log.push(blank)[k], e),
    ensures
        in_log(log, e),
        label_at(log, e).kind is Send,
        label_at(log.push(l), e) == label_at(log, e),
        in_log(log.push(l), e),
        listed(log, e, l.pos.thread) || forall|k: int|
            0 <= k < log.len() ==> !takes(log, #[trigger] log[k], e),
        listed(log, e, l.pos.thread) || forall|k: int|
            0 <= k < log.push(l).len() && (#[trigger] log.push(l)[k]).pos != l.pos ==> !takes(
                log.push(l),
                log.push(l)[k],
                e,
            ),
{
    let before = log.push(blank);
    let after = log.push(l);
    let n = log.len() as int;
    let i = index_of(before, e);
    assert(before[i].pos == e);
    lemma_index_of(before, i);
    lemma_index_of(before, n);
    assert(i < n);
    assert(log[i] == before[i]);
    assert(after[i] == before[i]);
    lemma_index_of(log, i);
    lemma_index_of(after, i);
    lemma_index_of(after, n);
    if !listed(log, e, l.pos.thread) {
        assert forall|k: int| 0 <= k < log.len() implies !takes(log, #[trigger] log[k], e) by {
            assert(before[k] == log[k]);
            if before[k].pos == l.pos {
                lemma_index_of(before, k);
            }
            assert(!takes(before, before[k], e));
        }
        assert forall|k: int|
            0 <= k < after.len() && (#[trigger] after[k]).pos != l.pos implies !takes(
            after,
            after[k],
            e,
        ) by {
            assert(after[k] == log[k]);
        }
    }
}

/// What is left of the offers was offered.
proof fn lemma_asymmetric_within(log: Seq<LabelView>, rfs: Seq<Event>, n: nat)
    requires
        n <= rfs.len(),
    ensures
        forall|i: int|
            0 <= i < asymmetric_rfs(log, rfs, n).len() ==> rfs.contains(
                #[trigger] asymmetric_rfs(log, rfs, n)[i],
            ),
    decreases n,
{
    if n > 0 {
        let before = asymmetric_rfs(log, rfs, (n - 1) as nat);
        let after = asymmetric_rfs(log, rfs, n);
        lemma_asymmetric_within(log, rfs, (n - 1) as nat);
        assert forall|i: int| 0 <= i < after.len() implies rfs.contains(#[trigger] after[i]) by {
            if i < before.len() {
                assert(after[i] == before[i]);
            } else {
                assert(after[i] == rfs[n - 1]);
            }
        }
    }
}

/// What the worklist of a receive holds.
proof fn lemma_forwards_noted(
    queue: Seq<(usize, RevisitView)>,
    stamp: usize,
    pos: Event,
    rfs: Seq<Event>,
    from: nat,
    n: nat,
    log: Seq<LabelView>,
)
    requires
        list_sorted(queue),
        n <= rfs.len(),
        log.last().stamp == stamp,
        forall|i: int|
            0 <= i < rfs.len() ==> sound_entry(log, forward_to(pos, #[trigger] rfs[i])),
    ensures
        list_sorted(with_forwards(queue, stamp, pos, rfs, from, n)),
        soundly_noted(queue, with_forwards(queue, stamp, pos, rfs, from, n), log),
    decreases n,
{
    if n > from {
        let before = with_forwards(queue, stamp, pos, rfs, from, (n - 1) as nat);
        lemma_forwards_noted(queue, stamp, pos, rfs, from, (n - 1) as nat, log);
        lemma_noted_more(queue, before, stamp, forward_to(pos, rfs[n - 1]), log);
    }
}

/// One more sound revisit keeps the worklist sound.
pub proof fn lemma_noted_more(
    first: Seq<(usize, RevisitView)>,
    queue: Seq<(usize, RevisitView)>,
    stamp: usize,
    r: RevisitView,
    log: Seq<LabelView>,
)
    requires
        list_sorted(queue),
        soundly_noted(first, queue, log),
        log.last().stamp == stamp,
        sound_entry(log, r),
    ensures
        list_sorted(pushed(queue, stamp, r)),
        soundly_noted(first, pushed(queue, stamp, r), log),
{
    lemma_pushed(queue, stamp, r);
    let after = pushed(queue, stamp, r);
    assert forall|k: int| 0 <= k < after.len() implies first.contains(#[trigger] after[k]) || (
    after[k].0 == log.last().stamp && sound_entry(log, after[k].1)) by {
        if after[k] != (stamp, r) {
            assert(queue.contains(after[k]));
            let m = choose|m: int| 0 <= m < queue.len() && queue[m] == after[k];
            assert(queue[m] == after[k]);
        }
    }
}

/// What the worklist of an inbox holds.
proof fn lemma_inbox_forwards_noted(
    queue: Seq<(usize, RevisitView)>,
    stamp: usize,
    pos: Event,
    sets: Seq<Seq<Event>>,
    canonical: Seq<Event>,
    n: nat,
    log: Seq<LabelView>,
)
    requires
        list_sorted(queue),
        n <= sets.len(),
        log.last().stamp == stamp,
        forall|i: int|
            0 <= i < sets.len() ==> sound_entry(
                log,
                RevisitView {
                    backward: false,
                    pos,
                    rev: PlacementView::Inbox(#[trigger] sets[i]),
                },
            ),
    ensures
        list_sorted(with_inbox_forwards(queue, stamp, pos, sets, canonical, n)),
        soundly_noted(queue, with_inbox_forwards(queue, stamp, pos, sets, canonical, n), log),
    decreases n,
{
    if n > 0 {
        let before = with_inbox_forwards(queue, stamp, pos, sets, canonical, (n - 1) as nat);
        lemma_inbox_forwards_noted(queue, stamp, pos, sets, canonical, (n - 1) as nat, log);
        if sets[n - 1] != canonical {
            lemma_noted_more(
                queue,
                before,
                stamp,
                RevisitView { backward: false, pos, rev: PlacementView::Inbox(sets[n - 1]) },
                log,
            );
        }
    }
}

/// What the worklist holds after a send.
proof fn lemma_revisits_noted(
    first: Seq<(usize, RevisitView)>,
    queue: Seq<(usize, RevisitView)>,
    stamp: usize,
    revs: Seq<RevisitView>,
    n: nat,
    log: Seq<LabelView>,
)
    requires
        list_sorted(queue),
        soundly_noted(first, queue, log),
        n <= revs.len(),
        log.last().stamp == stamp,
        forall|i: int| 0 <= i < revs.len() ==> sound_entry(log, #[trigger] revs[i]),
    ensures
        list_sorted(with_revisits(queue, stamp, revs, n)),
        soundly_noted(first, with_revisits(queue, stamp, revs, n), log),
    decreases n,
{
    if n > 0 {
        let before = with_revisits(queue, stamp, revs, (n - 1) as nat);
        lemma_revisits_noted(first, queue, stamp, revs, (n - 1) as nat, log);
        lemma_noted_more(first, before, stamp, revs[n - 1], log);
    }
}

/// The messages offered to the new receive or inbox `blank` may be read by it: `l` is the
/// same event with some of them read.
proof fn lemma_reads_offers<P: RecvPredicate>(
    log: Seq<LabelView>,
    blank: LabelView,
    l: LabelView,
    locs: Seq<RecvLoc<P>>,
    loc: usize,
    monitor: bool,
)
    requires
        sound_log(log),
        log_wf(log.push(blank)),
        log_wf(log.push(l)),
        !thread_complete(log, l.pos.thread),
        blank.pos == l.pos,
        is_reader(blank),
        is_reader(l),
        forall|e: Event| #[trigger]
            l.reads(e) ==> offers_of(log.push(blank), locs, loc, l.pos, monitor).contains(e),
    ensures
        may_append(log, l),
        forall|r: RevisitView|
            !r.backward && r.pos == l.pos && placement_fits(l, r.rev) && (forall|i: int|
                0 <= i < sends_of(r.rev).len() ==> offers_of(
                    log.push(blank),
                    locs,
                    loc,
                    l.pos,
                    monitor,
                ).contains(#[trigger] sends_of(r.rev)[i])) ==> #[trigger] sound_entry(
                log.push(l),
                r,
            ),
{
    let before = log.push(blank);
    let after = log.push(l);
    let rfs = offers_of(before, locs, loc, l.pos, monitor);
    reveal(sound_log);
    lemma_index_of(after, log.len() as int);
    assert forall|e: Event| #[trigger] l.reads(e) implies in_log(log, e) && label_at(
        log,
        e,
    ).kind is Send && (listed(log, e, l.pos.thread) || forall|k: int|
        0 <= k < log.len() ==> !takes(log, #[trigger] log[k], e)) by {
        lemma_offer_free(before, locs, loc, l.pos, monitor, e);
        lemma_offer_free_at_end(log, blank, l, e);
    }
    assert forall|r: RevisitView|
        !r.backward && r.pos == l.pos && placement_fits(l, r.rev) && (forall|i: int|
            0 <= i < sends_of(r.rev).len() ==> rfs.contains(
                #[trigger] sends_of(r.rev)[i],
            )) implies #[trigger] sound_entry(after, r) by {
        let sends = sends_of(r.rev);
        assert forall|i: int| 0 <= i < sends.len() implies free_for(after, r, #[trigger] sends[i]) by {
            let e = sends[i];
            assert(rfs.contains(sends_of(r.rev)[i]));
            lemma_offer_free(before, locs, loc, l.pos, monitor, e);
            lemma_offer_free_at_end(log, blank, l, e);
            assert(listed(after, e, r.pos.thread) == listed(log, e, r.pos.thread));
        }
    }
}

/// Messages are taken once when a receive reads what it is offered.
pub proof fn lemma_receive<P: RecvPredicate>(
    v: MustView<P>,
    pos: Event,
    loc: usize,
    blocking: bool,
    pick: nat,
)
    requires
        must_ok(v),
        sound_state(v.current),
        comes_next(v, pos),
        !thread_complete(log_of(v), pos.thread),
        pick_in_range(added(v, pos, recv_kind(loc, blocking)), pos, blocking, pick),
    ensures
        sound_state(
            visited(added(v, pos, recv_kind(loc, blocking)), pos, blocking, pick).current,
        ),
        visited(added(v, pos, recv_kind(loc, blocking)), pos, blocking, pick).states == v.states,
{
    let kind = recv_kind(loc, blocking);
    let log = log_of(v);
    let stamp = v.current.graph.stamp;
    let blank = LabelView { pos, stamp, kind };
    let u = added(v, pos, kind);
    let w = visited(u, pos, blocking, pick);
    lemma_at_end(v, pos, kind);
    let before = log.push(blank);
    assert(log_of(u) == before);
    lemma_index_of(before, log.len() as int);
    assert(label_at(before, pos) == blank);
    assert(loc_at(before, pos) == loc);
    let monitor = u.monitors.contains(pos.thread);
    let all = rfs_of(before, u.locs, loc, pos, monitor);
    let rfs = offered(u, pos, loc);
    lemma_asymmetric_within(before, all, all.len());
    let offers = offers_of(before, u.locs, loc, pos, monitor);
    assert forall|i: int| 0 <= i < rfs.len() implies offers.contains(#[trigger] rfs[i]) by {
        assert(all.contains(rfs[i]));
        lemma_readable_offered(before, u.locs, loc, pos, monitor, rfs[i]);
    }
    if blocking && rfs.len() == 0 {
        let block = KindView::Block { btype: crate::event_label::BlockType::Value(loc, 1) };
        let l = LabelView { pos, stamp: (stamp + 1) as usize, kind: block };
        assert(before.last().pos == pos);
        assert(before.drop_last() =~= log);
        assert(log_of(w) == log.push(l));
        lemma_replaced(v, pos, kind, block);
        lemma_reads_nothing(log, l);
        assert(soundly_noted(v.current.rqueue, w.current.rqueue, log_of(w)));
        lemma_recorded(v.current, w.current, l);
    } else {
        let estimating = u.config.mode is Estimation;
        let rf = if !blocking && rfs.len() > 0 && estimating {
            if pick < rfs.len() {
                Some(rfs[pick as int])
            } else {
                None
            }
        } else if !blocking {
            None
        } else if estimating {
            Some(rfs[pick as int])
        } else {
            Some(rfs[0])
        };
        let l = LabelView { pos, stamp, kind: with_rf(kind, rf) };
        let after = log.push(l);
        assert(log_of(w) =~= after);
        assert(log_wf(after)) by {
            lemma_at_end(v, pos, with_rf(kind, rf));
        }
        assert forall|e: Event| #[trigger] l.reads(e) implies offers.contains(e) by {
            assert(rf == Some(e));
            if estimating {
                assert(offers.contains(rfs[pick as int]));
            } else {
                assert(offers.contains(rfs[0]));
            }
        }
        lemma_reads_offers(log, blank, l, u.locs, loc, monitor);
        assert forall|i: int| 0 <= i < rfs.len() implies sound_entry(
            after,
            forward_to(pos, #[trigger] rfs[i]),
        ) by {
            let r = forward_to(pos, rfs[i]);
            assert(sends_of(r.rev).len() == 1 && sends_of(r.rev)[0] == rfs[i]);
            assert(offers.contains(rfs[i]));
        }
        if !(estimating && rfs.len() > 0) {
            let from: nat = if blocking {
                1
            } else {
                0
            };
            lemma_forwards_noted(u.current.rqueue, stamp, pos, rfs, from, rfs.len(), after);
        }
        assert(soundly_noted(v.current.rqueue, w.current.rqueue, after));
        lemma_recorded(v.current, w.current, l);
    }
}

/// The label that replaces the one just recorded is at the end of the log, too.
proof fn lemma_replaced<P>(v: MustView<P>, pos: Event, kind: KindView, other: KindView)
    requires
        must_ok(v),
        comes_next(v, pos),
    ensures
        log_wf(
            log_of(v).push(
                LabelView { pos, stamp: (v.current.graph.stamp + 1) as usize, kind: other },
            ),
        ),
{
    let g = with_label(v.current.graph, pos, kind);
    lemma_at_end(v, pos, kind);
    lemma_with_label(v.current.graph, pos, kind);
    lemma_with_label(g, pos, other);
    assert(g.log.drop_last() =~= log_of(v));
}

/// Messages are taken once when an inbox reads what it is offered.
pub proof fn lemma_inbox<P: RecvPredicate>(
    v: MustView<P>,
    pos: Event,
    loc: usize,
    min: usize,
    max: Option<usize>,
)
    requires
        must_ok(v),
        sound_state(v.current),
        comes_next(v, pos),
        !thread_complete(log_of(v), pos.thread),
    ensures
        sound_state(inbox_visited(added(v, pos, inbox_kind(loc, min, max)), pos).current),
        inbox_visited(added(v, pos, inbox_kind(loc, min, max)), pos).states == v.states,
{
    let kind = inbox_kind(loc, min, max);
    let log = log_of(v);
    let stamp = v.current.graph.stamp;
    let blank = LabelView { pos, stamp, kind };
    let u = added(v, pos, kind);
    let w = inbox_visited(u, pos);
    lemma_at_end(v, pos, kind);
    let before = log.push(blank);
    assert(log_of(u) == before);
    lemma_index_of(before, log.len() as int);
    assert(label_at(before, pos) == blank);
    let rfs = offers_of(before, u.locs, loc, pos, false);
    if min > upper_bound(rfs.len(), max) {
        let block = KindView::Block { btype: crate::event_label::BlockType::Value(loc, min) };
        let l = LabelView { pos, stamp: (stamp + 1) as usize, kind: block };
        assert(before.last().pos == pos);
        assert(before.drop_last() =~= log);
        assert(log_of(w) == log.push(l));
        lemma_replaced(v, pos, kind, block);
        lemma_reads_nothing(log, l);
        assert(soundly_noted(v.current.rqueue, w.current.rqueue, log_of(w)));
        lemma_recorded(v.current, w.current, l);
    } else {
        let sets = inbox_choices(before, u.locs, loc, pos, min, max);
        let canonical = canonical_set(rfs, min, max);
        let l = LabelView { pos, stamp, kind: with_rfs(kind, as_rfs(canonical)) };
        let after = log.push(l);
        assert(log_of(w) =~= after);
        assert(log_wf(after)) by {
            lemma_at_end(v, pos, with_rfs(kind, as_rfs(canonical)));
        }
        assert forall|e: Event| #[trigger] l.reads(e) implies rfs.contains(e) by {
            assert(canonical.contains(e));
            let i = choose|i: int| 0 <= i < canonical.len() && canonical[i] == e;
            assert(rfs[i] == e);
        }
        lemma_reads_offers(log, blank, l, u.locs, loc, false);
        law_inboxes_choose_among_ordered_sets(before, u.locs, loc, pos, min, max);
        assert forall|i: int| 0 <= i < sets.len() implies sound_entry(
            after,
            RevisitView { backward: false, pos, rev: PlacementView::Inbox(#[trigger] sets[i]) },
        ) by {
            let r = RevisitView { backward: false, pos, rev: PlacementView::Inbox(sets[i]) };
            assert(sets.contains(sets[i]));
            assert(is_pick(rfs, min as nat, upper_bound(rfs.len(), max), sets[i]));
            let picks = choose|picks: Seq<int>|
                crate::must::laws::ascending_picks(picks, 0, rfs.len() as int) && min
                    <= picks.len() <= upper_bound(rfs.len(), max) && #[trigger] picked(rfs, picks)
                    == sets[i];
            assert forall|k: int| 0 <= k < sends_of(r.rev).len() implies rfs.contains(
                #[trigger] sends_of(r.rev)[k],
            ) by {
                assert(sets[i][k] == rfs[picks[k]]);
            }
        }
        lemma_inbox_forwards_noted(
            u.current.rqueue,
            stamp,
            pos,
            sets,
            canonical,
            sets.len(),
            after,
        );
        lemma_recorded(v.current, w.current, l);
    }
}

/// A sound revisit by the send recorded last reads only what nothing else takes then.
proof fn lemma_sound_revisit<P: RecvPredicate>(v: MustView<P>, send: Event, r: RevisitView)
    requires
        must_ok(v),
        log_of(v).len() > 0,
        log_of(v).last().kind is Send,
        sound_revisit(v, send, r),
    ensures
        sound_entry(log_of(v), r),
{
    let g = v.current.graph;
    let log = g.log;
    let l = label_at(log, r.pos);
    let sends = sends_of(r.rev);
    let part = restricted(g, l.stamp, sends).log;
    crate::must::delivery::revisits::lemma_kept(g, l.stamp, sends);
    let q = index_of(log, r.pos);
    assert(log[q].pos == r.pos);
    assert forall|i: int| 0 <= i < sends.len() implies free_for(log, r, #[trigger] sends[i]) by {
        let e = sends[i];
        let monitor = l.kind is Recv && v.monitors.contains(r.pos.thread);
        let loc = loc_at(log, r.pos);
        if l.kind is Recv {
            assert(crate::cons::revisit_readable(g, v.locs, loc, l, monitor, sends, sends[i]));
            lemma_readable_offered(part, v.locs, loc, r.pos, monitor, e);
        } else {
            assert(offers_of(part, v.locs, loc, r.pos, monitor).contains(sends[i]));
        }
        lemma_offer_free(part, v.locs, loc, r.pos, monitor, e);
        assert(in_log(part, e));
        assert(label_at(part, e) == label_at(log, e));
        if !listed(log, e, r.pos.thread) {
            assert(!listed(part, e, r.pos.thread));
            assert forall|k: int|
                0 <= k < log.len() && stays(log, r, #[trigger] log[k]) && log[k].pos
                    != r.pos implies !takes(log, log[k], e) by {
                assert(survives(log, l.stamp, sends, log[k]));
                assert(part.contains(log[k]));
                let m = choose|m: int| 0 <= m < part.len() && part[m] == log[k];
                assert(part[m].pos != r.pos);
                assert(!takes(part, part[m], e));
            }
        }
    }
}

/// The revisits that a new send makes are sound.
proof fn lemma_noted_by_send<P: RecvPredicate>(
    first: Seq<(usize, RevisitView)>,
    v: MustView<P>,
    send: Event,
)
    requires
        must_ok(v),
        log_of(v).len() > 0,
        log_of(v).last().kind is Send,
        log_of(v).last().pos == send,
        soundly_noted(first, v.current.rqueue, log_of(v)),
    ensures
        soundly_noted(first, revisits_noted(v, send).current.rqueue, log_of(v)),
        revisits_noted(v, send).current.graph == v.current.graph,
        revisits_noted(v, send).states == v.states,
{
    let log = log_of(v);
    let n = log.len();
    lemma_index_of(log, n - 1);
    let revs = revisits_from(v, send, n);
    law_sends_make_sound_revisits(v, send, n);
    assert forall|i: int| 0 <= i < revs.len() implies sound_entry(log, #[trigger] revs[i]) by {
        lemma_sound_revisit(v, send, revs[i]);
    }
    lemma_revisits_noted(first, v.current.rqueue, log.last().stamp, revs, revs.len(), log);
}

/// Messages are taken once when one more is sent.
pub proof fn lemma_send<P: RecvPredicate>(v: MustView<P>, pos: Event, kind: KindView)
    requires
        must_ok(v),
        sound_state(v.current),
        comes_next(v, pos),
        !thread_complete(log_of(v), pos.thread),
        kind is Send,
    ensures
        sound_state(sent(v, pos, kind).current),
        sent(v, pos, kind).states == v.states,
{
    let log = log_of(v);
    let stamp = v.current.graph.stamp;
    let l = LabelView { pos, stamp, kind };
    let w = added(v, pos, kind);
    lemma_at_end(v, pos, kind);
    let after = log.push(l);
    assert(log_of(w) == after);
    lemma_index_of(after, log.len() as int);
    lemma_comes_next(v, pos, kind);
    lemma_reads_nothing(log, l);
    let r = forward_to(pos, init_event());
    assert(soundly_noted(v.current.rqueue, w.current.rqueue, after));
    assert(sound_entry(after, r));
    lemma_noted_more(v.current.rqueue, w.current.rqueue, stamp, r, after);
    lemma_revisit_ok(w, stamp, r);
    lemma_noted_by_send(v.current.rqueue, w, pos);
    lemma_noted_by_send(v.current.rqueue, with_revisit(w, stamp, r), pos);
    let z = sent(v, pos, kind);
    assert(z == revisits_noted(w, pos) || z == revisits_noted(with_revisit(w, stamp, r), pos));
    assert(z.current.graph.log == after);
    lemma_recorded(v.current, z.current, l);
}

} // verus!
