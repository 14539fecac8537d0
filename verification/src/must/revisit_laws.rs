//! Which revisits a new send makes: those that are needed to visit every execution, and no
//! others.

use crate::cons::{
    addressed, arrives_first, ascending, inbox_readable, lemma_normalized, lemma_offers,
    lemma_rfs, lemma_with_event, normalized, offers_of, on_offer, owner_of, owner_upto, readable,
    readable_among, revisit_readable, rfs_of, rfs_upto, stamp_of, with_event,
};
use crate::event::{event_le, Event};
use crate::event_label::{KindView, LabelView};
use crate::exec_graph::{
    comes_before, in_log, index_of, is_dropped, label_at, lemma_index_of, lemma_restricted,
    lemma_survivors, log_wf, restricted, stays_from, survives,
};
use crate::loc::{RecvLoc, RecvPredicate};
use crate::must::backward::{
    accepts_send, has_room, inbox_revisit, inbox_revisits, inbox_sends, inbox_sets,
    is_symmetric_send, maximal_extension, maximal_label, maximal_read, read_count, reads_deleted,
    revisits_from, revisits_noted, with_revisits,
};
use crate::must::laws::{lemma_picks_reach, picked};
use crate::must::step::{init_event, next_alternative};
use crate::must::visit::{prefix_symmetric, sym_of};
use crate::must::{log_of, must_ok, MustView};
use crate::revisit::{
    containing, lemma_pushed, list_sorted, subsets_from, PlacementView, RevisitView,
};
use vstd::prelude::*;

verus! {

/// Whether the receive or inbox labelled `l` takes the message that `s` sent: a monitor
/// takes what names it as a monitor, others what is sent to one of their places and is
/// accepted there.
pub open spec fn takes_message<P: RecvPredicate>(
    v: MustView<P>,
    l: LabelView,
    s: LabelView,
) -> bool {
    match (l.kind, s.kind) {
        (KindView::Recv { loc, .. }, KindView::Send { loc: to, tag, monitors, .. }) => if v.monitors.contains(
        l.pos.thread) {
            monitors.contains(l.pos.thread)
        } else {
            loc < v.locs.len() && v.locs[loc as int].locs@.contains(to)
                && v.locs[loc as int].predicate.accepted(s.pos.thread, tag)
        },
        (KindView::Inbox { loc, .. }, KindView::Send { loc: to, tag, .. }) => loc < v.locs.len()
            && v.locs[loc as int].locs@.contains(to) && v.locs[loc as int].predicate.accepted(
            s.pos.thread,
            tag,
        ),
        _ => false,
    }
}

/// Whether a revisit of the receive stamped `stamp` to `sends` deletes the event labelled
/// `l`: it is newer than the receive and does not come before the sends. A thread whose
/// creation stays has begun.
pub open spec fn is_deleted(
    log: Seq<LabelView>,
    stamp: usize,
    sends: Seq<Event>,
    l: LabelView,
) -> bool {
    &&& l.stamp > stamp
    &&& !comes_before(log, sends, l.pos)
    &&& !(l.pos.index == 0 && exists|p: int|
        0 <= p < log.len() && (l.kind matches KindView::Begin { parent: Some(e), .. } && e == (
        #[trigger] log[p]).pos) && (log[p].stamp <= stamp || comes_before(log, sends, log[p].pos)))
}

/// Whether the receive or inbox at place `i` stands as it was first recorded, as far as a
/// revisit of the receive stamped `stamp` to `sends` goes: it may still be revisited, it
/// reads no send that is newer than both receives and that the revisit deletes, and it
/// reads what a receive reads at first. That is nothing where it need not wait, and
/// otherwise the oldest message that it could read then.
pub open spec fn reads_as_recorded<P: RecvPredicate>(
    v: MustView<P>,
    i: int,
    stamp: usize,
    sends: Seq<Event>,
) -> bool {
    let log = log_of(v);
    let l = log[i];
    let then = log.take(i + 1);
    &&& forall|j: int|
        0 <= j < log.len() && l.reads((#[trigger] log[j]).pos) && log[j].stamp > l.stamp
            && log[j].stamp > stamp ==> comes_before(log, sends, log[j].pos)
    &&& match l.kind {
        KindView::Recv { loc, blocking, rf, revisitable } => {
            let monitor = v.monitors.contains(l.pos.thread);
            revisitable && match rf {
                None => !blocking || forall|k: int|
                    0 <= k < then.len() ==> !readable(
                        then,
                        v.locs,
                        loc,
                        l.pos,
                        monitor,
                        #[trigger] then[k],
                    ),
                Some(e) => blocking && exists|k: int|
                    0 <= k < then.len() && (#[trigger] then[k]).pos == e && readable(
                        then,
                        v.locs,
                        loc,
                        l.pos,
                        monitor,
                        then[k],
                    ) && forall|m: int|
                        0 <= m < k ==> !readable(
                            then,
                            v.locs,
                            loc,
                            l.pos,
                            monitor,
                            #[trigger] then[m],
                        ),
            }
        },
        KindView::Inbox { loc, min, max, rfs, revisitable } => {
            let offers = offers_of(then, v.locs, loc, l.pos, false);
            revisitable && match rfs {
                None => min == 0 || offers.len() == 0 || max == Some(0usize),
                Some(es) => min > 0 && es.len() > 0 && es.len() <= offers.len() && es
                    == offers.take(es.len() as int) && (es.len() == offers.len() || max == Some(
                    es.len() as usize,
                )) && (max matches Some(m) ==> es.len() <= m),
            }
        },
        _ => true,
    }
}

/// Whether the event at place `i` stands at the alternative under which events are deleted:
/// a choice at the last number of its range, a toss at `true`, a send that was not lost, a
/// receive as it was first recorded.
pub open spec fn stands_undecided<P: RecvPredicate>(
    v: MustView<P>,
    i: int,
    stamp: usize,
    sends: Seq<Event>,
) -> bool {
    match log_of(v)[i].kind {
        KindView::Choice { start, end, result } => result == end,
        KindView::CToss { result } => result,
        KindView::Send { dropped, .. } => !dropped,
        KindView::Recv { .. } => reads_as_recorded(v, i, stamp, sends),
        KindView::Inbox { .. } => reads_as_recorded(v, i, stamp, sends),
        _ => true,
    }
}

/// Whether all events that a revisit deletes stand at the alternative under which events
/// are deleted.
pub open spec fn deletes_undecided_events<P: RecvPredicate>(
    v: MustView<P>,
    stamp: usize,
    sends: Seq<Event>,
) -> bool {
    forall|j: int|
        0 <= j < log_of(v).len() && is_deleted(log_of(v), stamp, sends, #[trigger] log_of(v)[j])
            ==> stands_undecided(v, j, stamp, sends)
}

/// What an event did, `k` alternatives later.
pub open spec fn alternatives_later(kind: KindView, k: nat) -> KindView
    decreases k,
{
    if k == 0 {
        kind
    } else {
        next_alternative(
            alternatives_later(kind, (k - 1) as nat),
            PlacementView::Default(init_event()),
        )
    }
}

/// Whether the receive at place `i` is to be revisited by `send`: it takes the message, does
/// not come before the send, stands as it was first recorded, may read the message in the
/// graph that the revisit leaves, and all events that the revisit deletes stand at the
/// alternative under which events are deleted.
pub open spec fn is_to_revisit<P: RecvPredicate>(v: MustView<P>, i: int, send: Event) -> bool {
    let log = log_of(v);
    let l = log[i];
    let rest = restricted(v.current.graph, l.stamp, seq![send]).log;
    &&& l.kind is Recv
    &&& takes_message(v, l, label_at(log, send))
    &&& !comes_before(log, seq![send], l.pos)
    &&& reads_as_recorded(v, i, l.stamp, seq![send])
    &&& exists|k: int|
        0 <= k < rest.len() && (#[trigger] rest[k]).pos == send && readable(
            rest,
            v.locs,
            l.kind->Recv_loc,
            l.pos,
            v.monitors.contains(l.pos.thread),
            rest[k],
        )
    &&& deletes_undecided_events(v, l.stamp, seq![send])
}

/// The backward revisit of the receive at `pos` to `send`.
pub open spec fn backward_to(pos: Event, send: Event) -> RevisitView {
    RevisitView { backward: true, pos, rev: PlacementView::Default(send) }
}

proof fn lemma_deleted(log: Seq<LabelView>, stamp: usize, sends: Seq<Event>, l: LabelView)
    requires
        log_wf(log),
    ensures
        is_deleted(log, stamp, sends, l) == !survives(log, stamp, sends, l),
{
    if let KindView::Begin { parent: Some(e), .. } = l.kind {
        if in_log(log, e) {
            let p = index_of(log, e);
            lemma_index_of(log, p);
            assert(log[p].pos == e);
        }
        assert forall|p: int| 0 <= p < log.len() && e == (#[trigger] log[p]).pos implies log[p]
            == label_at(log, e) && in_log(log, e) by {
            lemma_index_of(log, p);
        }
    }
}

/// What is listed first is the oldest readable send.
proof fn lemma_first_listed<P: RecvPredicate>(
    log: Seq<LabelView>,
    locs: Seq<RecvLoc<P>>,
    loc: usize,
    reader: Event,
    monitor: bool,
    n: nat,
) -> (k: int)
    requires
        n <= log.len(),
    ensures
        rfs_upto(log, locs, loc, reader, monitor, n).len() == 0 ==> forall|m: int|
            0 <= m < n ==> !readable(log, locs, loc, reader, monitor, #[trigger] log[m]),
        rfs_upto(log, locs, loc, reader, monitor, n).len() > 0 ==> 0 <= k < n && log[k].pos
            == rfs_upto(log, locs, loc, reader, monitor, n)[0] && readable(
            log,
            locs,
            loc,
            reader,
            monitor,
            log[k],
        ) && forall|m: int|
            0 <= m < k ==> !readable(log, locs, loc, reader, monitor, #[trigger] log[m]),
    decreases n,
{
    if n == 0 {
        0
    } else {
        let k = lemma_first_listed(log, locs, loc, reader, monitor, (n - 1) as nat);
        let before = rfs_upto(log, locs, loc, reader, monitor, (n - 1) as nat);
        if before.len() > 0 {
            assert(rfs_upto(log, locs, loc, reader, monitor, n)[0] == before[0]);
            k
        } else {
            n - 1
        }
    }
}

proof fn lemma_listed_when_readable<P: RecvPredicate>(
    log: Seq<LabelView>,
    locs: Seq<RecvLoc<P>>,
    loc: usize,
    reader: Event,
    monitor: bool,
    k: int,
    n: nat,
)
    requires
        0 <= k < n <= log.len(),
        readable(log, locs, loc, reader, monitor, log[k]),
    ensures
        rfs_upto(log, locs, loc, reader, monitor, n).contains(log[k].pos),
    decreases n,
{
    let before = rfs_upto(log, locs, loc, reader, monitor, (n - 1) as nat);
    let after = rfs_upto(log, locs, loc, reader, monitor, n);
    if k < n - 1 {
        lemma_listed_when_readable(log, locs, loc, reader, monitor, k, (n - 1) as nat);
        let m = choose|m: int| 0 <= m < before.len() && before[m] == log[k].pos;
        assert(after[m] == before[m]);
    } else {
        assert(after[before.len() as int] == log[k].pos);
    }
}

/// Receives that stand as they were recorded are those that the revisits go by.
proof fn lemma_reads_as_recorded<P: RecvPredicate>(
    v: MustView<P>,
    i: int,
    rev_pos: Event,
    sends: Seq<Event>,
)
    requires
        must_ok(v),
        0 <= i < log_of(v).len(),
        in_log(log_of(v), rev_pos),
        log_of(v)[i].kind is Recv || log_of(v)[i].kind is Inbox,
    ensures
        maximal_read(v, i, rev_pos, sends) == reads_as_recorded(
            v,
            i,
            stamp_of(log_of(v), rev_pos),
            sends,
        ),
{
    let log = log_of(v);
    let l = log[i];
    let then = log.take(i + 1);
    let stamp = stamp_of(log, rev_pos);
    assert(reads_deleted(log, l, rev_pos, sends) == !(forall|j: int|
        0 <= j < log.len() && l.reads((#[trigger] log[j]).pos) && log[j].stamp > l.stamp
            && log[j].stamp > stamp ==> comes_before(log, sends, log[j].pos))) by {
        if reads_deleted(log, l, rev_pos, sends) {
            let f = choose|f: Event| #[trigger]
                l.reads(f) && in_log(log, f) && stamp_of(log, f) > l.stamp && stamp_of(log, f)
                    > stamp_of(log, rev_pos) && !comes_before(log, sends, f);
            let j = index_of(log, f);
            assert(log[j].pos == f);
        }
        assert forall|j: int|
            0 <= j < log.len() && l.reads((#[trigger] log[j]).pos) && log[j].stamp > l.stamp
                && log[j].stamp > stamp && !comes_before(
                log,
                sends,
                log[j].pos,
            ) implies reads_deleted(log, l, rev_pos, sends) by {
            lemma_index_of(log, j);
            assert(l.reads(log[j].pos));
        }
    }
    match l.kind {
        KindView::Recv { loc, blocking, rf, .. } => {
            let monitor = v.monitors.contains(l.pos.thread);
            let k = lemma_first_listed(then, v.locs, loc, l.pos, monitor, then.len());
            let rfs = rfs_of(then, v.locs, loc, l.pos, monitor);
            if let Some(e) = rf {
                if rfs.len() > 0 {
                    assert forall|m: int|
                        0 <= m < then.len() && (#[trigger] then[m]).pos == e && readable(
                            then,
                            v.locs,
                            loc,
                            l.pos,
                            monitor,
                            then[m],
                        ) && (forall|q: int|
                            0 <= q < m ==> !readable(
                                then,
                                v.locs,
                                loc,
                                l.pos,
                                monitor,
                                #[trigger] then[q],
                            )) implies m == k by {
                        if m < k {
                            assert(!readable(then, v.locs, loc, l.pos, monitor, then[m]));
                        } else if k < m {
                            assert(!readable(then, v.locs, loc, l.pos, monitor, then[k]));
                        }
                    }
                    if blocking && rfs[0] == e {
                        assert(then[k].pos == e);
                    }
                }
            }
        },
        KindView::Inbox { loc, min, max, rfs, .. } => {
            let offers = offers_of(then, v.locs, loc, l.pos, false);
            if let Some(es) = rfs {
                if min > 0 && es.len() <= offers.len() && es == offers.take(es.len() as int) {
                    assert(offers.take(es.len() as int).len() == es.len());
                }
            }
        },
        _ => {},
    }
}

proof fn lemma_undecided<P: RecvPredicate>(
    v: MustView<P>,
    i: int,
    rev_pos: Event,
    sends: Seq<Event>,
)
    requires
        must_ok(v),
        0 <= i < log_of(v).len(),
        in_log(log_of(v), rev_pos),
    ensures
        maximal_label(v, i, rev_pos, sends) == stands_undecided(
            v,
            i,
            stamp_of(log_of(v), rev_pos),
            sends,
        ),
{
    match log_of(v)[i].kind {
        KindView::Recv { .. } => {
            lemma_reads_as_recorded(v, i, rev_pos, sends);
        },
        KindView::Inbox { .. } => {
            lemma_reads_as_recorded(v, i, rev_pos, sends);
        },
        _ => {},
    }
}

proof fn lemma_deletes_undecided<P: RecvPredicate>(v: MustView<P>, rev_pos: Event, sends: Seq<Event>)
    requires
        must_ok(v),
        in_log(log_of(v), rev_pos),
    ensures
        maximal_extension(v, rev_pos, sends) == deletes_undecided_events(
            v,
            stamp_of(log_of(v), rev_pos),
            sends,
        ),
{
    let log = log_of(v);
    let stamp = stamp_of(log, rev_pos);
    assert forall|j: int| 0 <= j < log.len() implies is_deleted(
        log,
        stamp,
        sends,
        #[trigger] log[j],
    ) == !survives(log, stamp, sends, log[j]) && maximal_label(v, j, rev_pos, sends)
        == stands_undecided(v, j, stamp, sends) by {
        lemma_deleted(log, stamp, sends, log[j]);
        lemma_undecided(v, j, rev_pos, sends);
    }
}

proof fn lemma_takes_message<P: RecvPredicate>(v: MustView<P>, l: LabelView, s: LabelView)
    ensures
        accepts_send(v, l, s) == takes_message(v, l, s),
{
}

/// The receive at place `i` is to be revisited just where the search adds its revisit.
proof fn lemma_is_to_revisit<P: RecvPredicate>(v: MustView<P>, i: int, send: Event)
    requires
        must_ok(v),
        0 <= i < log_of(v).len(),
        log_of(v)[i].kind is Recv,
    ensures
        ({
            let log = log_of(v);
            let l = log[i];
            is_to_revisit(v, i, send) == (accepts_send(v, l, label_at(log, send)) && !comes_before(
                log,
                seq![send],
                l.pos,
            ) && maximal_read(v, i, l.pos, seq![send]) && revisit_readable(
                v.current.graph,
                v.locs,
                l.kind->Recv_loc,
                l,
                v.monitors.contains(l.pos.thread),
                seq![send],
                send,
            ) && maximal_extension(v, l.pos, seq![send]))
        }),
{
    let log = log_of(v);
    let l = log[i];
    lemma_index_of(log, i);
    lemma_takes_message(v, l, label_at(log, send));
    lemma_reads_as_recorded(v, i, l.pos, seq![send]);
    lemma_deletes_undecided(v, l.pos, seq![send]);
    let rest = restricted(v.current.graph, l.stamp, seq![send]).log;
    let loc = l.kind->Recv_loc;
    let monitor = v.monitors.contains(l.pos.thread);
    let rfs = rfs_of(rest, v.locs, loc, l.pos, monitor);
    lemma_rfs(rest, v.locs, loc, l.pos, monitor, rest.len());
    if rfs.contains(send) {
        let m = choose|m: int| 0 <= m < rfs.len() && rfs[m] == send;
        assert(readable_among(
            rest,
            v.locs,
            loc,
            l.pos,
            monitor,
            rest.len(),
            rfs[m],
        ));
    }
    assert forall|k: int|
        0 <= k < rest.len() && (#[trigger] rest[k]).pos == send && readable(
            rest,
            v.locs,
            loc,
            l.pos,
            monitor,
            rest[k],
        ) implies rfs.contains(send) by {
        lemma_listed_when_readable(rest, v.locs, loc, l.pos, monitor, k, rest.len());
    }
}

/// A newer receive that ends the search would be deleted by every revisit that it hides.
proof fn lemma_search_goes_on<P: RecvPredicate>(v: MustView<P>, i: int, m: int, sends: Seq<Event>)
    requires
        must_ok(v),
        0 <= i < m < log_of(v).len(),
        log_of(v)[m].kind is Recv || log_of(v)[m].kind is Inbox,
        !comes_before(log_of(v), sends, log_of(v)[m].pos),
        maximal_extension(v, log_of(v)[i].pos, sends),
    ensures
        maximal_read(v, m, log_of(v)[m].pos, sends),
{
    let log = log_of(v);
    lemma_index_of(log, i);
    lemma_index_of(log, m);
    assert(log[i].stamp < log[m].stamp);
    assert(!survives(log, stamp_of(log, log[i].pos), sends, log[m]));
    assert(maximal_label(v, m, log[i].pos, sends));
    if reads_deleted(log, log[m], log[m].pos, sends) {
        let f = choose|f: Event| #[trigger]
            log[m].reads(f) && in_log(log, f) && stamp_of(log, f) > log[m].stamp && stamp_of(log, f)
                > stamp_of(log, log[m].pos) && !comes_before(log, sends, f);
        assert(log[m].reads(f));
        assert(reads_deleted(log, log[m], log[i].pos, sends));
    }
}

proof fn lemma_revisit_is_made<P: RecvPredicate>(v: MustView<P>, send: Event, i: int, n: nat)
    requires
        must_ok(v),
        0 <= i < n <= log_of(v).len(),
        is_to_revisit(v, i, send),
    ensures
        revisits_from(v, send, n).contains(backward_to(log_of(v)[i].pos, send)),
    decreases n,
{
    let log = log_of(v);
    let r = backward_to(log[i].pos, send);
    lemma_is_to_revisit(v, i, send);
    let rest = revisits_from(v, send, (n - 1) as nat);
    let all = revisits_from(v, send, n);
    if i == n - 1 {
        assert(all[0] == r);
    } else {
        lemma_revisit_is_made(v, send, i, (n - 1) as nat);
        let k = choose|k: int| 0 <= k < rest.len() && rest[k] == r;
        let l = log[n - 1];
        if accepts_send(v, l, label_at(log, send)) && !comes_before(log, seq![send], l.pos) {
            match l.kind {
                KindView::Recv { .. } => {
                    lemma_search_goes_on(v, i, n - 1, seq![send]);
                    if all.len() == rest.len() {
                        assert(all[k] == r);
                    } else {
                        assert(all[k + 1] == r);
                    }
                },
                KindView::Inbox { loc, max, rfs, .. } => {
                    if has_room(max, read_count(rfs) + 1) {
                        lemma_search_goes_on(v, i, n - 1, seq![send]);
                        let sets = inbox_sets(v, loc, l.pos, send);
                        let made = inbox_revisits(v, n - 1, send, sets, sets.len());
                        assert(all[made.len() + k] == r);
                    } else {
                        assert(all[k] == r);
                    }
                },
                _ => {
                    assert(all[k] == r);
                },
            }
        } else {
            assert(all[k] == r);
        }
    }
}

proof fn lemma_inbox_revisits_are_sets<P: RecvPredicate>(
    v: MustView<P>,
    i: int,
    send: Event,
    sets: Seq<Seq<Event>>,
    n: nat,
)
    requires
        n <= sets.len(),
    ensures
        forall|k: int|
            0 <= k < inbox_revisits(v, i, send, sets, n).len() ==> (#[trigger] inbox_revisits(
                v,
                i,
                send,
                sets,
                n,
            )[k]).rev is Inbox && inbox_revisits(v, i, send, sets, n)[k].pos == log_of(v)[i].pos,
    decreases n,
{
    if n > 0 {
        lemma_inbox_revisits_are_sets(v, i, send, sets, (n - 1) as nat);
        let before = inbox_revisits(v, i, send, sets, (n - 1) as nat);
        let after = inbox_revisits(v, i, send, sets, n);
        assert forall|k: int| 0 <= k < after.len() implies (#[trigger] after[k]).rev is Inbox
            && after[k].pos == log_of(v)[i].pos by {
            if k < before.len() {
                assert(after[k] == before[k]);
            }
        }
    }
}

proof fn lemma_made_revisit<P: RecvPredicate>(v: MustView<P>, send: Event, i: int, n: nat)
    requires
        must_ok(v),
        0 <= i < log_of(v).len(),
        n <= log_of(v).len(),
        revisits_from(v, send, n).contains(backward_to(log_of(v)[i].pos, send)),
    ensures
        is_to_revisit(v, i, send),
    decreases n,
{
    let log = log_of(v);
    let r = backward_to(log[i].pos, send);
    let all = revisits_from(v, send, n);
    let k = choose|k: int| 0 <= k < all.len() && all[k] == r;
    assert(n > 0);
    let rest = revisits_from(v, send, (n - 1) as nat);
    let l = log[n - 1];
    lemma_index_of(log, i);
    lemma_index_of(log, n - 1);
    if !accepts_send(v, l, label_at(log, send)) || comes_before(log, seq![send], l.pos) {
        assert(rest[k] == r);
        lemma_made_revisit(v, send, i, (n - 1) as nat);
    } else {
        match l.kind {
            KindView::Recv { .. } => {
                if all.len() == rest.len() {
                    assert(rest[k] == r);
                    lemma_made_revisit(v, send, i, (n - 1) as nat);
                } else if k > 0 {
                    assert(rest[k - 1] == r);
                    lemma_made_revisit(v, send, i, (n - 1) as nat);
                } else {
                    assert(l.pos == log[i].pos);
                    assert(i == n - 1);
                    lemma_is_to_revisit(v, i, send);
                }
            },
            KindView::Inbox { loc, max, rfs, .. } => {
                let sets = inbox_sets(v, loc, l.pos, send);
                let made = inbox_revisits(v, n - 1, send, sets, sets.len());
                lemma_inbox_revisits_are_sets(v, n - 1, send, sets, sets.len());
                if !has_room(max, read_count(rfs) + 1) {
                    assert(rest[k] == r);
                } else if k < made.len() {
                    assert(made[k].rev is Inbox);
                } else {
                    assert(rest[k - made.len()] == r);
                }
                lemma_made_revisit(v, send, i, (n - 1) as nat);
            },
            _ => {
                assert(rest[k] == r);
                lemma_made_revisit(v, send, i, (n - 1) as nat);
            },
        }
    }
}

/// A new send revisits a receive exactly if the receive takes the message, does not come
/// before the send, stands as it was first recorded, may read the message in the graph that
/// the revisit leaves, and all events that the revisit deletes stand at the alternative
/// under which events are deleted.
pub proof fn law_sends_revisit_every_receive_that_may_read_them<P: RecvPredicate>(
    v: MustView<P>,
    send: Event,
    i: int,
)
    requires
        must_ok(v),
        0 <= i < log_of(v).len(),
        log_of(v)[i].kind is Recv,
    ensures
        revisits_from(v, send, log_of(v).len()).contains(backward_to(log_of(v)[i].pos, send))
            <==> is_to_revisit(v, i, send),
{
    if is_to_revisit(v, i, send) {
        lemma_revisit_is_made(v, send, i, log_of(v).len());
    }
    if revisits_from(v, send, log_of(v).len()).contains(backward_to(log_of(v)[i].pos, send)) {
        lemma_made_revisit(v, send, i, log_of(v).len());
    }
}

/// Whether the inbox at place `i` is to be revisited by `set`, whose newest send is `send`:
/// it takes the message and has room for one more, does not come before the sends, stands as
/// it was first recorded; the set is sorted and within the bounds; in the graph that the
/// revisit leaves all of it is on offer, and with a message so are those of the set that
/// have to arrive before it; and all events that the revisit deletes stand at the
/// alternative under which events are deleted. No newer receive that takes the message and
/// does not come before the send has been decided.
pub open spec fn is_to_revisit_by<P: RecvPredicate>(
    v: MustView<P>,
    i: int,
    send: Event,
    set: Seq<Event>,
) -> bool {
    let log = log_of(v);
    let l = log[i];
    let rest = restricted(v.current.graph, l.stamp, set).log;
    &&& l.kind is Inbox
    &&& searched(v, i, send)
    &&& forall|m: int|
        i < m < log.len() && searched(v, m, send) ==> reads_as_recorded(
            v,
            m,
            (#[trigger] log[m]).stamp,
            seq![send],
        )
    &&& reads_as_recorded(v, i, l.stamp, seq![send])
    &&& ascending(set)
    &&& set.contains(send)
    &&& forall|k: int|
        0 <= k < set.len() ==> stamp_of(log, #[trigger] set[k]) <= stamp_of(log, send)
    &&& l.kind->Inbox_min <= set.len()
    &&& l.kind->Inbox_max matches Some(m) ==> set.len() <= m
    &&& !comes_before(log, set, l.pos)
    &&& forall|k: int|
        0 <= k < set.len() ==> offered_in(
            rest,
            v.locs,
            l.kind->Inbox_loc,
            l.pos,
            #[trigger] set[k],
        )
    &&& forall|a: int, b: int|
        #![trigger rest[a], rest[b]]
        0 <= a < rest.len() && 0 <= b < rest.len() && arrives_first(rest[a], rest[b])
            && set.contains(rest[b].pos) && on_offer(
            rest,
            v.locs,
            l.kind->Inbox_loc,
            l.pos,
            false,
            rest[a],
        ) ==> set.contains(rest[a].pos)
    &&& reads_as_recorded(v, i, l.stamp, set)
    &&& deletes_undecided_events(v, l.stamp, set)
}

/// Whether the search for revisits by `send` looks at the event at place `m`: a receive that
/// takes the message and does not come before the send, or an inbox that has room as well.
pub open spec fn searched<P: RecvPredicate>(v: MustView<P>, m: int, send: Event) -> bool {
    let l = log_of(v)[m];
    &&& takes_message(v, l, label_at(log_of(v), send))
    &&& !comes_before(log_of(v), seq![send], l.pos)
    &&& l.kind matches KindView::Inbox { max: Some(most), rfs, .. } ==> (match rfs {
        Some(es) => es.len() < most,
        None => 0 < most,
    })
}

/// Whether the message of `e` is on offer in a log.
pub open spec fn offered_in<P: RecvPredicate>(
    log: Seq<LabelView>,
    locs: Seq<RecvLoc<P>>,
    loc: usize,
    reader: Event,
    e: Event,
) -> bool {
    exists|m: int|
        0 <= m < log.len() && (#[trigger] log[m]).pos == e && on_offer(
            log,
            locs,
            loc,
            reader,
            false,
            log[m],
        )
}

proof fn lemma_order_is_strict(a: Event, b: Event)
    ensures
        event_le(a, b) && event_le(b, a) ==> a == b,
{
}

/// A sorted part of a sorted list is one of its subsets.
proof fn lemma_part_is_subset(cands: Seq<Event>, set: Seq<Event>)
    requires
        ascending(cands),
        ascending(set),
        forall|k: int| 0 <= k < set.len() ==> cands.contains(#[trigger] set[k]),
    ensures
        subsets_from(cands, 0, Seq::empty()).contains(set),
{
    let picks = Seq::new(set.len(), |k: int| cands.index_of(set[k]));
    assert forall|k: int| 0 <= k < set.len() implies 0 <= #[trigger] picks[k] < cands.len()
        && cands[picks[k]] == set[k] by {
        assert(cands.contains(set[k]));
    }
    assert forall|a: int, b: int| 0 <= a < b < picks.len() implies #[trigger] picks[a]
        < #[trigger] picks[b] by {
        assert(event_le(set[a], set[b]) && set[a] != set[b]);
        if picks[a] > picks[b] {
            assert(event_le(cands[picks[b]], cands[picks[a]]));
            lemma_order_is_strict(set[a], set[b]);
        }
    }
    lemma_picks_reach(cands, 0, Seq::empty(), picks);
    assert(Seq::<Event>::empty() + picked(cands, picks) =~= set);
}

proof fn lemma_containing(sets: Seq<Seq<Event>>, must: Event, n: nat)
    requires
        n <= sets.len(),
    ensures
        forall|k: int|
            0 <= k < n && (#[trigger] sets[k]).contains(must) ==> containing(sets, must, n).contains(
                sets[k],
            ),
        forall|k: int|
            0 <= k < containing(sets, must, n).len() ==> sets.contains(
                #[trigger] containing(sets, must, n)[k],
            ) && containing(sets, must, n)[k].contains(must),
    decreases n,
{
    if n > 0 {
        let m = (n - 1) as nat;
        lemma_containing(sets, must, m);
        let before = containing(sets, must, m);
        let after = containing(sets, must, n);
        assert forall|k: int| 0 <= k < n && (#[trigger] sets[k]).contains(must) implies after.contains(
            sets[k],
        ) by {
            if k < m {
                let p = choose|p: int| 0 <= p < before.len() && before[p] == sets[k];
                assert(after[p] == sets[k]);
            } else {
                assert(after[before.len() as int] == sets[k]);
            }
        }
        assert forall|k: int| 0 <= k < after.len() implies sets.contains(#[trigger] after[k])
            && after[k].contains(must) by {
            if k < before.len() {
                assert(after[k] == before[k]);
            } else {
                assert(after[k] == sets[n - 1]);
            }
        }
    }
}

/// A sorted list without repetition is left as it is.
proof fn lemma_sorted_is_normal(set: Seq<Event>, n: nat)
    requires
        ascending(set),
        n <= set.len(),
    ensures
        normalized(set, n) == set.take(n as int),
    decreases n,
{
    if n > 0 {
        lemma_sorted_is_normal(set, (n - 1) as nat);
        let before = set.take(n - 1);
        let e = set[n - 1];
        if before.len() > 0 {
            assert(before.last() == set[n - 2]);
            assert(event_le(set[n - 2], set[n - 1]) && set[n - 2] != set[n - 1]);
        }
        assert(before.push(e) =~= set.take(n as int));
        assert(seq![e] =~= before.push(e) || before.len() > 0);
    } else {
        assert(set.take(0) =~= Seq::<Event>::empty());
    }
}

/// The candidates of an inbox are sorted, and those that it takes and that are not lost.
proof fn lemma_candidates<P: RecvPredicate>(v: MustView<P>, loc: usize, reader: Event, n: nat)
    requires
        n <= log_of(v).len(),
    ensures
        ascending(inbox_sends(v, loc, reader, n)),
        forall|k: int|
            0 <= k < n && addressed(v.locs, loc, reader.thread, false, #[trigger] log_of(v)[k])
                && !is_dropped(log_of(v)[k]) ==> inbox_sends(v, loc, reader, n).contains(
                log_of(v)[k].pos,
            ),
    decreases n,
{
    if n > 0 {
        let m = (n - 1) as nat;
        lemma_candidates(v, loc, reader, m);
        let before = inbox_sends(v, loc, reader, m);
        lemma_with_event(before, log_of(v)[n - 1].pos);
    }
}

proof fn lemma_newest_owns(log: Seq<LabelView>, events: Seq<Event>, n: nat)
    requires
        n <= events.len(),
    ensures
        n == 0 <==> owner_upto(log, events, n) is None,
        owner_upto(log, events, n) matches Some(o) ==> events.contains(o) && forall|k: int|
            0 <= k < n ==> stamp_of(log, #[trigger] events[k]) <= stamp_of(log, o),
    decreases n,
{
    if n > 0 {
        lemma_newest_owns(log, events, (n - 1) as nat);
        assert(events.contains(events[n - 1]));
    }
}

/// The conditions under which the search adds the revisit of an inbox by a set.
spec fn found_by_search<P: RecvPredicate>(
    v: MustView<P>,
    i: int,
    send: Event,
    set: Seq<Event>,
) -> bool {
    let log = log_of(v);
    let l = log[i];
    &&& l.kind is Inbox
    &&& accepts_send(v, l, label_at(log, send))
    &&& !comes_before(log, seq![send], l.pos)
    &&& has_room(l.kind->Inbox_max, read_count(l.kind->Inbox_rfs) + 1)
    &&& maximal_read(v, i, l.pos, seq![send])
    &&& ascending(set)
    &&& inbox_revisit(v, i, send, set)
}

proof fn lemma_inbox_readable<P: RecvPredicate>(v: MustView<P>, i: int, set: Seq<Event>)
    requires
        must_ok(v),
        0 <= i < log_of(v).len(),
        log_of(v)[i].kind is Inbox,
    ensures
        ({
            let log = log_of(v);
            let l = log[i];
            let loc = l.kind->Inbox_loc;
            let rest = restricted(v.current.graph, l.stamp, set).log;
            &&& inbox_readable(v.current.graph, v.locs, loc, l, set) == (!comes_before(
                log,
                set,
                l.pos,
            ) && (forall|k: int|
                0 <= k < set.len() ==> offered_in(rest, v.locs, loc, l.pos, #[trigger] set[k]))
                && (forall|a: int, b: int|
                #![trigger rest[a], rest[b]]
                0 <= a < rest.len() && 0 <= b < rest.len() && arrives_first(rest[a], rest[b])
                    && set.contains(rest[b].pos) && on_offer(
                    rest,
                    v.locs,
                    loc,
                    l.pos,
                    false,
                    rest[a],
                ) ==> set.contains(rest[a].pos)))
            &&& inbox_readable(v.current.graph, v.locs, loc, l, set) ==> forall|k: int|
                0 <= k < set.len() ==> in_log(log, #[trigger] set[k]) && inbox_sends(
                    v,
                    loc,
                    l.pos,
                    log.len(),
                ).contains(set[k])
        }),
{
    let log = log_of(v);
    let g = v.current.graph;
    let l = log[i];
    let loc = l.kind->Inbox_loc;
    let rest = restricted(g, l.stamp, set).log;
    let offers = offers_of(rest, v.locs, loc, l.pos, false);
    lemma_restricted(g, l.stamp, set);
    lemma_offers(rest, v.locs, loc, l.pos, false, rest.len());
    lemma_survivors(log, l.stamp, set, log.len());
    lemma_candidates(v, loc, l.pos, log.len());
    assert forall|k: int| 0 <= k < set.len() implies offers.contains(#[trigger] set[k])
        == offered_in(rest, v.locs, loc, l.pos, set[k]) by {
        if offers.contains(set[k]) {
            let m = choose|m: int| 0 <= m < offers.len() && offers[m] == set[k];
            assert(in_log(rest, offers[m]));
            let at = index_of(rest, set[k]);
            assert(rest[at].pos == set[k]);
        }
        if offered_in(rest, v.locs, loc, l.pos, set[k]) {
            let m = choose|m: int|
                0 <= m < rest.len() && (#[trigger] rest[m]).pos == set[k] && on_offer(
                    rest,
                    v.locs,
                    loc,
                    l.pos,
                    false,
                    rest[m],
                );
            assert(offers.contains(rest[m].pos));
        }
    }
    if inbox_readable(g, v.locs, loc, l, set) {
        assert forall|k: int| 0 <= k < set.len() implies in_log(log, #[trigger] set[k])
            && inbox_sends(v, loc, l.pos, log.len()).contains(set[k]) by {
            assert(offers.contains(set[k]));
            assert(offered_in(rest, v.locs, loc, l.pos, set[k]));
            let m = choose|m: int|
                0 <= m < rest.len() && (#[trigger] rest[m]).pos == set[k] && on_offer(
                    rest,
                    v.locs,
                    loc,
                    l.pos,
                    false,
                    rest[m],
                );
            assert(stays_from(log, l.stamp, set, log.len(), rest[m]));
            let p = choose|p: int| 0 <= p < log.len() && rest[m] == #[trigger] log[p];
            assert(log[p].pos == set[k]);
        }
    }
}

proof fn lemma_found_by_search<P: RecvPredicate>(
    v: MustView<P>,
    i: int,
    send: Event,
    set: Seq<Event>,
)
    requires
        must_ok(v),
        0 <= i < log_of(v).len(),
        in_log(log_of(v), send),
    ensures
        is_to_revisit_by(v, i, send, set) <==> found_by_search(v, i, send, set) && forall|m: int|
            i < m < log_of(v).len() && searched(v, m, send) ==> maximal_read(
                v,
                m,
                (#[trigger] log_of(v)[m]).pos,
                seq![send],
            ),
{
    let log = log_of(v);
    let l = log[i];
    lemma_index_of(log, i);
    lemma_takes_message(v, l, label_at(log, send));
    assert forall|m: int| 0 <= m < log.len() && searched(v, m, send) implies reads_as_recorded(
        v,
        m,
        (#[trigger] log[m]).stamp,
        seq![send],
    ) == maximal_read(v, m, log[m].pos, seq![send]) by {
        lemma_index_of(log, m);
        lemma_reads_as_recorded(v, m, log[m].pos, seq![send]);
    }
    if l.kind is Inbox {
        lemma_reads_as_recorded(v, i, l.pos, seq![send]);
        lemma_reads_as_recorded(v, i, l.pos, set);
        lemma_deletes_undecided(v, l.pos, set);
        lemma_inbox_readable(v, i, set);
        lemma_newest_owns(log, set, set.len());
        if is_to_revisit_by(v, i, send, set) {
            let k = choose|k: int| 0 <= k < set.len() && set[k] == send;
            let o = owner_of(log, set)->0;
            let p = choose|p: int| 0 <= p < set.len() && set[p] == o;
            assert(stamp_of(log, set[k]) <= stamp_of(log, o));
            assert(in_log(log, set[p]));
            let a = index_of(log, o);
            let b = index_of(log, send);
            assert(log[a].pos == o && log[b].pos == send);
            lemma_index_of(log, a);
            lemma_index_of(log, b);
            if a < b {
                assert(log[a].stamp < log[b].stamp);
            } else if b < a {
                assert(log[b].stamp < log[a].stamp);
            }
            assert(o == send);
        }
    }
}

proof fn lemma_inbox_revisit_made<P: RecvPredicate>(
    v: MustView<P>,
    i: int,
    send: Event,
    sets: Seq<Seq<Event>>,
    k: int,
    n: nat,
)
    requires
        0 <= k < n <= sets.len(),
        inbox_revisit(v, i, send, normalized(sets[k], sets[k].len())),
    ensures
        inbox_revisits(v, i, send, sets, n).contains(
            RevisitView {
                backward: true,
                pos: log_of(v)[i].pos,
                rev: PlacementView::Inbox(normalized(sets[k], sets[k].len())),
            },
        ),
    decreases n,
{
    let before = inbox_revisits(v, i, send, sets, (n - 1) as nat);
    let after = inbox_revisits(v, i, send, sets, n);
    let r = RevisitView {
        backward: true,
        pos: log_of(v)[i].pos,
        rev: PlacementView::Inbox(normalized(sets[k], sets[k].len())),
    };
    if k < n - 1 {
        lemma_inbox_revisit_made(v, i, send, sets, k, (n - 1) as nat);
        let p = choose|p: int| 0 <= p < before.len() && before[p] == r;
        assert(after[p] == r);
    } else {
        assert(after[before.len() as int] == r);
    }
}

proof fn lemma_inbox_revisit_found<P: RecvPredicate>(
    v: MustView<P>,
    i: int,
    send: Event,
    sets: Seq<Seq<Event>>,
    k: int,
    n: nat,
)
    requires
        n <= sets.len(),
        0 <= k < inbox_revisits(v, i, send, sets, n).len(),
    ensures
        inbox_revisits(v, i, send, sets, n)[k].rev matches PlacementView::Inbox(set) && ascending(
            set,
        ) && inbox_revisit(v, i, send, set),
        inbox_revisits(v, i, send, sets, n)[k].pos == log_of(v)[i].pos,
    decreases n,
{
    let before = inbox_revisits(v, i, send, sets, (n - 1) as nat);
    let after = inbox_revisits(v, i, send, sets, n);
    if k < before.len() {
        assert(after[k] == before[k]);
        lemma_inbox_revisit_found(v, i, send, sets, k, (n - 1) as nat);
    } else {
        lemma_normalized(sets[n - 1], sets[n - 1].len());
    }
}

/// The backward revisit of the inbox at `pos` to a set.
pub open spec fn backward_to_set(pos: Event, set: Seq<Event>) -> RevisitView {
    RevisitView { backward: true, pos, rev: PlacementView::Inbox(set) }
}

proof fn lemma_set_revisit_is_made<P: RecvPredicate>(
    v: MustView<P>,
    send: Event,
    i: int,
    set: Seq<Event>,
    n: nat,
)
    requires
        must_ok(v),
        in_log(log_of(v), send),
        0 <= i < n <= log_of(v).len(),
        found_by_search(v, i, send, set),
        forall|m: int|
            i < m < log_of(v).len() && searched(v, m, send) ==> maximal_read(
                v,
                m,
                (#[trigger] log_of(v)[m]).pos,
                seq![send],
            ),
    ensures
        revisits_from(v, send, n).contains(backward_to_set(log_of(v)[i].pos, set)),
    decreases n,
{
    let log = log_of(v);
    let r = backward_to_set(log[i].pos, set);
    let rest = revisits_from(v, send, (n - 1) as nat);
    let all = revisits_from(v, send, n);
    let l = log[n - 1];
    if i == n - 1 {
        let loc = l.kind->Inbox_loc;
        let cands = with_event(inbox_sends(v, loc, l.pos, log.len()), send);
        let sets = inbox_sets(v, loc, l.pos, send);
        let made = inbox_revisits(v, i, send, sets, sets.len());
        lemma_candidates(v, loc, l.pos, log.len());
        lemma_with_event(inbox_sends(v, loc, l.pos, log.len()), send);
        lemma_inbox_readable(v, i, set);
        lemma_part_is_subset(cands, set);
        let subsets = subsets_from(cands, 0, Seq::empty());
        let k = choose|k: int| 0 <= k < subsets.len() && subsets[k] == set;
        lemma_newest_owns(log, set, set.len());
        lemma_containing(subsets, send, subsets.len());
        assert(subsets[k].contains(send));
        assert(sets.contains(set));
        let p = choose|p: int| 0 <= p < sets.len() && sets[p] == set;
        lemma_sorted_is_normal(set, set.len());
        assert(set.take(set.len() as int) =~= set);
        lemma_inbox_revisit_made(v, i, send, sets, p, sets.len());
        let q = choose|q: int| 0 <= q < made.len() && made[q] == r;
        assert(all[q] == r);
    } else {
        lemma_set_revisit_is_made(v, send, i, set, (n - 1) as nat);
        let k = choose|k: int| 0 <= k < rest.len() && rest[k] == r;
        lemma_takes_message(v, l, label_at(log, send));
        if accepts_send(v, l, label_at(log, send)) && !comes_before(log, seq![send], l.pos) {
            match l.kind {
                KindView::Recv { .. } => {
                    assert(searched(v, n - 1, send));
                    if all.len() == rest.len() {
                        assert(all[k] == r);
                    } else {
                        assert(all[k + 1] == r);
                    }
                },
                KindView::Inbox { loc, max, rfs, .. } => {
                    if has_room(max, read_count(rfs) + 1) {
                        assert(searched(v, n - 1, send));
                        let sets = inbox_sets(v, loc, l.pos, send);
                        let made = inbox_revisits(v, n - 1, send, sets, sets.len());
                        assert(all[made.len() + k] == r);
                    } else {
                        assert(all[k] == r);
                    }
                },
                _ => {
                    assert(all[k] == r);
                },
            }
        } else {
            assert(all[k] == r);
        }
    }
}

proof fn lemma_made_set_revisit<P: RecvPredicate>(
    v: MustView<P>,
    send: Event,
    i: int,
    set: Seq<Event>,
    n: nat,
)
    requires
        must_ok(v),
        in_log(log_of(v), send),
        0 <= i < log_of(v).len(),
        n <= log_of(v).len(),
        revisits_from(v, send, n).contains(backward_to_set(log_of(v)[i].pos, set)),
    ensures
        i < n,
        found_by_search(v, i, send, set),
        forall|m: int|
            i < m < n && searched(v, m, send) ==> maximal_read(
                v,
                m,
                (#[trigger] log_of(v)[m]).pos,
                seq![send],
            ),
    decreases n,
{
    let log = log_of(v);
    let r = backward_to_set(log[i].pos, set);
    let all = revisits_from(v, send, n);
    let k = choose|k: int| 0 <= k < all.len() && all[k] == r;
    assert(n > 0);
    let rest = revisits_from(v, send, (n - 1) as nat);
    let l = log[n - 1];
    lemma_index_of(log, i);
    lemma_index_of(log, n - 1);
    lemma_takes_message(v, l, label_at(log, send));
    if !accepts_send(v, l, label_at(log, send)) || comes_before(log, seq![send], l.pos) {
        assert(rest[k] == r);
        lemma_made_set_revisit(v, send, i, set, (n - 1) as nat);
    } else {
        match l.kind {
            KindView::Recv { .. } => {
                if all.len() == rest.len() {
                    assert(rest[k] == r);
                } else {
                    assert(all[0].rev is Default);
                    assert(rest[k - 1] == r);
                }
                lemma_made_set_revisit(v, send, i, set, (n - 1) as nat);
            },
            KindView::Inbox { loc, max, rfs, .. } => {
                let sets = inbox_sets(v, loc, l.pos, send);
                let made = inbox_revisits(v, n - 1, send, sets, sets.len());
                if !has_room(max, read_count(rfs) + 1) {
                    assert(rest[k] == r);
                    lemma_made_set_revisit(v, send, i, set, (n - 1) as nat);
                } else if k < made.len() {
                    assert(made[k] == r);
                    lemma_inbox_revisit_found(v, n - 1, send, sets, k, sets.len());
                    assert(i == n - 1);
                } else {
                    assert(rest[k - made.len()] == r);
                    lemma_made_set_revisit(v, send, i, set, (n - 1) as nat);
                }
            },
            _ => {
                assert(rest[k] == r);
                lemma_made_set_revisit(v, send, i, set, (n - 1) as nat);
            },
        }
    }
}

/// A new send revisits an inbox by a set of messages exactly if the set is one that the
/// inbox may take in the graph that the revisit leaves, the send is the newest of it, and
/// what the revisit deletes has not been decided.
pub proof fn law_sends_revisit_inboxes_by_every_set<P: RecvPredicate>(
    v: MustView<P>,
    send: Event,
    i: int,
    set: Seq<Event>,
)
    requires
        must_ok(v),
        in_log(log_of(v), send),
        0 <= i < log_of(v).len(),
        log_of(v)[i].kind is Inbox,
    ensures
        revisits_from(v, send, log_of(v).len()).contains(backward_to_set(log_of(v)[i].pos, set))
            <==> is_to_revisit_by(v, i, send, set),
{
    lemma_found_by_search(v, i, send, set);
    if is_to_revisit_by(v, i, send, set) {
        lemma_set_revisit_is_made(v, send, i, set, log_of(v).len());
    }
    if revisits_from(v, send, log_of(v).len()).contains(backward_to_set(log_of(v)[i].pos, set)) {
        lemma_made_set_revisit(v, send, i, set, log_of(v).len());
    }
}

/// The revisits that are added wait in the worklist, and so do those that waited before;
/// nothing else comes in.
pub proof fn lemma_with_revisits(
    queue: Seq<(usize, RevisitView)>,
    stamp: usize,
    revs: Seq<RevisitView>,
    n: nat,
)
    requires
        list_sorted(queue),
        n <= revs.len(),
    ensures
        list_sorted(with_revisits(queue, stamp, revs, n)),
        forall|x: (usize, RevisitView)| #[trigger]
            with_revisits(queue, stamp, revs, n).contains(x) <==> queue.contains(x) || (x.0 == stamp
                && revs.take(n as int).contains(x.1)),
    decreases n,
{
    let after = with_revisits(queue, stamp, revs, n);
    if n == 0 {
        assert(revs.take(0) =~= Seq::<RevisitView>::empty());
    } else {
        let m = (n - 1) as nat;
        lemma_with_revisits(queue, stamp, revs, m);
        let before = with_revisits(queue, stamp, revs, m);
        let r = revs[n - 1];
        lemma_pushed(before, stamp, r);
        let shorter = revs.take(m as int);
        let longer = revs.take(n as int);
        assert(longer =~= shorter.push(r));
        assert forall|x: (usize, RevisitView)| #[trigger] after.contains(x) <==> queue.contains(x)
            || (x.0 == stamp && longer.contains(x.1)) by {
            if after.contains(x) {
                let k = choose|k: int| 0 <= k < after.len() && after[k] == x;
                if after[k] == (stamp, r) {
                    assert(longer[m as int] == r);
                } else {
                    assert(before.contains(x));
                    if shorter.contains(x.1) {
                        let p = choose|p: int| 0 <= p < shorter.len() && shorter[p] == x.1;
                        assert(longer[p] == x.1);
                    }
                }
            }
            if queue.contains(x) {
                assert(before.contains(x));
                let k = choose|k: int| 0 <= k < before.len() && before[k] == x;
                assert(after.contains(before[k]));
            }
            if x.0 == stamp && longer.contains(x.1) {
                let p = choose|p: int| 0 <= p < longer.len() && longer[p] == x.1;
                if p < m {
                    assert(shorter[p] == x.1);
                    assert(before.contains(x));
                    let k = choose|k: int| 0 <= k < before.len() && before[k] == x;
                    assert(after.contains(before[k]));
                }
            }
        }
    }
}

/// Whether the thread of `send` is the double of another, does what that did, and no inbox
/// takes the message.
pub open spec fn is_repeated_send<P: RecvPredicate>(v: MustView<P>, send: Event) -> bool {
    v.config.symmetry && (sym_of(log_of(v), send.thread) matches Some(sym) && prefix_symmetric(
        log_of(v),
        sym,
        send,
    )) && !(exists|i: int|
        0 <= i < log_of(v).len() && (#[trigger] log_of(v)[i]).kind is Inbox && takes_message(
            v,
            log_of(v)[i],
            label_at(log_of(v), send),
        ))
}

/// After a new send the worklist holds, for each receive that is to be revisited, its
/// revisit under the stamp of the send, and all that it held before. It holds no other
/// revisit of a receive to the send. A send that repeats one of the double of its thread
/// makes no revisits.
pub proof fn law_revisits_by_a_send_wait_in_the_worklist<P: RecvPredicate>(
    v: MustView<P>,
    send: Event,
    i: int,
)
    requires
        must_ok(v),
        0 <= i < log_of(v).len(),
        log_of(v)[i].kind is Recv,
    ensures
        ({
            let w = revisits_noted(v, send);
            let entry = (label_at(log_of(v), send).stamp, backward_to(log_of(v)[i].pos, send));
            &&& !is_repeated_send(v, send) ==> (w.current.rqueue.contains(entry)
                <==> v.current.rqueue.contains(entry) || is_to_revisit(v, i, send))
            &&& is_repeated_send(v, send) ==> w == v
            &&& forall|k: int|
                0 <= k < v.current.rqueue.len() ==> w.current.rqueue.contains(
                    #[trigger] v.current.rqueue[k],
                )
            &&& w.current.graph == v.current.graph
        }),
{
    let log = log_of(v);
    let revs = revisits_from(v, send, log.len());
    let stamp = label_at(log, send).stamp;
    lemma_with_revisits(v.current.rqueue, stamp, revs, revs.len());
    assert(revs.take(revs.len() as int) =~= revs);
    law_sends_revisit_every_receive_that_may_read_them(v, send, i);
    assert(is_symmetric_send(v, send) == is_repeated_send(v, send)) by {
        assert forall|k: int| 0 <= k < log.len() implies accepts_send(
            v,
            #[trigger] log[k],
            label_at(log, send),
        ) == takes_message(v, log[k], label_at(log, send)) by {
            lemma_takes_message(v, log[k], label_at(log, send));
        }
    }
    assert forall|k: int| 0 <= k < v.current.rqueue.len() implies revisits_noted(
        v,
        send,
    ).current.rqueue.contains(#[trigger] v.current.rqueue[k]) by {
        assert(v.current.rqueue.contains(v.current.rqueue[k]));
    }
}

/// A choice that starts at the first number of its range stands at the last one after as
/// many alternatives as the range has further numbers, and not before. A toss has two
/// alternatives, and a send that may be lost has two; events are deleted at one of them.
pub proof fn law_events_are_deleted_at_one_alternative(start: usize, end: usize, k: nat)
    requires
        start + k <= end,
    ensures
        alternatives_later(KindView::Choice { start, end, result: start }, k) == (KindView::Choice {
            start,
            end,
            result: (start + k) as usize,
        }),
        (start + k) as usize == end <==> k == end - start,
        forall|result: bool| #[trigger]
            alternatives_later(KindView::CToss { result }, 1) == (KindView::CToss {
                result: !result,
            }),
    decreases k,
{
    if k > 0 {
        law_events_are_deleted_at_one_alternative(start, end, (k - 1) as nat);
    }
    assert forall|result: bool| #[trigger] alternatives_later(KindView::CToss { result }, 1) == (
    KindView::CToss { result: !result }) by {
        assert(alternatives_later(KindView::CToss { result }, 0) == (KindView::CToss { result }));
    }
}

} // verus!
