//! What holds of every exploration.

use crate::cons::{
    arrives_first, canonical_set, in_order, inbox_choices, inbox_readable, lemma_offers, lemma_rfs,
    normalized, offers_of, offers_upto, on_offer, ordered_sets, owner_upto, readable,
    revisit_readable, rfs_of, rfs_upto, stamp_of,
};
use crate::event::Event;
use crate::event_label::{BlockType, KindView, LabelView};
use crate::exec_graph::{
    comes_before, cut, in_log, index_of, label_at, lemma_cut, lemma_frozen, lemma_index_of,
    lemma_restricted, lemma_with_kind, log_wf, restricted, survives, with_kind, with_rf, with_rfs,
    GraphView,
};
use crate::loc::{RecvLoc, RecvPredicate};
use crate::must::backward::{
    accepts_send, inbox_revisits, inbox_sets, is_revisitable, maximal_extension, revisits_from,
};
use crate::must::delivery::{is_reader, placement_fits};
use crate::must::ending::{blocked_by, ended};
use crate::must::step::{
    alternative_taken, backwarded, dequeued, forwarded, hands_off, init_event,
    lemma_backward_weight, next_alternative, popped, revisit_next, revisited_graph, weight,
    with_placement,
};
use crate::must::visit::{
    as_rfs, asymmetric_rfs, forward_to, inbox_visited, is_symmetric_rf, loc_at, offered, visited,
    with_forwards, with_inbox_forwards,
};
use crate::must::{added, log_of, must_ok, MustView};
use crate::revisit::{
    lemma_pushed, list_sorted, possible_subsets, sends_of, sized, subsets_from, upper_bound,
    PlacementView, RevisitView,
};
use vstd::prelude::*;

verus! {

/// Where the sends listed for a receive stand in the log.
proof fn lemma_listed<P: RecvPredicate>(
    log: Seq<LabelView>,
    locs: Seq<RecvLoc<P>>,
    loc: usize,
    reader: Event,
    monitor: bool,
    n: nat,
)
    requires
        log_wf(log),
        n <= log.len(),
    ensures
        forall|k: int|
            0 <= k < n && readable(log, locs, loc, reader, monitor, #[trigger] log[k])
                ==> rfs_upto(log, locs, loc, reader, monitor, n).contains(log[k].pos),
        rfs_upto(log, locs, loc, reader, monitor, n).no_duplicates(),
    decreases n,
{
    let after = rfs_upto(log, locs, loc, reader, monitor, n);
    if n > 0 {
        let before = rfs_upto(log, locs, loc, reader, monitor, (n - 1) as nat);
        lemma_listed(log, locs, loc, reader, monitor, (n - 1) as nat);
        lemma_rfs(log, locs, loc, reader, monitor, (n - 1) as nat);
        assert forall|k: int|
            0 <= k < n && readable(
                log,
                locs,
                loc,
                reader,
                monitor,
                #[trigger] log[k],
            ) implies after.contains(log[k].pos) by {
            if k < n - 1 {
                let i = choose|i: int| 0 <= i < before.len() && before[i] == log[k].pos;
                assert(after[i] == log[k].pos);
            } else {
                assert(after[before.len() as int] == log[k].pos);
            }
        }
        assert forall|i: int, j: int|
            0 <= i < after.len() && 0 <= j < after.len() && i != j implies after[i] != after[j] by {
            if i < before.len() {
                lemma_fresh_place(log, locs, loc, reader, monitor, n, i);
                assert(after[i] == before[i]);
            }
            if j < before.len() {
                lemma_fresh_place(log, locs, loc, reader, monitor, n, j);
                assert(after[j] == before[j]);
            }
        }
    }
}

/// The event listed last is new where the last label is listed.
proof fn lemma_fresh_place<P: RecvPredicate>(
    log: Seq<LabelView>,
    locs: Seq<RecvLoc<P>>,
    loc: usize,
    reader: Event,
    monitor: bool,
    n: nat,
    i: int,
)
    requires
        log_wf(log),
        0 < n <= log.len(),
        0 <= i < rfs_upto(log, locs, loc, reader, monitor, (n - 1) as nat).len(),
    ensures
        rfs_upto(log, locs, loc, reader, monitor, (n - 1) as nat)[i] != log[n - 1].pos,
{
    let before = rfs_upto(log, locs, loc, reader, monitor, (n - 1) as nat);
    lemma_rfs(log, locs, loc, reader, monitor, (n - 1) as nat);
    let k = choose|k: int|
        0 <= k < n - 1 && (#[trigger] log[k]).pos == before[i] && readable(
            log,
            locs,
            loc,
            reader,
            monitor,
            log[k],
        );
    lemma_index_of(log, k);
    lemma_index_of(log, n - 1);
}

/// A receive is offered exactly the sends that it may read, each once.
pub proof fn law_offers_are_the_readable_sends<P: RecvPredicate>(
    log: Seq<LabelView>,
    locs: Seq<RecvLoc<P>>,
    loc: usize,
    reader: Event,
    monitor: bool,
)
    requires
        log_wf(log),
    ensures
        forall|e: Event| #[trigger]
            rfs_of(log, locs, loc, reader, monitor).contains(e) <==> in_log(log, e) && readable(
                log,
                locs,
                loc,
                reader,
                monitor,
                label_at(log, e),
            ),
        rfs_of(log, locs, loc, reader, monitor).no_duplicates(),
{
    let rfs = rfs_of(log, locs, loc, reader, monitor);
    lemma_listed(log, locs, loc, reader, monitor, log.len());
    lemma_rfs(log, locs, loc, reader, monitor, log.len());
    assert forall|e: Event| #[trigger] rfs.contains(e) <==> in_log(log, e) && readable(
        log,
        locs,
        loc,
        reader,
        monitor,
        label_at(log, e),
    ) by {
        if rfs.contains(e) {
            let i = choose|i: int| 0 <= i < rfs.len() && rfs[i] == e;
            let k = choose|k: int|
                0 <= k < log.len() && (#[trigger] log[k]).pos == rfs[i] && readable(
                    log,
                    locs,
                    loc,
                    reader,
                    monitor,
                    log[k],
                );
            lemma_index_of(log, k);
        }
        if in_log(log, e) && readable(log, locs, loc, reader, monitor, label_at(log, e)) {
            let k = index_of(log, e);
            assert(log[k].pos == e);
        }
    }
}

/// Messages that one thread sends in order to one place are not overtaken: while
/// the earlier one is there to be taken, the later one is not offered.
pub proof fn law_messages_arrive_in_order<P: RecvPredicate>(
    log: Seq<LabelView>,
    locs: Seq<RecvLoc<P>>,
    loc: usize,
    reader: Event,
    monitor: bool,
    early: Event,
    late: Event,
)
    requires
        log_wf(log),
        in_log(log, early),
        in_log(log, late),
        arrives_first(label_at(log, early), label_at(log, late)),
        on_offer(log, locs, loc, reader, monitor, label_at(log, early)),
    ensures
        !rfs_of(log, locs, loc, reader, monitor).contains(late),
{
    law_offers_are_the_readable_sends(log, locs, loc, reader, monitor);
    let k = index_of(log, early);
    assert(log[k].pos == early);
    lemma_index_of(log, k);
}

/// One of the first `n` events has the least stamp among them.
proof fn lemma_least_stamp(log: Seq<LabelView>, rfs: Seq<Event>, n: nat) -> (m: int)
    requires
        0 < n <= rfs.len(),
    ensures
        0 <= m < n,
        forall|j: int| 0 <= j < n ==> stamp_of(log, rfs[m]) <= stamp_of(log, #[trigger] rfs[j]),
    decreases n,
{
    if n == 1 {
        0
    } else {
        let m = lemma_least_stamp(log, rfs, (n - 1) as nat);
        if stamp_of(log, rfs[n - 1]) < stamp_of(log, rfs[m]) {
            n - 1
        } else {
            m
        }
    }
}

/// What is not symmetric stays.
proof fn lemma_asymmetric_stays(log: Seq<LabelView>, rfs: Seq<Event>, n: nat, m: int)
    requires
        0 <= m < n <= rfs.len(),
        !is_symmetric_rf(log, rfs, rfs[m]),
    ensures
        asymmetric_rfs(log, rfs, n).contains(rfs[m]),
    decreases n,
{
    let after = asymmetric_rfs(log, rfs, n);
    let before = asymmetric_rfs(log, rfs, (n - 1) as nat);
    if m == n - 1 {
        assert(after[before.len() as int] == rfs[m]);
    } else {
        lemma_asymmetric_stays(log, rfs, (n - 1) as nat, m);
        let i = choose|i: int| 0 <= i < before.len() && before[i] == rfs[m];
        assert(after[i] == rfs[m]);
    }
}

/// Leaving out symmetric choices leaves a choice: where there is something to read,
/// the one that was sent first is never left out.
pub proof fn law_symmetry_leaves_an_offer(log: Seq<LabelView>, rfs: Seq<Event>)
    requires
        rfs.len() > 0,
    ensures
        exists|m: int|
            0 <= m < rfs.len() && asymmetric_rfs(log, rfs, rfs.len()).contains(#[trigger] rfs[m])
                && forall|j: int|
                0 <= j < rfs.len() ==> stamp_of(log, rfs[m]) <= stamp_of(log, #[trigger] rfs[j]),
{
    let m = lemma_least_stamp(log, rfs, rfs.len());
    lemma_asymmetric_stays(log, rfs, rfs.len(), m);
}

/// What the worklist holds stays when revisits are added, and those are in it.
proof fn lemma_with_forwards(
    queue: Seq<(usize, RevisitView)>,
    stamp: usize,
    pos: Event,
    rfs: Seq<Event>,
    from: nat,
    n: nat,
)
    requires
        list_sorted(queue),
        n <= rfs.len(),
    ensures
        list_sorted(with_forwards(queue, stamp, pos, rfs, from, n)),
        forall|i: int|
            0 <= i < queue.len() ==> with_forwards(queue, stamp, pos, rfs, from, n).contains(
                #[trigger] queue[i],
            ),
        forall|i: int|
            from <= i < n ==> with_forwards(queue, stamp, pos, rfs, from, n).contains(
                (stamp, forward_to(pos, #[trigger] rfs[i])),
            ),
    decreases n,
{
    if n > from {
        let before = with_forwards(queue, stamp, pos, rfs, from, (n - 1) as nat);
        let after = with_forwards(queue, stamp, pos, rfs, from, n);
        lemma_with_forwards(queue, stamp, pos, rfs, from, (n - 1) as nat);
        lemma_pushed(before, stamp, forward_to(pos, rfs[n - 1]));
        assert forall|i: int| 0 <= i < queue.len() implies after.contains(#[trigger] queue[i]) by {
            let k = choose|k: int| 0 <= k < before.len() && before[k] == queue[i];
            assert(after.contains(before[k]));
        }
        assert forall|i: int| from <= i < n implies after.contains(
            (stamp, forward_to(pos, #[trigger] rfs[i])),
        ) by {
            if i < n - 1 {
                let k = choose|k: int|
                    0 <= k < before.len() && before[k] == (stamp, forward_to(pos, rfs[i]));
                assert(after.contains(before[k]));
            }
        }
    } else {
        assert forall|i: int| 0 <= i < queue.len() implies with_forwards(
            queue,
            stamp,
            pos,
            rfs,
            from,
            n,
        ).contains(#[trigger] queue[i]) by {}
    }
}

/// Every send that a receive is offered is read: at once, or by a revisit that
/// waits in the worklist. A receive that need not wait reads nothing at first. What
/// waited before waits still.
pub proof fn law_every_offer_is_tried<P: RecvPredicate>(
    v: MustView<P>,
    pos: Event,
    blocking: bool,
    pick: nat,
)
    requires
        must_ok(v),
        in_log(log_of(v), pos),
        !(v.config.mode is Estimation),
        blocking ==> offered(v, pos, loc_at(log_of(v), pos)).len() > 0,
    ensures
        forall|rf: Event| #[trigger]
            offered(v, pos, loc_at(log_of(v), pos)).contains(rf) ==> label_at(
                log_of(visited(v, pos, blocking, pick)),
                pos,
            ).kind == with_rf(label_at(log_of(v), pos).kind, Some(rf)) || visited(
                v,
                pos,
                blocking,
                pick,
            ).current.rqueue.contains((label_at(log_of(v), pos).stamp, forward_to(pos, rf))),
        !blocking ==> label_at(log_of(visited(v, pos, blocking, pick)), pos).kind == with_rf(
            label_at(log_of(v), pos).kind,
            None,
        ),
        forall|i: int|
            0 <= i < v.current.rqueue.len() ==> visited(
                v,
                pos,
                blocking,
                pick,
            ).current.rqueue.contains(#[trigger] v.current.rqueue[i]),
{
    let g = v.current.graph;
    let here = label_at(g.log, pos);
    let rfs = offered(v, pos, loc_at(g.log, pos));
    let w = visited(v, pos, blocking, pick);
    let from: nat = if blocking {
        1
    } else {
        0
    };
    lemma_with_forwards(v.current.rqueue, here.stamp, pos, rfs, from, rfs.len());
    lemma_with_kind(g, pos, with_rf(here.kind, None));
    if blocking {
        lemma_with_kind(g, pos, with_rf(here.kind, Some(rfs[0])));
    }
    assert forall|rf: Event| #[trigger] rfs.contains(rf) implies label_at(log_of(w), pos).kind
        == with_rf(here.kind, Some(rf)) || w.current.rqueue.contains(
        (here.stamp, forward_to(pos, rf)),
    ) by {
        let i = choose|i: int| 0 <= i < rfs.len() && rfs[i] == rf;
        if i >= from {
            assert(w.current.rqueue.contains((here.stamp, forward_to(pos, rfs[i]))));
        }
    }
}

/// A receive blocks exactly where it has to wait and is offered nothing.
pub proof fn law_receives_block_without_offers<P: RecvPredicate>(
    v: MustView<P>,
    pos: Event,
    pick: nat,
)
    requires
        must_ok(v),
        in_log(log_of(v), pos),
        offered(v, pos, loc_at(log_of(v), pos)).len() == 0,
    ensures
        visited(v, pos, true, pick) == added(
            v,
            pos,
            KindView::Block { btype: BlockType::Value(loc_at(log_of(v), pos), 1) },
        ),
        visited(v, pos, false, pick).current.rqueue == v.current.rqueue,
{
}

/// Whether `picks` names places of a list of the given length, from `from` on, in
/// ascending order.
pub open spec fn ascending_picks(picks: Seq<int>, from: int, len: int) -> bool {
    &&& forall|i: int| 0 <= i < picks.len() ==> from <= #[trigger] picks[i] < len
    &&& forall|i: int, j: int| 0 <= i < j < picks.len() ==> #[trigger] picks[i] < #[trigger] picks[j]
}

/// What stands at the picked places.
pub open spec fn picked(events: Seq<Event>, picks: Seq<int>) -> Seq<Event> {
    Seq::new(picks.len(), |i: int| events[picks[i]])
}

/// Whether `s` is what stands at between `min` and `max` picked places.
pub open spec fn is_pick(events: Seq<Event>, min: nat, max: nat, s: Seq<Event>) -> bool {
    exists|picks: Seq<int>|
        ascending_picks(picks, 0, events.len() as int) && min <= picks.len() <= max
            && #[trigger] picked(events, picks) == s
}

/// Every way to pick leads to one of the sets.
pub proof fn lemma_picks_reach(events: Seq<Event>, idx: nat, current: Seq<Event>, picks: Seq<int>)
    requires
        idx <= events.len(),
        ascending_picks(picks, idx as int, events.len() as int),
    ensures
        subsets_from(events, idx, current).contains(current + picked(events, picks)),
    decreases events.len() - idx,
{
    let all = subsets_from(events, idx, current);
    if idx == events.len() {
        assert(picks.len() == 0) by {
            if picks.len() > 0 {
                assert(idx <= picks[0] < events.len());
            }
        }
        assert(current + picked(events, picks) =~= current);
        assert(all[0] == current);
    } else {
        let out = subsets_from(events, idx + 1, current);
        let with = subsets_from(events, idx + 1, current.push(events[idx as int]));
        if picks.len() > 0 && picks[0] == idx {
            let rest = picks.drop_first();
            assert forall|i: int| 0 <= i < rest.len() implies idx + 1 <= #[trigger] rest[i]
                < events.len() by {
                assert(rest[i] == picks[i + 1]);
                assert(picks[0] < picks[i + 1]);
            }
            assert forall|i: int, j: int| 0 <= i < j < rest.len() implies #[trigger] rest[i]
                < #[trigger] rest[j] by {
                assert(picks[i + 1] < picks[j + 1]);
            }
            lemma_picks_reach(events, idx + 1, current.push(events[idx as int]), rest);
            let target = current.push(events[idx as int]) + picked(events, rest);
            assert(target =~= current + picked(events, picks));
            let k = choose|k: int| 0 <= k < with.len() && with[k] == target;
            assert(all[out.len() + k] == target);
        } else {
            assert forall|i: int| 0 <= i < picks.len() implies idx + 1 <= #[trigger] picks[i]
                < events.len() by {
                if i > 0 {
                    assert(picks[0] < picks[i]);
                }
            }
            lemma_picks_reach(events, idx + 1, current, picks);
            let target = current + picked(events, picks);
            let k = choose|k: int| 0 <= k < out.len() && out[k] == target;
            assert(all[k] == target);
        }
    }
}

/// Every set comes from a way to pick.
proof fn lemma_reached_by_picks(events: Seq<Event>, idx: nat, current: Seq<Event>, k: int) -> (picks:
    Seq<int>)
    requires
        idx <= events.len(),
        0 <= k < subsets_from(events, idx, current).len(),
    ensures
        ascending_picks(picks, idx as int, events.len() as int),
        subsets_from(events, idx, current)[k] == current + picked(events, picks),
    decreases events.len() - idx,
{
    let all = subsets_from(events, idx, current);
    if idx == events.len() {
        let picks = Seq::<int>::empty();
        assert(current + picked(events, picks) =~= current);
        picks
    } else {
        let out = subsets_from(events, idx + 1, current);
        let longer = current.push(events[idx as int]);
        let with = subsets_from(events, idx + 1, longer);
        if k < out.len() {
            let picks = lemma_reached_by_picks(events, idx + 1, current, k);
            assert(all[k] == out[k]);
            assert forall|i: int| 0 <= i < picks.len() implies idx <= #[trigger] picks[i]
                < events.len() by {}
            picks
        } else {
            let rest = lemma_reached_by_picks(events, idx + 1, longer, k - out.len());
            let picks = seq![idx as int] + rest;
            assert(all[k] == with[k - out.len()]);
            assert forall|i: int| 0 <= i < picks.len() implies idx <= #[trigger] picks[i]
                < events.len() by {
                if i > 0 {
                    assert(picks[i] == rest[i - 1]);
                }
            }
            assert forall|i: int, j: int| 0 <= i < j < picks.len() implies #[trigger] picks[i]
                < #[trigger] picks[j] by {
                assert(picks[j] == rest[j - 1]);
                if i > 0 {
                    assert(picks[i] == rest[i - 1]);
                }
            }
            assert(longer + picked(events, rest) =~= current + picked(events, picks));
            picks
        }
    }
}

/// No set is listed twice where the events differ.
proof fn lemma_sets_differ(events: Seq<Event>, idx: nat, current: Seq<Event>)
    requires
        idx <= events.len(),
        events.no_duplicates(),
    ensures
        subsets_from(events, idx, current).no_duplicates(),
    decreases events.len() - idx,
{
    if idx < events.len() {
        let all = subsets_from(events, idx, current);
        let out = subsets_from(events, idx + 1, current);
        let longer = current.push(events[idx as int]);
        let with = subsets_from(events, idx + 1, longer);
        lemma_sets_differ(events, idx + 1, current);
        lemma_sets_differ(events, idx + 1, longer);
        assert forall|i: int, j: int| 0 <= i < out.len() && 0 <= j < with.len() implies out[i]
            != with[j] by {
            let p = lemma_reached_by_picks(events, idx + 1, current, i);
            let q = lemma_reached_by_picks(events, idx + 1, longer, j);
            let n = current.len() as int;
            if out[i] == with[j] {
                assert(with[j][n] == events[idx as int]);
                assert(p.len() > 0);
                assert(out[i][n] == events[p[0]]);
                assert(p[0] > idx);
            }
        }
        assert forall|i: int, j: int| 0 <= i < all.len() && 0 <= j < all.len() && i != j implies all[i]
            != all[j] by {
            if i < out.len() {
                assert(all[i] == out[i]);
                if j < out.len() {
                    assert(all[j] == out[j]);
                } else {
                    assert(all[j] == with[j - out.len()]);
                }
            } else {
                assert(all[i] == with[i - out.len()]);
                if j < out.len() {
                    assert(all[j] == out[j]);
                } else {
                    assert(all[j] == with[j - out.len()]);
                }
            }
        }
    }
}

/// Whether `s` is one of the first `n` sets, with a size within the bounds.
spec fn passes(sets: Seq<Seq<Event>>, min: nat, max: nat, n: nat, s: Seq<Event>) -> bool {
    exists|k: int| 0 <= k < n && #[trigger] sets[k] == s && min <= s.len() <= max
}

/// What passes the bounds on the size.
proof fn lemma_sized(sets: Seq<Seq<Event>>, min: nat, max: nat, n: nat)
    requires
        n <= sets.len(),
    ensures
        forall|k: int|
            0 <= k < n && min <= (#[trigger] sets[k]).len() <= max ==> sized(
                sets,
                min,
                max,
                n,
            ).contains(sets[k]),
        forall|i: int|
            0 <= i < sized(sets, min, max, n).len() ==> passes(
                sets,
                min,
                max,
                n,
                #[trigger] sized(sets, min, max, n)[i],
            ),
        sets.no_duplicates() ==> sized(sets, min, max, n).no_duplicates(),
    decreases n,
{
    if n > 0 {
        let before = sized(sets, min, max, (n - 1) as nat);
        let after = sized(sets, min, max, n);
        lemma_sized(sets, min, max, (n - 1) as nat);
        assert forall|k: int|
            0 <= k < n && min <= (#[trigger] sets[k]).len() <= max implies after.contains(
            sets[k],
        ) by {
            if k < n - 1 {
                let i = choose|i: int| 0 <= i < before.len() && before[i] == sets[k];
                assert(after[i] == sets[k]);
            } else {
                assert(after[before.len() as int] == sets[k]);
            }
        }
        assert forall|i: int| 0 <= i < after.len() implies passes(
            sets,
            min,
            max,
            n,
            #[trigger] after[i],
        ) by {
            if i < before.len() {
                assert(after[i] == before[i]);
                assert(passes(sets, min, max, (n - 1) as nat, before[i]));
            } else {
                assert(sets[n - 1] == after[i]);
            }
        }
        if sets.no_duplicates() {
            assert forall|i: int| 0 <= i < before.len() implies #[trigger] before[i] != sets[n - 1] by {
                assert(passes(sets, min, max, (n - 1) as nat, before[i]));
            }
            assert forall|i: int, j: int|
                0 <= i < after.len() && 0 <= j < after.len() && i != j implies after[i] != after[j] by {
                if i < before.len() {
                    assert(after[i] == before[i]);
                }
                if j < before.len() {
                    assert(after[j] == before[j]);
                }
            }
        }
    }
}

/// The sets that an inbox may take are exactly the ways to pick between `min` and
/// `max` of the messages on offer, each once.
pub proof fn law_inboxes_may_take_every_set(events: Seq<Event>, min: usize, max: Option<usize>)
    requires
        events.no_duplicates(),
    ensures
        forall|s: Seq<Event>| #[trigger]
            is_pick(events, min as nat, upper_bound(events.len(), max), s) ==> possible_subsets(
                events,
                min,
                max,
            ).contains(s),
        forall|k: int|
            0 <= k < possible_subsets(events, min, max).len() ==> is_pick(
                events,
                min as nat,
                upper_bound(events.len(), max),
                #[trigger] possible_subsets(events, min, max)[k],
            ),
        possible_subsets(events, min, max).no_duplicates(),
{
    let none = Seq::<Event>::empty();
    let all = subsets_from(events, 0, none);
    let high = upper_bound(events.len(), max);
    let sets = possible_subsets(events, min, max);
    lemma_sized(all, min as nat, high, all.len());
    lemma_sets_differ(events, 0, none);
    assert forall|s: Seq<Event>| #[trigger]
        is_pick(events, min as nat, high, s) implies sets.contains(s) by {
        let picks = choose|picks: Seq<int>|
            ascending_picks(picks, 0, events.len() as int) && min <= picks.len() <= high
                && #[trigger] picked(events, picks) == s;
        lemma_picks_reach(events, 0, none, picks);
        assert(none + picked(events, picks) =~= picked(events, picks));
        let k = choose|k: int| 0 <= k < all.len() && all[k] == picked(events, picks);
        assert(sets.contains(all[k]));
    }
    assert forall|k: int| 0 <= k < sets.len() implies is_pick(
        events,
        min as nat,
        high,
        #[trigger] sets[k],
    ) by {
        assert(passes(all, min as nat, high, all.len(), sets[k]));
        let m = choose|m: int|
            0 <= m < all.len() && #[trigger] all[m] == sets[k] && min <= sets[k].len() <= high;
        let picks = lemma_reached_by_picks(events, 0, none, m);
        assert(none + picked(events, picks) =~= picked(events, picks));
    }
}

/// What the worklist holds stays when revisits of an inbox are added, and those are
/// in it.
proof fn lemma_with_inbox_forwards(
    queue: Seq<(usize, RevisitView)>,
    stamp: usize,
    pos: Event,
    sets: Seq<Seq<Event>>,
    canonical: Seq<Event>,
    n: nat,
)
    requires
        list_sorted(queue),
        n <= sets.len(),
    ensures
        list_sorted(with_inbox_forwards(queue, stamp, pos, sets, canonical, n)),
        forall|i: int|
            0 <= i < queue.len() ==> with_inbox_forwards(
                queue,
                stamp,
                pos,
                sets,
                canonical,
                n,
            ).contains(#[trigger] queue[i]),
        forall|i: int|
            0 <= i < n && #[trigger] sets[i] != canonical ==> with_inbox_forwards(
                queue,
                stamp,
                pos,
                sets,
                canonical,
                n,
            ).contains((stamp, set_revisit(pos, sets[i]))),
    decreases n,
{
    let after = with_inbox_forwards(queue, stamp, pos, sets, canonical, n);
    if n > 0 {
        let before = with_inbox_forwards(queue, stamp, pos, sets, canonical, (n - 1) as nat);
        lemma_with_inbox_forwards(queue, stamp, pos, sets, canonical, (n - 1) as nat);
        lemma_pushed(before, stamp, set_revisit(pos, sets[n - 1]));
        assert forall|x: (usize, RevisitView)| before.contains(x) implies #[trigger] after.contains(
            x,
        ) by {
            let k = choose|k: int| 0 <= k < before.len() && before[k] == x;
            if sets[n - 1] != canonical {
                assert(after.contains(before[k]));
            }
        }
        assert forall|i: int|
            0 <= i < n && #[trigger] sets[i] != canonical implies after.contains(
            (stamp, set_revisit(pos, sets[i])),
        ) by {
            if i < n - 1 {
                assert(before.contains((stamp, set_revisit(pos, sets[i]))));
            }
        }
    }
}

/// The sets that can be taken at once, in their order.
proof fn lemma_ordered_sets<P: RecvPredicate>(
    log: Seq<LabelView>,
    locs: Seq<RecvLoc<P>>,
    loc: usize,
    reader: Event,
    sets: Seq<Seq<Event>>,
    n: nat,
)
    requires
        n <= sets.len(),
    ensures
        forall|s: Seq<Event>| #[trigger]
            ordered_sets(log, locs, loc, reader, sets, n).contains(s) <==> in_order(
                log,
                locs,
                loc,
                reader,
                s,
            ) && sets.take(n as int).contains(s),
    decreases n,
{
    let after = ordered_sets(log, locs, loc, reader, sets, n);
    if n > 0 {
        let before = ordered_sets(log, locs, loc, reader, sets, (n - 1) as nat);
        lemma_ordered_sets(log, locs, loc, reader, sets, (n - 1) as nat);
        let (shorter, longer) = (sets.take(n - 1), sets.take(n as int));
        assert forall|s: Seq<Event>| #[trigger] after.contains(s) <==> in_order(
            log,
            locs,
            loc,
            reader,
            s,
        ) && longer.contains(s) by {
            assert(before.contains(s) <==> in_order(log, locs, loc, reader, s)
                && shorter.contains(s));
            assert(longer[n - 1] == sets[n - 1]);
            if shorter.contains(s) {
                let k = choose|k: int| 0 <= k < shorter.len() && shorter[k] == s;
                assert(longer[k] == s);
            }
            if longer.contains(s) {
                let k = choose|k: int| 0 <= k < longer.len() && longer[k] == s;
                if k < n - 1 {
                    assert(shorter[k] == s);
                }
            }
            if before.contains(s) {
                let k = choose|k: int| 0 <= k < before.len() && before[k] == s;
                assert(after[k] == s);
            }
            if after.contains(s) && !before.contains(s) {
                let k = choose|k: int| 0 <= k < after.len() && after[k] == s;
                if k < before.len() {
                    assert(before[k] == s);
                }
            }
            if s == sets[n - 1] && in_order(log, locs, loc, reader, s) {
                assert(after[before.len() as int] == s);
            }
        }
    }
}

/// The sets that an inbox may take are exactly the ways to pick between `min` and `max` of
/// the messages on offer so that no message overtakes another one.
pub proof fn law_inboxes_choose_among_ordered_sets<P: RecvPredicate>(
    log: Seq<LabelView>,
    locs: Seq<RecvLoc<P>>,
    loc: usize,
    reader: Event,
    min: usize,
    max: Option<usize>,
)
    requires
        log_wf(log),
    ensures
        forall|s: Seq<Event>| #[trigger]
            inbox_choices(log, locs, loc, reader, min, max).contains(s) <==> {
                let offers = offers_of(log, locs, loc, reader, false);
                &&& is_pick(offers, min as nat, upper_bound(offers.len(), max), s)
                &&& in_order(log, locs, loc, reader, s)
            },
{
    let offers = offers_of(log, locs, loc, reader, false);
    let sets = possible_subsets(offers, min, max);
    lemma_offers(log, locs, loc, reader, false, log.len());
    law_inboxes_may_take_every_set(offers, min, max);
    lemma_ordered_sets(log, locs, loc, reader, sets, sets.len());
    assert(sets.take(sets.len() as int) =~= sets);
    assert forall|s: Seq<Event>| #[trigger]
        inbox_choices(log, locs, loc, reader, min, max).contains(s) <==> is_pick(
            offers,
            min as nat,
            upper_bound(offers.len(), max),
            s,
        ) && in_order(log, locs, loc, reader, s) by {
        if sets.contains(s) {
            let k = choose|k: int| 0 <= k < sets.len() && sets[k] == s;
            assert(is_pick(offers, min as nat, upper_bound(offers.len(), max), sets[k]));
        }
    }
}

/// Where something is on offer that was recorded later, it is listed later.
proof fn lemma_offers_ascend<P: RecvPredicate>(
    log: Seq<LabelView>,
    locs: Seq<RecvLoc<P>>,
    loc: usize,
    reader: Event,
    monitor: bool,
    n: nat,
)
    requires
        log_wf(log),
        n <= log.len(),
    ensures
        forall|i: int, j: int|
            0 <= i < j < offers_upto(log, locs, loc, reader, monitor, n).len() ==> index_of(
                log,
                #[trigger] offers_upto(log, locs, loc, reader, monitor, n)[i],
            ) < index_of(log, #[trigger] offers_upto(log, locs, loc, reader, monitor, n)[j]),
    decreases n,
{
    if n > 0 {
        let before = offers_upto(log, locs, loc, reader, monitor, (n - 1) as nat);
        let after = offers_upto(log, locs, loc, reader, monitor, n);
        lemma_offers_ascend(log, locs, loc, reader, monitor, (n - 1) as nat);
        lemma_offers(log, locs, loc, reader, monitor, (n - 1) as nat);
        lemma_index_of(log, n - 1);
        assert forall|i: int, j: int| 0 <= i < j < after.len() implies index_of(
            log,
            #[trigger] after[i],
        ) < index_of(log, #[trigger] after[j]) by {
            assert(after[i] == before[i]);
            if j < before.len() {
                assert(after[j] == before[j]);
            }
        }
    }
}

/// What an inbox reads when nothing is decided for it can be taken at once.
pub proof fn law_first_choices_are_in_order<P: RecvPredicate>(
    log: Seq<LabelView>,
    locs: Seq<RecvLoc<P>>,
    loc: usize,
    reader: Event,
    min: usize,
    max: Option<usize>,
)
    requires
        log_wf(log),
    ensures
        in_order(
            log,
            locs,
            loc,
            reader,
            canonical_set(offers_of(log, locs, loc, reader, false), min, max),
        ),
{
    let offers = offers_of(log, locs, loc, reader, false);
    let set = canonical_set(offers, min, max);
    lemma_offers(log, locs, loc, reader, false, log.len());
    lemma_offers_ascend(log, locs, loc, reader, false, log.len());
    assert forall|i: int, k: int|
        #![trigger log[i], log[k]]
        0 <= i < log.len() && 0 <= k < log.len() && set.contains(log[i].pos) && arrives_first(
            log[k],
            log[i],
        ) && on_offer(log, locs, loc, reader, false, log[k]) implies set.contains(log[k].pos) by {
        lemma_index_of(log, i);
        lemma_index_of(log, k);
        if i < k {
            assert(log[i].pos.index < log[k].pos.index);
        }
        let a = choose|a: int| 0 <= a < set.len() && set[a] == log[i].pos;
        assert(offers[a] == set[a]);
        let b = choose|b: int| 0 <= b < offers.len() && offers[b] == log[k].pos;
        if a < b {
            assert(index_of(log, offers[a]) < index_of(log, offers[b]));
        }
        assert(set[b] == log[k].pos);
    }
}

/// Where something is on offer, something can be read: a receive that waited and is told
/// of a message does not wait again.
pub proof fn law_something_on_offer_can_be_read<P: RecvPredicate>(
    log: Seq<LabelView>,
    locs: Seq<RecvLoc<P>>,
    loc: usize,
    reader: Event,
    monitor: bool,
)
    requires
        log_wf(log),
        offers_of(log, locs, loc, reader, monitor).len() > 0,
    ensures
        rfs_of(log, locs, loc, reader, monitor).contains(
            offers_of(log, locs, loc, reader, monitor)[0],
        ),
{
    let offers = offers_of(log, locs, loc, reader, monitor);
    let e = offers[0];
    let i = index_of(log, e);
    lemma_offers(log, locs, loc, reader, monitor, log.len());
    lemma_offers_ascend(log, locs, loc, reader, monitor, log.len());
    law_offers_are_the_readable_sends(log, locs, loc, reader, monitor);
    assert(log[i].pos == e);
    if crate::cons::overtaking(log, locs, loc, reader, monitor, log[i]) {
        let k = choose|k: int|
            0 <= k < log.len() && arrives_first(#[trigger] log[k], log[i]) && on_offer(
                log,
                locs,
                loc,
                reader,
                monitor,
                log[k],
            );
        lemma_index_of(log, k);
        if i < k {
            assert(log[i].pos.index < log[k].pos.index);
        }
        let b = choose|b: int| 0 <= b < offers.len() && offers[b] == log[k].pos;
        if 0 < b {
            assert(index_of(log, offers[0]) < index_of(log, offers[b]));
        }
    }
}

/// The revisit that makes the inbox at `pos` take `set`.
pub open spec fn set_revisit(pos: Event, set: Seq<Event>) -> RevisitView {
    RevisitView { backward: false, pos, rev: PlacementView::Inbox(set) }
}

/// Every set that an inbox may take is taken: at once, or by a revisit that waits in
/// the worklist. What waited before waits still.
pub proof fn law_every_set_is_tried<P: RecvPredicate>(v: MustView<P>, pos: Event)
    requires
        must_ok(v),
        in_log(log_of(v), pos),
        label_at(log_of(v), pos).kind matches KindView::Inbox { loc, min, max, .. } && min
            <= upper_bound(offers_of(log_of(v), v.locs, loc, pos, false).len(), max),
    ensures
        label_at(log_of(v), pos).kind matches KindView::Inbox { loc, min, max, .. } ==> {
            let w = inbox_visited(v, pos);
            let sets = inbox_choices(log_of(v), v.locs, loc, pos, min, max);
            &&& forall|k: int|
                0 <= k < sets.len() ==> label_at(log_of(w), pos).kind == with_rfs(
                    label_at(log_of(v), pos).kind,
                    as_rfs(#[trigger] sets[k]),
                ) || w.current.rqueue.contains(
                    (label_at(log_of(v), pos).stamp, set_revisit(pos, sets[k])),
                )
            &&& forall|i: int|
                0 <= i < v.current.rqueue.len() ==> w.current.rqueue.contains(
                    #[trigger] v.current.rqueue[i],
                )
        },
{
    let g = v.current.graph;
    let here = label_at(g.log, pos);
    match here.kind {
        KindView::Inbox { loc, min, max, .. } => {
            let rfs = offers_of(g.log, v.locs, loc, pos, false);
            let sets = inbox_choices(g.log, v.locs, loc, pos, min, max);
            let canonical = canonical_set(rfs, min, max);
            lemma_with_inbox_forwards(
                v.current.rqueue,
                here.stamp,
                pos,
                sets,
                canonical,
                sets.len(),
            );
            lemma_with_kind(g, pos, with_rfs(here.kind, as_rfs(canonical)));
        },
        _ => {},
    }
}

/// How a search for the next execution ends. There is none exactly where nothing
/// waits any more in any of the states; and where no graph can be handed to another
/// worker, whatever waits leads to an execution.
pub proof fn law_exploration_ends_with_nothing_left<P>(v: MustView<P>)
    ensures
        !revisit_next(v).1 ==> revisit_next(v).0.current.rqueue.len() == 0 && revisit_next(
            v,
        ).0.states.len() == 0,
        !hands_off(v) ==> (revisit_next(v).1 <==> something_waits(v)),
    decreases weight(v),
{
    if v.current.rqueue.len() == 0 {
        if v.states.len() > 0 {
            let w = popped(v);
            law_exploration_ends_with_nothing_left(w);
            assert(something_waits(v) == something_waits(w)) by {
                if something_waits(v) {
                    let i = choose|i: int|
                        0 <= i < v.states.len() && (#[trigger] v.states[i]).0.rqueue.len() > 0;
                    if i < w.states.len() {
                        assert(w.states[i] == v.states[i]);
                    }
                }
                if something_waits(w) {
                    if w.current.rqueue.len() > 0 {
                        assert(v.states[v.states.len() - 1].0.rqueue.len() > 0);
                    } else {
                        let i = choose|i: int|
                            0 <= i < w.states.len() && (#[trigger] w.states[i]).0.rqueue.len() > 0;
                        assert(v.states[i] == w.states[i]);
                    }
                }
            }
        }
    } else {
        let r = v.current.rqueue.last().1;
        let w = dequeued(v);
        if r.backward && hands_off(w) {
            lemma_backward_weight(v);
            law_exploration_ends_with_nothing_left(backwarded(w, r));
        }
    }
}

/// Whether a revisit waits in the current state or in one that was kept.
pub open spec fn something_waits<P>(v: MustView<P>) -> bool {
    v.current.rqueue.len() > 0 || exists|i: int|
        0 <= i < v.states.len() && (#[trigger] v.states[i]).0.rqueue.len() > 0
}

/// A forward revisit changes one event and forgets what came after it: the event
/// takes its next alternative, what was recorded before it stays as it was, and
/// nothing newer remains.
pub proof fn law_forward_revisits_change_one_event<P>(v: MustView<P>, r: RevisitView)
    requires
        must_ok(v),
        in_log(log_of(v), r.pos),
    ensures
        forall|e: Event|
            in_log(log_of(forwarded(v, r)), e) <==> in_log(log_of(v), e) && (#[trigger] label_at(
                log_of(v),
                e,
            )).stamp <= label_at(log_of(v), r.pos).stamp,
        forall|e: Event|
            in_log(log_of(v), e) && e != r.pos && (#[trigger] label_at(log_of(v), e)).stamp
                <= label_at(log_of(v), r.pos).stamp ==> label_at(log_of(forwarded(v, r)), e)
                == label_at(log_of(v), e),
        label_at(log_of(forwarded(v, r)), r.pos).kind == next_alternative(
            label_at(log_of(v), r.pos).kind,
            r.rev,
        ),
{
    let g = v.current.graph;
    let here = label_at(g.log, r.pos);
    let next = next_alternative(here.kind, r.rev);
    let h = alternative_taken(g, r);
    lemma_index_of(g.log, index_of(g.log, r.pos));
    lemma_with_kind(g, r.pos, next);
    assert(h.log == with_kind(g, r.pos, next).log);
    assert(crate::exec_graph::graph_wf(h));
    assert(here.stamp < g.stamp);
    lemma_cut(h, here.stamp);
    let w = forwarded(v, r);
    assert(w.current.graph == cut(h, here.stamp));
    assert forall|e: Event|
        in_log(w.current.graph.log, e) <==> in_log(g.log, e) && (#[trigger] label_at(
            g.log,
            e,
        )).stamp <= here.stamp by {
        if in_log(g.log, e) {
            assert(in_log(h.log, e));
            assert(label_at(h.log, e).stamp == label_at(g.log, e).stamp);
        }
    }
    assert forall|e: Event|
        in_log(g.log, e) && e != r.pos && (#[trigger] label_at(g.log, e)).stamp
            <= here.stamp implies label_at(w.current.graph.log, e) == label_at(g.log, e) by {
        assert(in_log(h.log, e));
        assert(label_at(h.log, e) == label_at(g.log, e));
        assert(in_log(w.current.graph.log, e));
    }
    assert(in_log(h.log, r.pos));
    assert(in_log(w.current.graph.log, r.pos));
}

/// A forward revisit of a receive makes it read the send that it was made for.
pub proof fn law_forward_revisits_read_their_send<P>(v: MustView<P>, pos: Event, rf: Event)
    requires
        must_ok(v),
        in_log(log_of(v), pos),
        label_at(log_of(v), pos).kind is Recv,
    ensures
        label_at(log_of(forwarded(v, forward_to(pos, rf))), pos).kind == with_rf(
            label_at(log_of(v), pos).kind,
            Some(rf),
        ),
{
    law_forward_revisits_change_one_event(v, forward_to(pos, rf));
}

/// A choice among numbers runs through all of them: it starts with the first, each
/// revisit takes the next one, and another revisit waits as long as one is left.
pub proof fn law_choices_run_through_their_range<P>(
    v: MustView<P>,
    pos: Event,
    start: usize,
    end: usize,
    result: usize,
)
    requires
        must_ok(v),
        in_log(log_of(v), pos),
        start <= result < end,
        label_at(log_of(v), pos).kind == (KindView::Choice { start, end, result }),
    ensures
        label_at(log_of(forwarded(v, forward_to(pos, init_event()))), pos).kind
            == (KindView::Choice { start, end, result: (result + 1) as usize }),
        result + 1 < end <==> forwarded(v, forward_to(pos, init_event())).current.rqueue
            != v.current.rqueue,
        result + 1 < end ==> forwarded(v, forward_to(pos, init_event())).current.rqueue.contains(
            (label_at(log_of(v), pos).stamp, forward_to(pos, init_event())),
        ),
{
    let r = forward_to(pos, init_event());
    law_forward_revisits_change_one_event(v, r);
    lemma_pushed(v.current.rqueue, label_at(log_of(v), pos).stamp, r);
}

/// A backward revisit keeps what it must: what was recorded up to the receive, all
/// that comes before the sends, and the beginnings of the threads that were created
/// there; and nothing else. The receive then reads the sends.
pub proof fn law_backward_revisits_keep_the_causes(g: GraphView, r: RevisitView)
    requires
        crate::exec_graph::graph_wf(g),
        in_log(g.log, r.pos),
    ensures
        forall|e: Event| #[trigger]
            in_log(revisited_graph(g, r).log, e) <==> in_log(g.log, e) && survives(
                g.log,
                stamp_of(g.log, r.pos),
                sends_of(r.rev),
                label_at(g.log, e),
            ),
        in_log(revisited_graph(g, r).log, r.pos),
        forall|i: int|
            0 <= i < sends_of(r.rev).len() && in_log(g.log, #[trigger] sends_of(r.rev)[i])
                ==> in_log(revisited_graph(g, r).log, sends_of(r.rev)[i]),
        r.rev matches PlacementView::Default(send) ==> (label_at(
            revisited_graph(g, r).log,
            r.pos,
        ).kind matches KindView::Recv { rf, .. } ==> rf == Some(send)),
        r.rev matches PlacementView::Inbox(sends) ==> (label_at(
            revisited_graph(g, r).log,
            r.pos,
        ).kind matches KindView::Inbox { rfs, .. } ==> rfs == as_rfs(
            normalized(sends, sends.len()),
        )),
{
    let seeds = sends_of(r.rev);
    let stamp = stamp_of(g.log, r.pos);
    let kept = restricted(g, stamp, seeds);
    lemma_restricted(g, stamp, seeds);
    lemma_index_of(g.log, index_of(g.log, r.pos));
    assert(in_log(kept.log, r.pos));
    let h = crate::exec_graph::frozen(kept, seeds);
    lemma_frozen(kept, seeds);
    assert(in_log(h.log, r.pos));
    let kind = with_placement(label_at(h.log, r.pos).kind, r.rev);
    lemma_with_kind(h, r.pos, kind);
    assert forall|i: int|
        0 <= i < seeds.len() && in_log(g.log, #[trigger] seeds[i]) implies in_log(
        revisited_graph(g, r).log,
        seeds[i],
    ) by {
        let e = seeds[i];
        lemma_index_of(g.log, index_of(g.log, e));
        assert(comes_before(g.log, seeds, e));
        assert(survives(g.log, stamp, seeds, label_at(g.log, e)));
    }
}

/// Whether `r` is a revisit that the new event `send` may make: its receive is not final
/// and comes before nothing that it reads, it reads `send`, and all that it reads it may read in the graph
/// to which the revisit leads.
pub open spec fn sound_revisit<P: RecvPredicate>(
    v: MustView<P>,
    send: Event,
    r: RevisitView,
) -> bool {
    let log = log_of(v);
    let l = label_at(log, r.pos);
    &&& r.backward
    &&& in_log(log, r.pos)
    &&& is_reader(l) && is_revisitable(l)
    &&& placement_fits(l, r.rev)
    &&& !comes_before(log, sends_of(r.rev), r.pos)
    &&& sends_of(r.rev).contains(send)
    &&& l.kind is Recv ==> forall|k: int|
        0 <= k < sends_of(r.rev).len() ==> revisit_readable(
            v.current.graph,
            v.locs,
            loc_at(log, r.pos),
            l,
            v.monitors.contains(r.pos.thread),
            sends_of(r.rev),
            #[trigger] sends_of(r.rev)[k],
        )
    &&& l.kind is Inbox ==> inbox_readable(
        v.current.graph,
        v.locs,
        loc_at(log, r.pos),
        l,
        sends_of(r.rev),
    )
    &&& maximal_extension(v, r.pos, sends_of(r.rev))
}

/// The owner of a list of events is one of them.
proof fn lemma_owner_in(log: Seq<LabelView>, events: Seq<Event>, n: nat)
    requires
        n <= events.len(),
    ensures
        owner_upto(log, events, n) matches Some(e) ==> events.contains(e),
    decreases n,
{
    if n > 0 {
        lemma_owner_in(log, events, (n - 1) as nat);
        assert(events.contains(events[n - 1]));
    }
}

proof fn lemma_inbox_revisits_sound<P: RecvPredicate>(
    v: MustView<P>,
    i: int,
    send: Event,
    sets: Seq<Seq<Event>>,
    n: nat,
)
    requires
        must_ok(v),
        0 <= i < log_of(v).len(),
        !comes_before(log_of(v), seq![send], log_of(v)[i].pos),
        n <= sets.len(),
    ensures
        forall|k: int|
            0 <= k < inbox_revisits(v, i, send, sets, n).len() ==> sound_revisit(
                v,
                send,
                #[trigger] inbox_revisits(v, i, send, sets, n)[k],
            ),
    decreases n,
{
    if n > 0 {
        let before = inbox_revisits(v, i, send, sets, (n - 1) as nat);
        let after = inbox_revisits(v, i, send, sets, n);
        lemma_inbox_revisits_sound(v, i, send, sets, (n - 1) as nat);
        lemma_index_of(log_of(v), i);
        let set = normalized(sets[n - 1], sets[n - 1].len());
        lemma_owner_in(log_of(v), set, set.len());
        assert forall|k: int| 0 <= k < after.len() implies sound_revisit(
            v,
            send,
            #[trigger] after[k],
        ) by {
            if k < before.len() {
                assert(after[k] == before[k]);
            } else {
                let r = after[k];
                assert(sends_of(r.rev) == set);
                assert(in_log(log_of(v), r.pos));
            }
        }
    }
}

/// The revisits that a new send makes are sound: each leads to a graph in which the
/// receive may read what it is made to read.
pub proof fn law_sends_make_sound_revisits<P: RecvPredicate>(v: MustView<P>, send: Event, n: nat)
    requires
        must_ok(v),
        n <= log_of(v).len(),
    ensures
        forall|k: int|
            0 <= k < revisits_from(v, send, n).len() ==> sound_revisit(
                v,
                send,
                #[trigger] revisits_from(v, send, n)[k],
            ),
    decreases n,
{
    if n > 0 {
        let log = log_of(v);
        let l = log[n - 1];
        let rest = revisits_from(v, send, (n - 1) as nat);
        let all = revisits_from(v, send, n);
        law_sends_make_sound_revisits(v, send, (n - 1) as nat);
        lemma_index_of(log, n - 1);
        if accepts_send(v, l, label_at(log, send)) && !comes_before(log, seq![send], l.pos) {
            match l.kind {
                KindView::Recv { .. } => {
                    assert forall|k: int| 0 <= k < all.len() implies sound_revisit(
                        v,
                        send,
                        #[trigger] all[k],
                    ) by {
                        if all.len() == rest.len() {
                            assert(all[k] == rest[k]);
                        } else if k > 0 {
                            assert(all[k] == rest[k - 1]);
                        } else {
                            let sends = sends_of(all[0].rev);
                            assert(sends =~= seq![send]);
                            assert(sends[0] == send);
                        }
                    }
                },
                KindView::Inbox { loc, max, rfs, .. } => {
                    let sets = inbox_sets(v, loc, l.pos, send);
                    let made = inbox_revisits(v, n - 1, send, sets, sets.len());
                    lemma_inbox_revisits_sound(v, n - 1, send, sets, sets.len());
                    assert forall|k: int| 0 <= k < all.len() implies sound_revisit(
                        v,
                        send,
                        #[trigger] all[k],
                    ) by {
                        if all == rest {
                            assert(all[k] == rest[k]);
                        } else if k < made.len() {
                            assert(all[k] == made[k]);
                        } else {
                            assert(all[k] == rest[k - made.len()]);
                        }
                    }
                },
                _ => {},
            }
        }
    }
}

/// Every execution that ends is counted once, as complete or as blocked.
pub proof fn law_executions_are_counted_once<P>(v: MustView<P>)
    requires
        v.execs < u64::MAX,
        v.blocked < u64::MAX,
    ensures
        ended(v).execs + ended(v).blocked == v.execs + v.blocked + 1,
        ended(v).execs == v.execs + 1 <==> blocked_by(log_of(v)) is None,
{
}

} // verus!
