//! A backward revisit leaves each message taken once.

use crate::cons::{lemma_normalized, stamp_of};
use crate::event::{Event, ThreadId};
use crate::event_label::{KindView, LabelView};
use crate::exec_graph::{
    closed_clock, comes_before, covers_all, final_kind, frozen, graph_wf, has_thread, in_log,
    index_of, is_cause, is_kept, label_at, last_label, last_place, lemma_below, lemma_frozen,
    lemma_index_of, lemma_last_place, lemma_restricted, lemma_survivors, lemma_with_kind, log_wf,
    restricted, stays_from, survives, GraphView,
};
use crate::must::backward::is_revisitable;
use crate::must::delivery::{
    begins_created, delivered_once, free_for, is_reader, joins_ended, lemma_has_thread,
    lemma_last_within, lemma_upto, lemma_upto_before, lemma_within, listed, placement_fits,
    sound_entry, sound_log, spanned_final, spans, stays, takes, upto, within,
};
use crate::must::step::{revisited_graph, with_placement};
use crate::revisit::{sends_of, PlacementView, RevisitView};
use crate::vector_clock::covers;
use vstd::prelude::*;

verus! {

/// Whether `r` goes back from a log in which messages are taken once, and was noted when
/// the labels up to `stamp` were there.
pub open spec fn goes_back(log: Seq<LabelView>, stamp: usize, r: RevisitView) -> bool {
    &&& sound_log(log)
    &&& sound_log(upto(log, stamp))
    &&& sound_entry(upto(log, stamp), r)
    &&& r.backward
}

/// What is revisited is a receive of the log that is not final and comes before none of
/// the sends.
proof fn lemma_revisited_label(log: Seq<LabelView>, stamp: usize, r: RevisitView)
    requires
        goes_back(log, stamp, r),
    ensures
        in_log(log, r.pos),
        label_at(log, r.pos).pos == r.pos,
        stamp_of(log, r.pos) <= stamp,
        stamp_of(log, r.pos) == stamp_of(upto(log, stamp), r.pos),
        label_at(log, r.pos) == label_at(upto(log, stamp), r.pos),
        is_reader(label_at(log, r.pos)),
        is_revisitable(label_at(log, r.pos)),
        placement_fits(label_at(log, r.pos), r.rev),
        !comes_before(log, sends_of(r.rev), r.pos),
        forall|i: int|
            0 <= i < sends_of(r.rev).len() ==> in_log(log, #[trigger] sends_of(r.rev)[i])
                && label_at(log, sends_of(r.rev)[i]).kind is Send,
{
    assert(log_wf(log)) by {
        reveal(sound_log);
    }
    let part = upto(log, stamp);
    let sends = sends_of(r.rev);
    lemma_upto(log, stamp);
    assert(in_log(part, r.pos));
    let k = index_of(log, r.pos);
    assert(log[k].pos == r.pos);
    assert forall|i: int| 0 <= i < sends.len() implies in_log(part, #[trigger] sends[i]) by {
        assert(free_for(part, r, sends[i]));
    }
    assert forall|i: int| 0 <= i < sends.len() implies in_log(log, #[trigger] sends[i])
        && label_at(log, sends[i]).kind is Send by {
        assert(free_for(part, r, sends[i]));
        assert(in_log(part, sends[i]));
    }
    if comes_before(log, sends, r.pos) {
        lemma_upto_before(log, stamp, sends, r.pos);
    }
}

/// What a label that stays comes after stays, and is before the revisited event if it is
/// of the same thread.
proof fn lemma_cause_kept(log: Seq<LabelView>, stamp: usize, r: RevisitView, i: int, c: Event)
    requires
        goes_back(log, stamp, r),
        0 <= i < log.len(),
        survives(log, stamp_of(log, r.pos), sends_of(r.rev), log[i]),
        log[i].pos != r.pos,
        is_cause(log, log[i], c),
    ensures
        in_log(log, c),
        label_at(log, c).pos == c,
        is_kept(log, stamp_of(log, r.pos), sends_of(r.rev), label_at(log, c)),
        c.thread == r.pos.thread ==> c.index < r.pos.index,
{
    reveal(sound_log);
    let sends = sends_of(r.rev);
    let back = stamp_of(log, r.pos);
    let l = log[i];
    let j = index_of(log, r.pos);
    lemma_revisited_label(log, stamp, r);
    assert(log[j].pos == r.pos);
    let m = index_of(log, c);
    assert(log[m].pos == c);
    lemma_index_of(log, m);
    lemma_index_of(log, i);
    let lc = label_at(log, c);
    if comes_before(log, sends, l.pos) {
        assert(comes_before(log, sends, c)) by {
            assert forall|clock: Map<ThreadId, u32>| #[trigger]
                closed_clock(log, clock) && covers_all(clock, sends) implies covers(clock, c) by {
                assert(covers(clock, log[i].pos));
                assert(is_cause(log, log[i], c));
            }
        }
        assert(is_kept(log, back, sends, lc));
    } else if l.stamp <= back {
        if j < i {
            assert(log[j].stamp < log[i].stamp);
        }
        assert(i < j);
        if is_reader(l) {
            assert(l.reads(c));
            if lc.stamp > back {
                assert(spans(log, i, j, c));
            }
        } else if let KindView::TJoin { cid } = l.kind {
            lemma_last_place(log, cid, log.len());
            lemma_index_of(log, last_place(log, cid, log.len()) - 1);
        }
        assert(lc.stamp <= back);
    }
    assert(is_kept(log, back, sends, lc));
    assert(!is_reader(lc)) by {
        if is_reader(l) {
            assert(l.reads(c));
        } else if let KindView::TJoin { cid } = l.kind {
            lemma_last_place(log, cid, log.len());
            lemma_index_of(log, last_place(log, cid, log.len()) - 1);
        }
    }
    if c.thread == r.pos.thread && c.index >= r.pos.index {
        assert(c != r.pos);
        if m < j {
            assert(log[m].pos.index < log[j].pos.index);
        }
        assert(j < m);
        assert(log[j].stamp < log[m].stamp);
        assert(comes_before(log, sends, r.pos)) by {
            assert forall|clock: Map<ThreadId, u32>| #[trigger]
                closed_clock(log, clock) && covers_all(clock, sends) implies covers(
                clock,
                r.pos,
            ) by {
                assert(covers(clock, c));
            }
        }
    }
}

/// What stays of the log is a well-formed part of it.
pub proof fn lemma_kept(g: GraphView, stamp: usize, seeds: Seq<Event>)
    requires
        graph_wf(g),
    ensures
        graph_wf(restricted(g, stamp, seeds)),
        within(g.log, restricted(g, stamp, seeds).log),
        forall|e: Event|
            in_log(g.log, e) && survives(g.log, stamp, seeds, label_at(g.log, e))
                ==> #[trigger] in_log(restricted(g, stamp, seeds).log, e),
        forall|e: Event| #[trigger]
            in_log(restricted(g, stamp, seeds).log, e) ==> in_log(g.log, e) && survives(
                g.log,
                stamp,
                seeds,
                label_at(g.log, e),
            ) && label_at(restricted(g, stamp, seeds).log, e) == label_at(g.log, e),
        forall|m: int|
            0 <= m < g.log.len() && survives(g.log, stamp, seeds, #[trigger] g.log[m])
                ==> restricted(g, stamp, seeds).log.contains(g.log[m]),
{
    let part = restricted(g, stamp, seeds).log;
    lemma_restricted(g, stamp, seeds);
    lemma_survivors(g.log, stamp, seeds, g.log.len());
    assert forall|k: int| 0 <= k < part.len() implies g.log.contains(#[trigger] part[k]) by {
        assert(stays_from(g.log, stamp, seeds, g.log.len(), part[k]));
        let m = choose|m: int| 0 <= m < g.log.len() && part[k] == #[trigger] g.log[m];
    }
    lemma_within(g.log, part);
}

/// In what stays, the last label of a joined thread is still the last.
proof fn lemma_join_kept(g: GraphView, stamp: usize, r: RevisitView, i: int, cid: ThreadId)
    requires
        graph_wf(g),
        goes_back(g.log, stamp, r),
        0 <= i < g.log.len(),
        survives(g.log, stamp_of(g.log, r.pos), sends_of(r.rev), g.log[i]),
        g.log[i].kind == (KindView::TJoin { cid }),
    ensures
        has_thread(restricted(g, stamp_of(g.log, r.pos), sends_of(r.rev)).log, cid),
        last_label(restricted(g, stamp_of(g.log, r.pos), sends_of(r.rev)).log, cid) == last_label(
            g.log,
            cid,
        ),
{
    reveal(sound_log);
    let log = g.log;
    let sends = sends_of(r.rev);
    let back = stamp_of(log, r.pos);
    let part = restricted(g, back, sends).log;
    lemma_revisited_label(log, stamp, r);
    lemma_kept(g, back, sends);
    lemma_last_place(log, cid, log.len());
    let p = last_place(log, cid, log.len()) - 1;
    lemma_index_of(log, p);
    lemma_index_of(log, i);
    lemma_cause_kept(log, stamp, r, i, log[p].pos);
    assert(survives(log, back, sends, log[p]));
    assert(part.contains(log[p]));
    lemma_last_within(log, part, cid);
}

/// What comes before the sends comes before them in what stays.
proof fn lemma_kept_before(g: GraphView, stamp: usize, r: RevisitView, y: Event)
    requires
        graph_wf(g),
        goes_back(g.log, stamp, r),
        in_log(g.log, y),
        comes_before(g.log, sends_of(r.rev), y),
    ensures
        comes_before(
            restricted(g, stamp_of(g.log, r.pos), sends_of(r.rev)).log,
            sends_of(r.rev),
            y,
        ),
{
    assert(log_wf(g.log)) by {
        reveal(sound_log);
    }
    let log = g.log;
    let sends = sends_of(r.rev);
    let back = stamp_of(log, r.pos);
    let part = restricted(g, back, sends).log;
    lemma_revisited_label(log, stamp, r);
    lemma_kept(g, back, sends);
    assert forall|clock: Map<ThreadId, u32>| #[trigger]
        closed_clock(part, clock) && covers_all(clock, sends) implies covers(clock, y) by {
        let low = Map::new(
            |t: ThreadId|
                clock.dom().contains(t) && has_thread(part, t) && (t == r.pos.thread
                    ==> r.pos.index > 0),
            |t: ThreadId|
                {
                    let bound = if t == r.pos.thread && last_label(part, t).pos.index
                        >= r.pos.index {
                        (r.pos.index - 1) as u32
                    } else {
                        last_label(part, t).pos.index
                    };
                    if clock[t] <= bound {
                        clock[t]
                    } else {
                        bound
                    }
                },
        );
        assert forall|e: Event| #[trigger] covers(low, e) && in_log(log, e) implies in_log(part, e)
            && covers(clock, e) && (e.thread == r.pos.thread ==> e.index < r.pos.index) by {
            lemma_last_place(part, e.thread, part.len());
            let p = last_place(part, e.thread, part.len()) - 1;
            lemma_below(part, p, e.index);
            assert(Event { thread: part[p].pos.thread, index: e.index } == e);
        }
        assert forall|e: Event|
            covers(clock, e) && in_log(part, e) && (e.thread == r.pos.thread ==> e.index
                < r.pos.index) implies #[trigger] covers(low, e) by {
            let k = index_of(part, e);
            assert(part[k].pos == e);
            lemma_has_thread(part, k);
            lemma_last_place(part, e.thread, part.len());
            let p = last_place(part, e.thread, part.len()) - 1;
            if k < p {
                assert(part[k].pos.index < part[p].pos.index);
            }
        }
        assert(covers_all(low, sends)) by {
            assert forall|i: int| 0 <= i < sends.len() implies covers(low, #[trigger] sends[i]) by {
                let e = sends[i];
                assert(covers(clock, e));
                assert(in_log(log, e));
                assert(label_at(log, e).pos == e) by {
                    let k = index_of(log, e);
                    assert(log[k].pos == e);
                }
                assert(comes_before(log, sends, e)) by {
                    assert forall|c: Map<ThreadId, u32>| #[trigger]
                        closed_clock(log, c) && covers_all(c, sends) implies covers(c, e) by {
                        assert(covers(c, sends[i]));
                    }
                }
                assert(survives(log, back, sends, label_at(log, e)));
                assert(in_log(part, e));
                if e.thread == r.pos.thread && e.index >= r.pos.index {
                    assert(comes_before(log, sends, r.pos)) by {
                        assert forall|c: Map<ThreadId, u32>| #[trigger]
                            closed_clock(log, c) && covers_all(c, sends) implies covers(
                            c,
                            r.pos,
                        ) by {
                            assert(covers(c, sends[i]));
                        }
                    }
                }
            }
        }
        assert(closed_clock(log, low)) by {
            assert forall|i: int, c: Event|
                0 <= i < log.len() && covers(low, log[i].pos) && #[trigger] is_cause(
                    log,
                    log[i],
                    c,
                ) implies covers(low, c) by {
                lemma_index_of(log, i);
                assert(in_log(part, log[i].pos));
                assert(survives(log, back, sends, log[i]));
                assert(log[i].pos != r.pos);
                lemma_cause_kept(log, stamp, r, i, c);
                assert(in_log(part, c));
                let k = index_of(part, log[i].pos);
                assert(part[k].pos == log[i].pos);
                assert(label_at(part, log[i].pos) == log[i]);
                assert(part[k] == log[i]);
                assert(is_cause(part, part[k], c)) by {
                    if let KindView::TJoin { cid } = log[i].kind {
                        lemma_join_kept(g, stamp, r, i, cid);
                    }
                }
                assert(covers(clock, c));
            }
        }
        assert(covers(low, y));
    }
}

/// What the label `l` is after the revisit `r`.
spec fn relabelled(g: GraphView, r: RevisitView, l: LabelView) -> LabelView {
    let sends = sends_of(r.rev);
    let part = restricted(g, stamp_of(g.log, r.pos), sends).log;
    let kind = if comes_before(part, sends, l.pos) {
        final_kind(l.kind)
    } else {
        l.kind
    };
    LabelView {
        pos: l.pos,
        stamp: l.stamp,
        kind: if l.pos == r.pos {
            with_placement(kind, r.rev)
        } else {
            kind
        },
    }
}

/// The labels after a revisit are those that stay, one for one.
proof fn lemma_relabelled(g: GraphView, stamp: usize, r: RevisitView)
    requires
        graph_wf(g),
        goes_back(g.log, stamp, r),
    ensures
        log_wf(revisited_graph(g, r).log),
        revisited_graph(g, r).log.len() == restricted(
            g,
            stamp_of(g.log, r.pos),
            sends_of(r.rev),
        ).log.len(),
        forall|k: int|
            0 <= k < revisited_graph(g, r).log.len() ==> #[trigger] revisited_graph(g, r).log[k]
                == relabelled(
                g,
                r,
                restricted(g, stamp_of(g.log, r.pos), sends_of(r.rev)).log[k],
            ),
        forall|e: Event| #[trigger]
            in_log(revisited_graph(g, r).log, e) == in_log(
                restricted(g, stamp_of(g.log, r.pos), sends_of(r.rev)).log,
                e,
            ),
        forall|e: Event|
            in_log(restricted(g, stamp_of(g.log, r.pos), sends_of(r.rev)).log, e) ==> (
            #[trigger] label_at(revisited_graph(g, r).log, e)) == relabelled(
                g,
                r,
                label_at(restricted(g, stamp_of(g.log, r.pos), sends_of(r.rev)).log, e),
            ),
{
    assert(log_wf(g.log)) by {
        reveal(sound_log);
    }
    let log = g.log;
    let sends = sends_of(r.rev);
    let back = stamp_of(log, r.pos);
    let kept = restricted(g, back, sends);
    let made = frozen(kept, sends);
    let after = revisited_graph(g, r);
    lemma_revisited_label(log, stamp, r);
    lemma_kept(g, back, sends);
    assert(survives(log, back, sends, label_at(log, r.pos)));
    assert(in_log(kept.log, r.pos));
    lemma_frozen(kept, sends);
    assert(in_log(made.log, r.pos));
    let kind = with_placement(label_at(made.log, r.pos).kind, r.rev);
    lemma_with_kind(made, r.pos, kind);
    let j = index_of(made.log, r.pos);
    assert(made.log[j].pos == r.pos);
    assert(after.log =~= with_kind_log(made.log, j, kind));
    assert forall|k: int| 0 <= k < after.log.len() implies #[trigger] after.log[k] == relabelled(
        g,
        r,
        kept.log[k],
    ) by {
        assert(made.log[k].pos == kept.log[k].pos);
        if kept.log[k].pos == r.pos {
            lemma_index_of(made.log, k);
            assert(k == j);
        }
    }
    assert forall|e: Event| #[trigger] in_log(after.log, e) == in_log(kept.log, e) by {
        assert(in_log(made.log, e) == in_log(kept.log, e));
        assert(in_log(after.log, e) == in_log(made.log, e));
    }
    assert forall|e: Event| in_log(kept.log, e) implies (#[trigger] label_at(after.log, e))
        == relabelled(g, r, label_at(kept.log, e)) by {
        let k = index_of(kept.log, e);
        assert(kept.log[k].pos == e);
        lemma_index_of(kept.log, k);
        assert(after.log[k].pos == e);
        lemma_index_of(after.log, k);
    }
}

/// The log with another kind of label at place `j`.
spec fn with_kind_log(log: Seq<LabelView>, j: int, kind: KindView) -> Seq<LabelView> {
    log.update(j, LabelView { pos: log[j].pos, stamp: log[j].stamp, kind })
}

/// After a revisit the other events read what they read, and the revisited event reads
/// only the sends.
proof fn lemma_reads_after(g: GraphView, stamp: usize, r: RevisitView, k: int, e: Event)
    requires
        graph_wf(g),
        goes_back(g.log, stamp, r),
        0 <= k < revisited_graph(g, r).log.len(),
        revisited_graph(g, r).log[k].reads(e),
    ensures
        ({
            let part = restricted(g, stamp_of(g.log, r.pos), sends_of(r.rev)).log;
            let l = part[k];
            &&& is_reader(l)
            &&& l.pos == r.pos ==> sends_of(r.rev).contains(e)
            &&& l.pos != r.pos ==> l.reads(e)
            &&& in_log(part, e)
            &&& label_at(part, e) == label_at(g.log, e)
            &&& label_at(revisited_graph(g, r).log, e) == label_at(g.log, e)
            &&& label_at(g.log, e).kind is Send
        }),
{
    reveal(sound_log);
    let log = g.log;
    let sends = sends_of(r.rev);
    let back = stamp_of(log, r.pos);
    let part = restricted(g, back, sends).log;
    lemma_revisited_label(log, stamp, r);
    lemma_kept(g, back, sends);
    lemma_relabelled(g, stamp, r);
    let l = part[k];
    assert(revisited_graph(g, r).log[k] == relabelled(g, r, l));
    assert(log.contains(l));
    let m = choose|m: int| 0 <= m < log.len() && log[m] == l;
    lemma_index_of(log, m);
    lemma_index_of(part, k);
    if l.pos == r.pos {
        assert(l == label_at(log, r.pos));
        match r.rev {
            PlacementView::Default(s) => {
                assert(e == s);
                assert(sends[0] == e);
            },
            PlacementView::Inbox(es) => {
                lemma_normalized(es, es.len());
                assert(es.take(es.len() as int) =~= es);
            },
        }
        let i = choose|i: int| 0 <= i < sends.len() && sends[i] == e;
        assert(in_log(log, sends[i]));
        assert(label_at(log, e).pos == e) by {
            let q = index_of(log, e);
            assert(log[q].pos == e);
        }
        assert(comes_before(log, sends, e)) by {
            assert forall|c: Map<ThreadId, u32>| #[trigger]
                closed_clock(log, c) && covers_all(c, sends) implies covers(c, e) by {
                assert(covers(c, sends[i]));
            }
        }
    } else {
        assert(l.reads(e));
        assert(log[m].reads(e));
        assert(in_log(log, e));
        assert(is_cause(log, log[m], e));
        assert(survives(log, back, sends, log[m]));
        lemma_cause_kept(log, stamp, r, m, e);
    }
    assert(survives(log, back, sends, label_at(log, e)));
    assert(in_log(part, e));
}

/// Messages are taken once after a backward revisit.
#[verifier::spinoff_prover]
#[verifier::rlimit(40)]
pub proof fn lemma_revisited_sound(g: GraphView, stamp: usize, r: RevisitView)
    requires
        graph_wf(g),
        goes_back(g.log, stamp, r),
    ensures
        sound_log(revisited_graph(g, r).log),
{
    reveal(sound_log);
    let log = g.log;
    let sends = sends_of(r.rev);
    let back = stamp_of(log, r.pos);
    let kept = restricted(g, back, sends);
    let part = kept.log;
    let after = revisited_graph(g, r).log;
    lemma_revisited_label(log, stamp, r);
    lemma_kept(g, back, sends);
    lemma_relabelled(g, stamp, r);
    assert forall|k: int| 0 <= k < part.len() implies {
        let m = index_of(log, (#[trigger] part[k]).pos);
        0 <= m < log.len() && log[m] == part[k] && survives(log, back, sends, log[m])
    } by {
        assert(log.contains(part[k]));
        let q = choose|q: int| 0 <= q < log.len() && log[q] == part[k];
        lemma_index_of(log, q);
        lemma_index_of(part, k);
        assert(in_log(part, part[k].pos));
    }
    assert forall|i: int, e: Event| 0 <= i < after.len() && #[trigger] after[i].reads(e) implies
        in_log(after, e) && label_at(after, e).kind is Send by {
        lemma_reads_after(g, stamp, r, i, e);
        assert(in_log(part, e));
    }
    assert(begins_created(after)) by {
        assert forall|i: int| 0 <= i < after.len() implies ((
        #[trigger] after[i]).kind matches KindView::Begin { parent: Some(p), .. } ==> in_log(
            after,
            p,
        ) && label_at(after, p).kind is TCreate && stamp_of(after, p) < after[i].stamp) by {
            assert(after[i] == relabelled(g, r, part[i]));
            if let KindView::Begin { parent: Some(p), .. } = after[i].kind {
                lemma_begin_after(g, stamp, r, i, p);
            }
        }
    }
    assert(joins_ended(after)) by {
        assert forall|i: int| 0 <= i < after.len() implies ((
        #[trigger] after[i]).kind matches KindView::TJoin { cid } ==> has_thread(after, cid)
            && last_label(after, cid).kind is End && last_label(after, cid).stamp
            < after[i].stamp) by {
            assert(after[i] == relabelled(g, r, part[i]));
            if let KindView::TJoin { cid } = after[i].kind {
                lemma_join_after(g, stamp, r, i, cid);
            }
        }
    }
    assert(spanned_final(after)) by {
        assert forall|x: int, y: int, e: Event| #[trigger]
            spans(after, x, y, e) && is_reader(after[y]) implies !is_revisitable(after[y]) by {
            lemma_span_after(g, stamp, r, x, y, e);
        }
    }
    assert(delivered_once(after)) by {
        assert forall|i: int, j: int, e: Event|
            0 <= i < after.len() && 0 <= j < after.len() && #[trigger] takes(after, after[i], e)
                && #[trigger] takes(after, after[j], e) implies i == j by {
            lemma_takers_after(g, stamp, r, i, j, e);
        }
    }
}

/// After a revisit threads have begun after their creation.
proof fn lemma_begin_after(g: GraphView, stamp: usize, r: RevisitView, i: int, p: Event)
    requires
        graph_wf(g),
        goes_back(g.log, stamp, r),
        0 <= i < revisited_graph(g, r).log.len(),
        revisited_graph(g, r).log[i].kind matches KindView::Begin { parent, .. } && parent == Some(
            p,
        ),
    ensures
        in_log(revisited_graph(g, r).log, p),
        label_at(revisited_graph(g, r).log, p).kind is TCreate,
        stamp_of(revisited_graph(g, r).log, p) < revisited_graph(g, r).log[i].stamp,
{
    reveal(sound_log);
    let log = g.log;
    let sends = sends_of(r.rev);
    let back = stamp_of(log, r.pos);
    let part = restricted(g, back, sends).log;
    lemma_revisited_label(log, stamp, r);
    lemma_kept(g, back, sends);
    lemma_relabelled(g, stamp, r);
    assert(revisited_graph(g, r).log[i] == relabelled(g, r, part[i]));
    let l = part[i];
    assert(l.kind == revisited_graph(g, r).log[i].kind);
    assert(log.contains(l));
    let m = choose|m: int| 0 <= m < log.len() && log[m] == l;
    lemma_index_of(log, m);
    lemma_index_of(part, i);
    assert(l.pos != r.pos);
    assert(is_cause(log, log[m], p));
    lemma_cause_kept(log, stamp, r, m, p);
    assert(in_log(part, p));
    assert(label_at(part, p) == label_at(log, p));
    assert(p != r.pos);
}

/// After a revisit the joined threads have ended before.
proof fn lemma_join_after(g: GraphView, stamp: usize, r: RevisitView, i: int, cid: ThreadId)
    requires
        graph_wf(g),
        goes_back(g.log, stamp, r),
        0 <= i < revisited_graph(g, r).log.len(),
        revisited_graph(g, r).log[i].kind == (KindView::TJoin { cid }),
    ensures
        has_thread(revisited_graph(g, r).log, cid),
        last_label(revisited_graph(g, r).log, cid).kind is End,
        last_label(revisited_graph(g, r).log, cid).stamp < revisited_graph(g, r).log[i].stamp,
{
    reveal(sound_log);
    let log = g.log;
    let sends = sends_of(r.rev);
    let back = stamp_of(log, r.pos);
    let part = restricted(g, back, sends).log;
    let after = revisited_graph(g, r).log;
    lemma_revisited_label(log, stamp, r);
    lemma_kept(g, back, sends);
    lemma_relabelled(g, stamp, r);
    assert(after[i] == relabelled(g, r, part[i]));
    let l = part[i];
    assert(l.kind == after[i].kind) by {
        if l.pos == r.pos {
            lemma_index_of(part, i);
            assert(in_log(part, r.pos));
        }
    }
    assert(log.contains(l));
    let m = choose|m: int| 0 <= m < log.len() && log[m] == l;
    lemma_index_of(log, m);
    lemma_index_of(part, i);
    lemma_join_kept(g, stamp, r, m, cid);
    assert forall|k: int| 0 <= k < part.len() implies (#[trigger] part[k]).pos == after[k].pos by {
        assert(after[k] == relabelled(g, r, part[k]));
    }
    crate::must::delivery::lemma_last_place_same(part, after, cid, part.len());
    lemma_last_place(part, cid, part.len());
    let q = last_place(part, cid, part.len()) - 1;
    assert(after[q] == relabelled(g, r, part[q]));
    lemma_index_of(part, q);
    assert(in_log(part, part[q].pos));
    assert(part[q].kind is End);
    assert(part[q].pos != r.pos);
}

/// After a revisit the receives between a receive and a newer event that it reads are
/// final.
proof fn lemma_span_after(g: GraphView, stamp: usize, r: RevisitView, x: int, y: int, e: Event)
    requires
        graph_wf(g),
        goes_back(g.log, stamp, r),
        spans(revisited_graph(g, r).log, x, y, e),
        is_reader(revisited_graph(g, r).log[y]),
    ensures
        !is_revisitable(revisited_graph(g, r).log[y]),
{
    reveal(sound_log);
    let log = g.log;
    let sends = sends_of(r.rev);
    let back = stamp_of(log, r.pos);
    let part = restricted(g, back, sends).log;
    let after = revisited_graph(g, r).log;
    lemma_revisited_label(log, stamp, r);
    lemma_kept(g, back, sends);
    lemma_relabelled(g, stamp, r);
    lemma_reads_after(g, stamp, r, x, e);
    assert(after[x] == relabelled(g, r, part[x]));
    assert(after[y] == relabelled(g, r, part[y]));
    assert(log.contains(part[x]));
    assert(log.contains(part[y]));
    let mx = choose|m: int| 0 <= m < log.len() && log[m] == part[x];
    let my = choose|m: int| 0 <= m < log.len() && log[m] == part[y];
    lemma_index_of(log, mx);
    lemma_index_of(log, my);
    lemma_index_of(part, x);
    lemma_index_of(part, y);
    assert(after[x].stamp < after[y].stamp);
    if my <= mx {
        if my < mx {
            assert(log[my].stamp < log[mx].stamp);
        }
        assert(false);
    }
    if part[x].pos == r.pos {
        assert(part[x] == label_at(log, r.pos));
        assert(part[y].stamp > back);
        assert(survives(log, back, sends, part[y]));
        assert(is_reader(part[y]));
        assert(comes_before(log, sends, part[y].pos));
        lemma_kept_before(g, stamp, r, part[y].pos);
        assert(part[y].pos != r.pos);
    } else {
        assert(spans(log, mx, my, e));
        assert(is_reader(log[my]));
        assert(!is_revisitable(log[my]));
        if part[y].pos == r.pos {
            assert(log[my] == label_at(log, r.pos));
        }
    }
}

/// After a revisit no message is taken twice.
proof fn lemma_takers_after(g: GraphView, stamp: usize, r: RevisitView, i: int, j: int, e: Event)
    requires
        graph_wf(g),
        goes_back(g.log, stamp, r),
        0 <= i < revisited_graph(g, r).log.len(),
        0 <= j < revisited_graph(g, r).log.len(),
        takes(revisited_graph(g, r).log, revisited_graph(g, r).log[i], e),
        takes(revisited_graph(g, r).log, revisited_graph(g, r).log[j], e),
    ensures
        i == j,
{
    reveal(sound_log);
    let log = g.log;
    let sends = sends_of(r.rev);
    let back = stamp_of(log, r.pos);
    let part = restricted(g, back, sends).log;
    let after = revisited_graph(g, r).log;
    lemma_revisited_label(log, stamp, r);
    lemma_kept(g, back, sends);
    lemma_relabelled(g, stamp, r);
    lemma_reads_after(g, stamp, r, i, e);
    lemma_reads_after(g, stamp, r, j, e);
    assert(after[i] == relabelled(g, r, part[i]));
    assert(after[j] == relabelled(g, r, part[j]));
    assert(log.contains(part[i]));
    assert(log.contains(part[j]));
    let mi = choose|m: int| 0 <= m < log.len() && log[m] == part[i];
    let mj = choose|m: int| 0 <= m < log.len() && log[m] == part[j];
    lemma_index_of(log, mi);
    lemma_index_of(log, mj);
    lemma_index_of(part, i);
    lemma_index_of(part, j);
    if part[i].pos != r.pos && part[j].pos != r.pos {
        assert(takes(log, log[mi], e));
        assert(takes(log, log[mj], e));
        assert(mi == mj);
    } else if part[i].pos != part[j].pos {
        let m = if part[i].pos == r.pos { mj } else { mi };
        let l = log[m];
        assert(l.pos != r.pos);
        assert(takes(log, l, e));
        assert(survives(log, back, sends, l));
        let q = choose|q: int| 0 <= q < sends.len() && sends[q] == e;
        let early = upto(log, stamp);
        lemma_upto(log, stamp);
        assert(free_for(early, r, sends[q]));
        assert(in_log(early, e));
        assert(label_at(early, e) == label_at(log, e));
        assert(!listed(early, e, r.pos.thread));
        assert forall|s: int| 0 <= s < sends.len() implies in_log(early, #[trigger] sends[s]) by {
            assert(free_for(early, r, sends[s]));
        }
        if comes_before(log, sends, l.pos) {
            lemma_upto_before(log, stamp, sends, l.pos);
        }
        assert(in_log(early, l.pos));
        let k = index_of(early, l.pos);
        assert(early[k].pos == l.pos);
        assert(early[k] == label_at(early, l.pos));
        assert(early[k] == l);
        assert(stays(early, r, early[k]));
        assert(takes(early, early[k], e));
    }
}

} // verus!
