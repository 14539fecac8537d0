//! Laws of the pictures and traces of an execution: what is shown, and in which order.
use crate::debug::tikz_log::label_text;
use crate::event::{Event, ThreadId};
use crate::event_label::{KindView, LabelView};
use crate::exec_graph::{
    in_log, index_of, label_at, lemma_below, lemma_index_of, log_wf, outside, thread_size,
};
use crate::must::order_laws::{is_just_before, is_rank, lemma_causes};
use crate::must::print::{
    dot_all_edges, dot_cluster, dot_clusters, dot_edge, dot_edges, dot_node, dot_nodes, dot_of,
    lemma_trace_event, trace_all, trace_cause, trace_event, trace_of,
    trace_start, trace_thread,
};
use crate::text::{event_text, thread_text};
use crate::vector_clock::{clock_with, covers};
use vstd::prelude::*;

verus! {

/// Whether a text holds another one.
pub open spec fn holds(text: Seq<char>, part: Seq<char>) -> bool {
    exists|before: Seq<char>, after: Seq<char>| text == #[trigger] (before + part + after)
}

proof fn lemma_holds(text: Seq<char>, part: Seq<char>, left: Seq<char>, right: Seq<char>)
    requires
        holds(text, part),
    ensures
        holds(left + text + right, part),
{
    let (before, after) = choose|before: Seq<char>, after: Seq<char>|
        text == #[trigger] (before + part + after);
    assert(left + text + right =~= (left + before) + part + (after + right));
}

proof fn lemma_holds_here(left: Seq<char>, part: Seq<char>, right: Seq<char>)
    ensures
        holds(left + part + right, part),
{
}

proof fn lemma_nodes(log: Seq<LabelView>, error: Option<Event>, t: ThreadId, index: u32, n: nat)
    requires
        1 <= index < n,
    ensures
        holds(dot_nodes(log, error, t, n), dot_node(log, error, Event { thread: t, index })),
    decreases n,
{
    let before = dot_nodes(log, error, t, (n - 1) as nat);
    let node = dot_node(log, error, Event { thread: t, index: (n - 1) as u32 });
    let none = Seq::<char>::empty();
    if index == n - 1 {
        lemma_holds_here(before, node, none);
        assert(before + node + none =~= before + node);
    } else {
        lemma_nodes(log, error, t, index, (n - 1) as nat);
        lemma_holds(
            before,
            dot_node(log, error, Event { thread: t, index }),
            none,
            node,
        );
        assert(none + before + node =~= before + node);
    }
}

proof fn lemma_clusters(
    log: Seq<LabelView>,
    error: Option<Event>,
    entries: Seq<(ThreadId, u32)>,
    k: int,
    n: nat,
)
    requires
        0 <= k < n <= entries.len(),
    ensures
        holds(dot_clusters(log, error, entries, n), dot_cluster(log, error, entries[k])),
    decreases n,
{
    let before = dot_clusters(log, error, entries, (n - 1) as nat);
    let last = dot_cluster(log, error, entries[n - 1]);
    let none = Seq::<char>::empty();
    if k == n - 1 {
        lemma_holds_here(before, last, none);
        assert(before + last + none =~= before + last);
    } else {
        lemma_clusters(log, error, entries, k, (n - 1) as nat);
        lemma_holds(before, dot_cluster(log, error, entries[k]), none, last);
        assert(none + before + last =~= before + last);
    }
}

proof fn lemma_edges(log: Seq<LabelView>, t: ThreadId, last: u32, index: u32, n: nat)
    requires
        1 <= index <= n,
    ensures
        holds(dot_edges(log, t, last, n), dot_edge(log, Event { thread: t, index }, last)),
    decreases n,
{
    let before = dot_edges(log, t, last, (n - 1) as nat);
    let edge = dot_edge(log, Event { thread: t, index: n as u32 }, last);
    let none = Seq::<char>::empty();
    if index == n {
        lemma_holds_here(before, edge, none);
        assert(before + edge + none =~= before + edge);
    } else {
        lemma_edges(log, t, last, index, (n - 1) as nat);
        lemma_holds(before, dot_edge(log, Event { thread: t, index }, last), none, edge);
        assert(none + before + edge =~= before + edge);
    }
}

proof fn lemma_all_edges(log: Seq<LabelView>, entries: Seq<(ThreadId, u32)>, k: int, n: nat)
    requires
        0 <= k < n <= entries.len(),
    ensures
        holds(
            dot_all_edges(log, entries, n),
            dot_edges(log, entries[k].0, entries[k].1, entries[k].1 as nat),
        ),
    decreases n,
{
    let before = dot_all_edges(log, entries, (n - 1) as nat);
    let last = dot_edges(log, entries[n - 1].0, entries[n - 1].1, entries[n - 1].1 as nat);
    let none = Seq::<char>::empty();
    if k == n - 1 {
        lemma_holds_here(before, last, none);
        assert(before + last + none =~= before + last);
    } else {
        lemma_all_edges(log, entries, k, (n - 1) as nat);
        lemma_holds(
            before,
            dot_edges(log, entries[k].0, entries[k].1, entries[k].1 as nat),
            none,
            last,
        );
        assert(none + before + last =~= before + last);
    }
}

proof fn lemma_holds_within(text: Seq<char>, middle: Seq<char>, part: Seq<char>)
    requires
        holds(text, middle),
        holds(middle, part),
    ensures
        holds(text, part),
{
    let (before, after) = choose|before: Seq<char>, after: Seq<char>|
        text == #[trigger] (before + middle + after);
    lemma_holds(middle, part, before, after);
}

/// The picture of an execution has a node for each event between the first and the last one
/// of each thread that is shown, with what the event did; an edge from each of these events
/// but the first to the next one; and an edge to each receive from the send that it reads.
pub proof fn law_pictures_show_the_events(
    log: Seq<LabelView>,
    error: Option<Event>,
    entries: Seq<(ThreadId, u32)>,
    k: int,
    index: u32,
)
    requires
        0 <= k < entries.len(),
        1 <= index <= entries[k].1,
    ensures
        ({
            let picture = dot_of(log, error, entries);
            let e = Event { thread: entries[k].0, index };
            let next = Event { thread: entries[k].0, index: (index + 1) as u32 };
            &&& index < entries[k].1 && in_log(log, e) ==> holds(
                picture,
                "\t\""@ + event_text(e) + "\" [label=<"@ + label_text(log, label_at(log, e)) + ">"@,
            )
            &&& index < entries[k].1 ==> holds(
                picture,
                "\""@ + event_text(e) + "\" -> \""@ + event_text(next) + "\"\n"@,
            )
            &&& in_log(log, e) ==> (label_at(log, e).kind matches KindView::Recv {
                rf: Some(send),
                ..
            } ==> holds(
                picture,
                "\""@ + event_text(send) + "\" -> \""@ + event_text(e) + "\"[color=green]\n"@,
            ))
        }),
{
    let picture = dot_of(log, error, entries);
    let (t, last) = entries[k];
    let e = Event { thread: t, index };
    let next = Event { thread: t, index: (index + 1) as u32 };
    let none = Seq::<char>::empty();
    let head = "strict digraph {\nnode [shape=plaintext]\nlabeljust=l\nsplines=false\n"@;
    let boxes = dot_clusters(log, error, entries, entries.len());
    let edges = dot_all_edges(log, entries, entries.len());
    lemma_holds_here(head, boxes, edges + "}\n"@);
    assert(head + boxes + (edges + "}\n"@) =~= picture);
    lemma_holds_here(head + boxes, edges, "}\n"@);
    if index < last && in_log(log, e) {
        let cluster = dot_cluster(log, error, entries[k]);
        lemma_clusters(log, error, entries, k, entries.len());
        lemma_holds_within(picture, boxes, cluster);
        lemma_nodes(log, error, t, index, last as nat);
        let nodes = dot_nodes(log, error, t, last as nat);
        let front = "subgraph cluster_"@ + thread_text(t) + " {\n\tlabel=\"thread "@
            + thread_text(t) + "\"\n"@;
        lemma_holds_here(front, nodes, "}\n"@);
        assert(front + nodes + "}\n"@ == cluster);
        lemma_holds_within(picture, cluster, nodes);
        let node = dot_node(log, error, e);
        lemma_holds_within(picture, nodes, node);
        let part = "\t\""@ + event_text(e) + "\" [label=<"@ + label_text(log, label_at(log, e))
            + ">"@;
        let mark = if error == Some(e) {
            ",style=filled,fillcollor=yellow"@
        } else {
            ""@
        };
        lemma_holds_here(none, part, mark + "]\n"@);
        assert(none + part + (mark + "]\n"@) =~= node);
        lemma_holds_within(picture, node, part);
    }
    lemma_all_edges(log, entries, k, entries.len());
    let own = dot_edges(log, t, last, last as nat);
    lemma_holds_within(picture, edges, own);
    lemma_edges(log, t, last, index, last as nat);
    let edge = dot_edge(log, e, last);
    lemma_holds_within(picture, own, edge);
    let onward = if index < last {
        "\""@ + event_text(e) + "\" -> \""@ + event_text(next) + "\"\n"@
    } else {
        ""@
    };
    let read = if in_log(log, e) {
        match label_at(log, e).kind {
            KindView::Recv { rf: Some(send), .. } => "\""@ + event_text(send) + "\" -> \""@
                + event_text(e) + "\"[color=green]\n"@,
            _ => ""@,
        }
    } else {
        ""@
    };
    assert(edge == onward + read);
    lemma_holds_here(none, onward, read);
    assert(none + onward + read =~= edge);
    lemma_holds_within(picture, edge, onward);
    lemma_holds_here(onward, read, none);
    assert(onward + read + none =~= edge);
    lemma_holds_within(picture, edge, read);
}

/// Whether the event `x` is traced before the event `y`: it is just before it, and not merely
/// one of the messages of an inbox.
pub open spec fn traced_before(log: Seq<LabelView>, x: Event, y: Event) -> bool {
    is_just_before(log, x, y) && (label_at(log, y).kind is Inbox ==> x.thread == y.thread && x.index
        + 1 == y.index)
}

/// Whether with an event the clock holds all that is traced before it.
pub open spec fn closed_for_traces(log: Seq<LabelView>, clock: Map<ThreadId, u32>) -> bool {
    forall|x: Event, y: Event| #[trigger]
        traced_before(log, x, y) && covers(clock, y) ==> covers(clock, x)
}

/// Whether the second clock holds all that the first one holds.
pub open spec fn below(a: Map<ThreadId, u32>, b: Map<ThreadId, u32>) -> bool {
    forall|x: Event| covers(a, x) ==> #[trigger] covers(b, x)
}

spec fn nth(t: ThreadId, index: int) -> Event {
    Event { thread: t, index: index as u32 }
}

/// Whether `r` is what tracing leads to from `clock`, with `done` traced before: the clock
/// holds what it held and what was traced, and each event comes after what is traced before
/// it.
spec fn traced(
    log: Seq<LabelView>,
    clock: Map<ThreadId, u32>,
    done: Seq<Event>,
    r: (Map<ThreadId, u32>, Seq<Event>),
) -> bool {
    &&& forall|x: Event|
        in_log(log, x) ==> (#[trigger] covers(r.0, x) <==> covers(clock, x) || r.1.contains(x))
    &&& forall|k: int| 0 <= k < r.1.len() ==> in_log(log, #[trigger] r.1[k])
    &&& forall|k: int, x: Event|
        0 <= k < r.1.len() && #[trigger] traced_before(log, x, r.1[k]) ==> (done + r.1.take(
            k,
        )).contains(x)
}

/// Whether each event that the clock holds, but for those that are still to be traced
/// between `i` and `end` in `t`, was traced or ranks above `top`.
spec fn pending(
    log: Seq<LabelView>,
    clock: Map<ThreadId, u32>,
    done: Seq<Event>,
    rank: spec_fn(Event) -> nat,
    top: Event,
    t: ThreadId,
    i: int,
    end: int,
) -> bool {
    forall|x: Event|
        in_log(log, x) && #[trigger] covers(clock, x) && !done.contains(x) ==> rank(x) > rank(top)
            || (x.thread == t && i <= x.index <= end)
}

proof fn lemma_trace_cause(log: Seq<LabelView>, i: int, c: Event)
    requires
        log_wf(log),
        forall|t: ThreadId| #[trigger] thread_size(log, t) <= u32::MAX,
        0 <= i < log.len(),
        in_log(log, c),
    ensures
        trace_cause(log, log[i]) == Some(c) ==> traced_before(log, c, log[i].pos),
        traced_before(log, c, log[i].pos) ==> trace_cause(log, log[i]) == Some(c) || (c.thread
            == log[i].pos.thread && c.index + 1 == log[i].pos.index),
{
    lemma_index_of(log, i);
    lemma_causes(log, i, c);
}

proof fn lemma_rank_along(
    log: Seq<LabelView>,
    rank: spec_fn(Event) -> nat,
    x: Event,
    y: Event,
)
    requires
        log_wf(log),
        is_rank(log, rank),
        in_log(log, x),
        in_log(log, y),
        x.thread == y.thread,
        x.index <= y.index,
    ensures
        rank(x) <= rank(y),
        x.index < y.index ==> rank(x) < rank(y),
    decreases y.index,
{
    if x.index < y.index {
        let p = nth(y.thread, y.index - 1);
        let i = index_of(log, y);
        assert(log[i].pos == y);
        lemma_below(log, i, p.index);
        assert(is_just_before(log, p, y));
        lemma_rank_along(log, rank, x, p);
    }
}

proof fn lemma_between(before: Seq<Event>, e: Event, after: Seq<Event>, x: Event)
    ensures
        (before.push(e) + after).contains(x) <==> before.contains(x) || x == e || after.contains(x),
{
    let all = before.push(e) + after;
    if before.contains(x) {
        let k = choose|k: int| 0 <= k < before.len() && before[k] == x;
        assert(all[k] == x);
    }
    if x == e {
        assert(all[before.len() as int] == x);
    }
    if after.contains(x) {
        let k = choose|k: int| 0 <= k < after.len() && after[k] == x;
        assert(all[before.len() + 1 + k] == x);
    }
    if all.contains(x) {
        let k = choose|k: int| 0 <= k < all.len() && all[k] == x;
        if k < before.len() {
            assert(before[k] == x);
        } else if k > before.len() {
            assert(after[k - before.len() - 1] == x);
        }
    }
}

/// What tracing one event does: `done` is what was traced before, and `rank` puts each event
/// above those that are traced before it.
proof fn lemma_event_traced(
    log: Seq<LabelView>,
    clock: Map<ThreadId, u32>,
    e: Event,
    done: Seq<Event>,
    rank: spec_fn(Event) -> nat,
)
    requires
        log_wf(log),
        forall|t: ThreadId| #[trigger] thread_size(log, t) <= u32::MAX,
        is_rank(log, rank),
        in_log(log, e),
        pending(log, clock, done, rank, e, e.thread, 0, -1),
    ensures
        traced(log, clock, done, trace_event(log, clock, e)),
        below(clock, trace_event(log, clock, e).0),
        covers(trace_event(log, clock, e).0, e),
        (done + trace_event(log, clock, e).1).contains(e),
        !covers(clock, e) ==> trace_event(log, clock, e).1.len() > 0 && trace_event(
            log,
            clock,
            e,
        ).1.last() == e,
        forall|k: Map<ThreadId, u32>|
            closed_for_traces(log, k) && covers(k, e) && #[trigger] below(clock, k) ==> below(
                trace_event(log, clock, e).0,
                k,
            ),
    decreases outside(log, clock, log.len()), 0int, 0int,
{
    lemma_trace_event(log, clock, e);
    let r = trace_event(log, clock, e);
    if covers(clock, e) {
        assert(done + r.1 =~= done);
        if !done.contains(e) {
            assert(rank(e) > rank(e));
        }
    } else {
        let next = clock_with(clock, e);
        let t = e.thread;
        let start = trace_start(clock, t) as int;
        let end = e.index as int;
        assert(nth(t, end) == e);
        let at = index_of(log, e);
        assert(log[at].pos == e);
        assert(pending(log, next, done, rank, e, t, start, end)) by {
            assert forall|x: Event|
                in_log(log, x) && #[trigger] covers(next, x) && !done.contains(x) implies rank(x)
                > rank(e) || (x.thread == t && start <= x.index <= end) by {
                if covers(clock, x) {
                    assert(rank(x) > rank(e));
                }
            }
        }
        if start > 0 {
            let p = nth(t, start - 1);
            assert(covers(clock, p));
            lemma_below(log, at, p.index);
            lemma_rank_along(log, rank, p, e);
            assert(done.contains(p));
        }
        lemma_thread_traced(log, next, t, start, end, done, rank);
        assert(r == trace_thread(log, next, t, start, end));
        assert forall|x: Event| in_log(log, x) implies (#[trigger] covers(r.0, x) <==> covers(
            clock,
            x,
        ) || r.1.contains(x)) by {
            if covers(next, x) && !covers(clock, x) {
                assert(x == nth(t, x.index as int));
                assert(r.1.contains(nth(t, x.index as int)));
            }
        }
        assert(traced(log, clock, done, r));
        assert((done + r.1)[done.len() + r.1.len() - 1] == e);
        assert forall|k: Map<ThreadId, u32>|
            closed_for_traces(log, k) && covers(k, e) && #[trigger] below(
                clock,
                k,
            ) implies below(r.0, k) by {
            assert(below(next, k)) by {
                assert forall|x: Event| covers(next, x) implies #[trigger] covers(k, x) by {
                    if covers(clock, x) {
                        assert(covers(k, x));
                    }
                }
            }
        }
    }
}

/// What tracing the events `i` to `end` of a thread does.
#[verifier::rlimit(60)]
proof fn lemma_thread_traced(
    log: Seq<LabelView>,
    clock: Map<ThreadId, u32>,
    t: ThreadId,
    i: int,
    end: int,
    done: Seq<Event>,
    rank: spec_fn(Event) -> nat,
)
    requires
        log_wf(log),
        forall|u: ThreadId| #[trigger] thread_size(log, u) <= u32::MAX,
        is_rank(log, rank),
        0 <= i <= end + 1,
        0 <= end <= u32::MAX,
        in_log(log, nth(t, end)),
        covers(clock, nth(t, end)),
        i > 0 ==> done.contains(nth(t, i - 1)),
        pending(log, clock, done, rank, nth(t, end), t, i, end),
    ensures
        traced(log, clock, done, trace_thread(log, clock, t, i, end)),
        forall|j: int|
            i <= j <= end ==> trace_thread(log, clock, t, i, end).1.contains(#[trigger] nth(t, j)),
        i <= end ==> trace_thread(log, clock, t, i, end).1.len() > 0 && trace_thread(
            log,
            clock,
            t,
            i,
            end,
        ).1.last() == nth(t, end),
        forall|k: Map<ThreadId, u32>|
            closed_for_traces(log, k) && #[trigger] below(clock, k) ==> below(
                trace_thread(log, clock, t, i, end).0,
                k,
            ),
    decreases outside(log, clock, log.len()), 1int, end - i + 1,
{
    if i <= end {
        let top = nth(t, end);
        let e = nth(t, i);
        let bottom = index_of(log, top);
        assert(log[bottom].pos == top);
        lemma_below(log, bottom, i as u32);
        lemma_rank_along(log, rank, e, top);
        let at = index_of(log, e);
        assert(log[at].pos == e);
        lemma_index_of(log, at);
        let cause = trace_cause(log, label_at(log, e));
        let (mid, before) = match cause {
            Some(c) => trace_event(log, clock, c),
            None => (clock, Seq::empty()),
        };
        if let Some(c) = cause {
            lemma_trace_event(log, clock, c);
            if in_log(log, c) {
                lemma_trace_cause(log, at, c);
                assert(traced_before(log, c, e));
                assert(rank(c) < rank(e));
                assert(pending(log, clock, done, rank, c, c.thread, 0, -1)) by {
                    assert forall|x: Event|
                        in_log(log, x) && #[trigger] covers(clock, x) && !done.contains(
                            x,
                        ) implies rank(x) > rank(c) by {
                        if x.thread == t && i <= x.index <= end {
                            lemma_rank_along(log, rank, e, x);
                        }
                    }
                }
                lemma_event_traced(log, clock, c, done, rank);
            }
        }
        assert(traced(log, clock, done, (mid, before)));
        assert(below(clock, mid));
        assert(outside(log, mid, log.len()) <= outside(log, clock, log.len()));
        let done1 = done + before.push(e);
        assert forall|x: Event| done1.contains(x) <==> done.contains(x) || before.contains(x) || x
            == e by {
            lemma_between(before, e, Seq::empty(), x);
            assert(before.push(e) + Seq::empty() =~= before.push(e));
            if done.contains(x) {
                let k = choose|k: int| 0 <= k < done.len() && done[k] == x;
                assert(done1[k] == x);
            }
            if before.push(e).contains(x) {
                let k = choose|k: int| 0 <= k < before.push(e).len() && before.push(e)[k] == x;
                assert(done1[done.len() + k] == x);
            }
            if done1.contains(x) {
                let k = choose|k: int| 0 <= k < done1.len() && done1[k] == x;
                if k < done.len() {
                    assert(done[k] == x);
                } else {
                    assert(before.push(e)[k - done.len()] == x);
                }
            }
        }
        assert(pending(log, mid, done1, rank, top, t, i + 1, end)) by {
            assert forall|x: Event|
                in_log(log, x) && #[trigger] covers(mid, x) && !done1.contains(x) implies rank(x)
                > rank(top) || (x.thread == t && i + 1 <= x.index <= end) by {
                assert(covers(clock, x));
                if x.thread == t && x.index == i {
                    assert(x == e);
                }
            }
        }
        assert(covers(mid, top));
        lemma_thread_traced(log, mid, t, i + 1, end, done1, rank);
        let (last, after) = trace_thread(log, mid, t, i + 1, end);
        let r = trace_thread(log, clock, t, i, end);
        assert(r == (last, before.push(e) + after));
        lemma_joined(log, clock, done, e, (mid, before), (last, after), cause);
        assert forall|j: int| i <= j <= end implies r.1.contains(#[trigger] nth(t, j)) by {
            lemma_between(before, e, after, nth(t, j));
        }
        assert(r.1.last() == top) by {
            if i == end {
                assert(after.len() == 0);
            } else {
                assert(r.1.last() == after.last());
            }
        }
        assert forall|k: Map<ThreadId, u32>|
            closed_for_traces(log, k) && #[trigger] below(clock, k) implies below(r.0, k) by {
            assert(covers(k, top));
            assert(covers(k, e));
            if let Some(c) = cause {
                if in_log(log, c) {
                    assert(traced_before(log, c, e));
                    assert(covers(k, c));
                }
            }
            assert(below(mid, k));
        }
    }
}

/// An event is traced between what it is traced after and the rest.
proof fn lemma_joined(
    log: Seq<LabelView>,
    clock: Map<ThreadId, u32>,
    done: Seq<Event>,
    e: Event,
    first: (Map<ThreadId, u32>, Seq<Event>),
    second: (Map<ThreadId, u32>, Seq<Event>),
    cause: Option<Event>,
)
    requires
        log_wf(log),
        forall|u: ThreadId| #[trigger] thread_size(log, u) <= u32::MAX,
        in_log(log, e),
        covers(clock, e),
        cause == trace_cause(log, label_at(log, e)),
        cause matches Some(c) ==> in_log(log, c) ==> (done + first.1).contains(c),
        e.index > 0 ==> done.contains(nth(e.thread, e.index - 1)),
        traced(log, clock, done, first),
        traced(log, first.0, done + first.1.push(e), second),
    ensures
        traced(log, clock, done, (second.0, first.1.push(e) + second.1)),
{
    let (mid, before) = first;
    let (last, after) = second;
    let all = before.push(e) + after;
    let done1 = done + before.push(e);
    assert forall|x: Event| in_log(log, x) implies (#[trigger] covers(last, x) <==> covers(clock, x)
        || all.contains(x)) by {
        lemma_between(before, e, after, x);
        assert(covers(last, x) <==> covers(mid, x) || after.contains(x));
        assert(covers(mid, x) <==> covers(clock, x) || before.contains(x));
    }
    assert forall|k: int| 0 <= k < all.len() implies in_log(log, #[trigger] all[k]) by {
        if k < before.len() {
            assert(all[k] == before[k]);
        } else if k > before.len() {
            assert(all[k] == after[k - before.len() - 1]);
        }
    }
    assert forall|k: int, x: Event|
        0 <= k < all.len() && #[trigger] traced_before(log, x, all[k]) implies (done + all.take(
        k,
    )).contains(x) by {
        if k < before.len() {
            assert(all[k] == before[k]);
            assert(all.take(k) =~= before.take(k));
        } else if k == before.len() {
            assert(all.take(k) =~= before);
            let at = index_of(log, e);
            assert(log[at].pos == e);
            lemma_index_of(log, at);
            lemma_trace_cause(log, at, x);
            if cause != Some(x) {
                assert(x == nth(e.thread, e.index - 1));
                let m = choose|m: int| 0 <= m < done.len() && done[m] == x;
                assert((done + before)[m] == x);
            }
        } else {
            let m = k - before.len() - 1;
            assert(all[k] == after[m]);
            assert(done + all.take(k) =~= done1 + after.take(m));
        }
    }
}

/// The trace of an execution that leads to an event ends with that event, and in a graph
/// without cycles holds exactly what must be traced before it, each behind what is traced
/// before it.
pub proof fn law_traces_tell_what_led_there(
    log: Seq<LabelView>,
    e: Event,
    rank: spec_fn(Event) -> nat,
)
    requires
        log_wf(log),
        forall|t: ThreadId| #[trigger] thread_size(log, t) <= u32::MAX,
        is_rank(log, rank),
        in_log(log, e),
    ensures
        ({
            let trace = trace_of(log, Some(e));
            &&& trace.len() > 0 && trace.last() == e
            &&& forall|k: int| 0 <= k < trace.len() ==> in_log(log, #[trigger] trace[k])
            &&& forall|k: int, x: Event|
                0 <= k < trace.len() && #[trigger] traced_before(log, x, trace[k]) ==> trace.take(
                    k,
                ).contains(x)
            &&& forall|x: Event, clock: Map<ThreadId, u32>|
                #![trigger trace.contains(x), closed_for_traces(log, clock)]
                trace.contains(x) && closed_for_traces(log, clock) && covers(clock, e) ==> covers(
                    clock,
                    x,
                )
        }),
{
    let start = Map::<ThreadId, u32>::empty();
    let none = Seq::<Event>::empty();
    let r = trace_event(log, start, e);
    let trace = trace_of(log, Some(e));
    let one = seq![e];
    assert(trace_all(log, one, 0) == (start, none));
    assert(trace_all(log, one, 1) == (r.0, none + r.1));
    assert(none + r.1 =~= r.1);
    assert(trace == r.1);
    lemma_event_traced(log, start, e, none, rank);
    assert forall|k: int, x: Event|
        0 <= k < trace.len() && #[trigger] traced_before(log, x, trace[k]) implies trace.take(
        k,
    ).contains(x) by {
        assert(none + trace.take(k) =~= trace.take(k));
    }
    assert forall|x: Event, clock: Map<ThreadId, u32>|
        #![trigger trace.contains(x), closed_for_traces(log, clock)]
        trace.contains(x) && closed_for_traces(log, clock) && covers(clock, e) implies covers(
        clock,
        x,
    ) by {
        assert(below(start, clock));
        assert(below(r.0, clock));
        let k = choose|k: int| 0 <= k < trace.len() && trace[k] == x;
        assert(in_log(log, trace[k]));
        assert(covers(r.0, x));
    }
}

} // verus!
