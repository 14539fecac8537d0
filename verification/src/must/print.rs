//! What the exploration tells about itself.

use crate::debug::tikz_log::{format_label, label_text};
use crate::event::{Event, ThreadId};
use crate::event_label::{KindView, LabelKind, LabelView};
use crate::exec_graph::{
    comes_before, has_thread, in_log, index_of, label_at, last_label, last_place,
    lemma_last_place, lemma_outside, outside, threads_upto, ExecutionGraph,
};
use crate::loc::RecvPredicate;
use crate::must::handle::readers_of;
use crate::must::{log_of, Must};
use crate::revisit::{PlacementView, Revisit, RevisitEnum, RevisitPlacement, RevisitView};
use crate::text::{
    decimal, decimal_of, event_name, event_set_text, event_text, fmt_event_set, thread_name,
    thread_text,
};
use crate::thread_map::{entries_map, keys_ascend};
use crate::vector_clock::{clock_with, covers, VectorClock};
use vstd::prelude::*;
use vstd::string::*;

verus! {

/// What a revisit makes its event read.
pub open spec fn placement_text(placement: PlacementView) -> Seq<char> {
    match placement {
        PlacementView::Default(e) => event_text(e),
        PlacementView::Inbox(es) => event_set_text(es),
    }
}

/// A revisit in words.
pub open spec fn revisit_text(r: RevisitView) -> Seq<char> {
    (if r.backward {
        "backward "@
    } else {
        "forward "@
    }) + event_text(r.pos) + " <= "@ + placement_text(r.rev)
}

pub fn fmt_revisit_placement(placement: &RevisitPlacement) -> (s: String)
    ensures
        s@ == placement_text(placement@),
{
    match placement {
        RevisitPlacement::Default(e) => event_name(*e),
        RevisitPlacement::Inbox(es) => fmt_event_set(es),
    }
}

fn describe(kind: &str, r: &Revisit) -> (s: String)
    ensures
        s@ == kind@ + event_text(r.pos) + " <= "@ + placement_text(r.rev@),
{
    let mut s = String::from_str(kind);
    s.append(event_name(r.pos).as_str());
    s.append(" <= ");
    s.append(fmt_revisit_placement(&r.rev).as_str());
    s
}

pub fn describe_revisit_item(rev: &RevisitEnum) -> (s: String)
    ensures
        s@ == revisit_text(rev@),
{
    match rev {
        RevisitEnum::ForwardRevisit(r) => describe("forward ", r),
        RevisitEnum::BackwardRevisit(r) => describe("backward ", r),
    }
}

/// The progress of the exploration in words. `speed` is what follows the counts.
pub open spec fn progress_text(execs: u64, blocked: u64, speed: Seq<char>) -> Seq<char> {
    "Executions attempted so far: "@ + decimal_of((execs + blocked) as nat) + " total "@ + decimal_of(
        execs as nat,
    ) + " finished normally "@ + decimal_of(blocked as nat) + " blocked"@ + speed + "."@
}

pub fn progress_line(execs: u64, blocked: u64, speed: &str) -> (s: String)
    ensures
        s@ == progress_text(execs, blocked, speed@),
{
    let mut s = String::from_str("Executions attempted so far: ");
    s.append(decimal(execs as u128 + blocked as u128).as_str());
    s.append(" total ");
    s.append(decimal(execs as u128).as_str());
    s.append(" finished normally ");
    s.append(decimal(blocked as u128).as_str());
    s.append(" blocked");
    s.append(speed);
    s.append(".");
    s
}

/// Whether `x` belongs to what is shown: what comes before `error`, or everything.
pub open spec fn shown(log: Seq<LabelView>, error: Option<Event>, x: Event) -> bool {
    match error {
        Some(e) => comes_before(log, seq![e], x),
        None => exists|i: int|
            0 <= i < log.len() && (#[trigger] log[i]).pos.thread == x.thread && x.index
                <= log[i].pos.index,
    }
}

/// Whether `entries` are, thread by thread, the last events shown.
pub open spec fn shows(
    log: Seq<LabelView>,
    error: Option<Event>,
    entries: Seq<(ThreadId, u32)>,
) -> bool {
    keys_ascend(entries) && forall|x: Event| #[trigger]
        covers(entries_map(entries), x) <==> shown(log, error, x)
}

/// The node of an event. The event at which the error occurred stands out.
pub open spec fn dot_node(log: Seq<LabelView>, error: Option<Event>, e: Event) -> Seq<char> {
    if in_log(log, e) {
        "\t\""@ + event_text(e) + "\" [label=<"@ + label_text(log, label_at(log, e)) + ">"@ + (if error
            == Some(e) {
            ",style=filled,fillcollor=yellow"@
        } else {
            ""@
        }) + "]\n"@
    } else {
        Seq::empty()
    }
}

/// The nodes of the events from 1 to before `n` of a thread.
pub open spec fn dot_nodes(
    log: Seq<LabelView>,
    error: Option<Event>,
    t: ThreadId,
    n: nat,
) -> Seq<char>
    decreases n,
{
    if n <= 1 {
        Seq::empty()
    } else {
        dot_nodes(log, error, t, (n - 1) as nat) + dot_node(
            log,
            error,
            Event { thread: t, index: (n - 1) as u32 },
        )
    }
}

/// The box of a thread.
pub open spec fn dot_cluster(
    log: Seq<LabelView>,
    error: Option<Event>,
    entry: (ThreadId, u32),
) -> Seq<char> {
    "subgraph cluster_"@ + thread_text(entry.0) + " {\n\tlabel=\"thread "@ + thread_text(entry.0)
        + "\"\n"@ + dot_nodes(log, error, entry.0, entry.1 as nat) + "}\n"@
}

/// The boxes of the first `n` threads.
pub open spec fn dot_clusters(
    log: Seq<LabelView>,
    error: Option<Event>,
    entries: Seq<(ThreadId, u32)>,
    n: nat,
) -> Seq<char>
    decreases n,
{
    if n == 0 {
        Seq::empty()
    } else {
        dot_clusters(log, error, entries, (n - 1) as nat) + dot_cluster(log, error, entries[n - 1])
    }
}

/// The edges at an event: to the next one of its thread, and from the send it reads.
pub open spec fn dot_edge(log: Seq<LabelView>, e: Event, last: u32) -> Seq<char> {
    (if e.index < last {
        "\""@ + event_text(e) + "\" -> \""@ + event_text(
            Event { thread: e.thread, index: (e.index + 1) as u32 },
        ) + "\"\n"@
    } else {
        ""@
    }) + (if in_log(log, e) {
        match label_at(log, e).kind {
            KindView::Recv { rf: Some(send), .. } => "\""@ + event_text(send) + "\" -> \""@
                + event_text(e) + "\"[color=green]\n"@,
            _ => ""@,
        }
    } else {
        ""@
    })
}

/// The edges at the events from 1 to `n` of a thread.
pub open spec fn dot_edges(log: Seq<LabelView>, t: ThreadId, last: u32, n: nat) -> Seq<char>
    decreases n,
{
    if n == 0 {
        Seq::empty()
    } else {
        dot_edges(log, t, last, (n - 1) as nat) + dot_edge(
            log,
            Event { thread: t, index: n as u32 },
            last,
        )
    }
}

/// The edges at the events of the first `n` threads.
pub open spec fn dot_all_edges(
    log: Seq<LabelView>,
    entries: Seq<(ThreadId, u32)>,
    n: nat,
) -> Seq<char>
    decreases n,
{
    if n == 0 {
        Seq::empty()
    } else {
        let entry = entries[n - 1];
        dot_all_edges(log, entries, (n - 1) as nat) + dot_edges(
            log,
            entry.0,
            entry.1,
            entry.1 as nat,
        )
    }
}

/// A graph for the dot program.
pub open spec fn dot_of(
    log: Seq<LabelView>,
    error: Option<Event>,
    entries: Seq<(ThreadId, u32)>,
) -> Seq<char> {
    "strict digraph {\nnode [shape=plaintext]\nlabeljust=l\nsplines=false\n"@ + dot_clusters(
        log,
        error,
        entries,
        entries.len(),
    ) + dot_all_edges(log, entries, entries.len()) + "}\n"@
}

fn write_dot_node(g: &ExecutionGraph, error: Option<Event>, e: Event) -> (s: String)
    requires
        g.wf(),
    ensures
        s@ == dot_node(g@.log, error, e),
{
    match g.label_opt(e) {
        Some(l) => {
            let mut s = String::from_str("\t\"");
            s.append(event_name(e).as_str());
            s.append("\" [label=<");
            s.append(format_label(g, l).as_str());
            s.append(">");
            s.append(if error == Some(e) {
                ",style=filled,fillcollor=yellow"
            } else {
                ""
            });
            s.append("]\n");
            s
        },
        None => {
            let s = String::new();
            assert(s@ =~= Seq::<char>::empty());
            s
        },
    }
}

fn write_dot_cluster(g: &ExecutionGraph, error: Option<Event>, t: ThreadId, ind: u32) -> (s: String)
    requires
        g.wf(),
    ensures
        s@ == dot_cluster(g@.log, error, (t, ind)),
{
    let mut nodes = String::new();
    assert(nodes@ =~= Seq::<char>::empty());
    let mut j: u32 = 1;
    while j < ind
        invariant
            g.wf(),
            1 <= j,
            ind >= 1 ==> j <= ind,
            nodes@ == dot_nodes(g@.log, error, t, j as nat),
            ind < 1 ==> j == 1,
        decreases ind - j,
    {
        nodes.append(write_dot_node(g, error, Event::new(t, j)).as_str());
        j += 1;
    }
    assert(dot_nodes(g@.log, error, t, 0) == dot_nodes(g@.log, error, t, 1));
    let mut s = String::from_str("subgraph cluster_");
    s.append(thread_name(t).as_str());
    s.append(" {\n\tlabel=\"thread ");
    s.append(thread_name(t).as_str());
    s.append("\"\n");
    s.append(nodes.as_str());
    s.append("}\n");
    s
}

fn write_dot_edge(g: &ExecutionGraph, e: Event, last: u32) -> (s: String)
    requires
        g.wf(),
    ensures
        s@ == dot_edge(g@.log, e, last),
{
    let mut s = if e.index < last {
        let mut s = String::from_str("\"");
        s.append(event_name(e).as_str());
        s.append("\" -> \"");
        s.append(event_name(e.next()).as_str());
        s.append("\"\n");
        s
    } else {
        String::from_str("")
    };
    let read = match g.label_opt(e) {
        Some(l) => match &l.kind {
            LabelKind::Recv { rf, .. } => *rf,
            _ => None,
        },
        None => None,
    };
    match read {
        Some(send) => {
            let mut edge = String::from_str("\"");
            edge.append(event_name(send).as_str());
            edge.append("\" -> \"");
            edge.append(event_name(e).as_str());
            edge.append("\"[color=green]\n");
            s.append(edge.as_str());
        },
        None => {
            s.append("");
        },
    }
    s
}

fn write_dot_edges(g: &ExecutionGraph, t: ThreadId, last: u32) -> (s: String)
    requires
        g.wf(),
    ensures
        s@ == dot_edges(g@.log, t, last, last as nat),
{
    let mut s = String::new();
    assert(s@ =~= Seq::<char>::empty());
    let mut j: u32 = 0;
    while j < last
        invariant
            g.wf(),
            j <= last,
            s@ == dot_edges(g@.log, t, last, j as nat),
        decreases last - j,
    {
        j += 1;
        s.append(write_dot_edge(g, Event::new(t, j), last).as_str());
    }
    s
}

/// The event, besides the one before in its thread, that an event comes after as far
/// as traces go.
pub open spec fn trace_cause(log: Seq<LabelView>, l: LabelView) -> Option<Event> {
    match l.kind {
        KindView::Recv { rf, .. } => rf,
        KindView::TJoin { cid } => if has_thread(log, cid) {
            Some(last_label(log, cid).pos)
        } else {
            None
        },
        KindView::Begin { parent, .. } => parent,
        _ => None,
    }
}

/// The index from which the thread of `e` is traced.
pub open spec fn trace_start(clock: Map<ThreadId, u32>, t: ThreadId) -> u32 {
    if clock.dom().contains(t) {
        clock[t]
    } else {
        0
    }
}

/// What is traced, starting from `clock`, when `e` is to be traced, and the clock
/// then. What an event comes after is traced before it.
pub open spec fn trace_event(log: Seq<LabelView>, clock: Map<ThreadId, u32>, e: Event) -> (
    Map<ThreadId, u32>,
    Seq<Event>,
)
    decreases outside(log, clock, log.len()), 0int, 0int,
{
    if covers(clock, e) || !in_log(log, e) {
        (clock, Seq::empty())
    } else {
        let next = clock_with(clock, e);
        if outside(log, next, log.len()) < outside(log, clock, log.len()) {
            trace_thread(log, next, e.thread, trace_start(clock, e.thread) as int, e.index as int)
        } else {
            (next, Seq::empty())
        }
    }
}

/// What is traced when the events `i` to `end` of a thread are to be traced.
pub open spec fn trace_thread(
    log: Seq<LabelView>,
    clock: Map<ThreadId, u32>,
    t: ThreadId,
    i: int,
    end: int,
) -> (Map<ThreadId, u32>, Seq<Event>)
    decreases outside(log, clock, log.len()), 1int, end - i + 1,
{
    if i > end {
        (clock, Seq::empty())
    } else {
        let e = Event { thread: t, index: i as u32 };
        let (mid, before) = match (if in_log(log, e) {
            trace_cause(log, label_at(log, e))
        } else {
            None
        }) {
            Some(c) => trace_event(log, clock, c),
            None => (clock, Seq::empty()),
        };
        if outside(log, mid, log.len()) <= outside(log, clock, log.len()) {
            let (last, after) = trace_thread(log, mid, t, i + 1, end);
            (last, before.push(e) + after)
        } else {
            (mid, before.push(e))
        }
    }
}

/// Tracing only adds to the clock.
pub proof fn lemma_trace_event(log: Seq<LabelView>, clock: Map<ThreadId, u32>, e: Event)
    ensures
        forall|x: Event| covers(clock, x) ==> #[trigger] covers(trace_event(log, clock, e).0, x),
        outside(log, trace_event(log, clock, e).0, log.len()) <= outside(log, clock, log.len()),
        in_log(log, e) && !covers(clock, e) ==> outside(log, clock_with(clock, e), log.len())
            < outside(log, clock, log.len()),
    decreases outside(log, clock, log.len()), 0int, 0int,
{
    if !covers(clock, e) && in_log(log, e) {
        let next = clock_with(clock, e);
        let k = index_of(log, e);
        assert(log[k].pos == e);
        assert forall|x: Event| covers(clock, x) implies covers(next, x) by {}
        lemma_outside(log, clock, next, k, log.len());
        lemma_trace_thread(
            log,
            next,
            e.thread,
            trace_start(clock, e.thread) as int,
            e.index as int,
        );
        let after = trace_event(log, clock, e).0;
        assert forall|x: Event| covers(clock, x) implies #[trigger] covers(after, x) by {
            assert(covers(next, x));
        }
    }
}

proof fn lemma_trace_thread(
    log: Seq<LabelView>,
    clock: Map<ThreadId, u32>,
    t: ThreadId,
    i: int,
    end: int,
)
    ensures
        forall|x: Event|
            covers(clock, x) ==> #[trigger] covers(trace_thread(log, clock, t, i, end).0, x),
        outside(log, trace_thread(log, clock, t, i, end).0, log.len()) <= outside(
            log,
            clock,
            log.len(),
        ),
    decreases outside(log, clock, log.len()), 1int, end - i + 1,
{
    if i <= end {
        let e = Event { thread: t, index: i as u32 };
        let cause = if in_log(log, e) {
            trace_cause(log, label_at(log, e))
        } else {
            None
        };
        let mid = match cause {
            Some(c) => trace_event(log, clock, c).0,
            None => clock,
        };
        if let Some(c) = cause {
            lemma_trace_event(log, clock, c);
        }
        lemma_trace_thread(log, mid, t, i + 1, end);
        let after = trace_thread(log, clock, t, i, end).0;
        assert forall|x: Event| covers(clock, x) implies #[trigger] covers(after, x) by {
            assert(covers(mid, x));
        }
    }
}

/// What is traced for the first `n` of `ends`, and the clock then.
pub open spec fn trace_all(log: Seq<LabelView>, ends: Seq<Event>, n: nat) -> (
    Map<ThreadId, u32>,
    Seq<Event>,
)
    decreases n,
{
    if n == 0 {
        (Map::empty(), Seq::empty())
    } else {
        let (clock, before) = trace_all(log, ends, (n - 1) as nat);
        let (next, after) = trace_event(log, clock, ends[n - 1]);
        (next, before + after)
    }
}

/// Whether a trace ends at the last event of thread `t`: it is no send, or one that
/// nobody reads.
pub open spec fn is_trace_end(log: Seq<LabelView>, t: ThreadId) -> bool {
    has_thread(log, t) && (last_label(log, t).kind is Send ==> readers_of(
        log,
        last_label(log, t).pos,
    ).len() == 0)
}

/// The events at which the traces of the first `n` threads end.
pub open spec fn trace_ends(log: Seq<LabelView>, threads: Seq<ThreadId>, n: nat) -> Seq<Event>
    decreases n,
{
    if n == 0 {
        Seq::empty()
    } else if is_trace_end(log, threads[n - 1]) {
        trace_ends(log, threads, (n - 1) as nat).push(last_label(log, threads[n - 1]).pos)
    } else {
        trace_ends(log, threads, (n - 1) as nat)
    }
}

/// The events of the trace of a graph, or of what leads to `error`.
pub open spec fn trace_of(log: Seq<LabelView>, error: Option<Event>) -> Seq<Event> {
    match error {
        Some(e) => trace_all(log, seq![e], 1).1,
        None => {
            let threads = threads_upto(log, log.len());
            let ends = trace_ends(log, threads, threads.len());
            trace_all(log, ends, ends.len()).1
        },
    }
}

/// The lines for the first `n` of `events`.
pub open spec fn trace_lines(log: Seq<LabelView>, events: Seq<Event>, n: nat) -> Seq<char>
    decreases n,
{
    if n == 0 {
        Seq::empty()
    } else {
        trace_lines(log, events, (n - 1) as nat) + (if in_log(log, events[n - 1]) {
            label_text(log, label_at(log, events[n - 1]))
        } else {
            ""@
        }) + "\n"@
    }
}

impl ExecutionGraph {
    fn trace_cause_of(&self, e: Event) -> (r: Option<Event>)
        requires
            self.wf(),
        ensures
            r == (if in_log(self@.log, e) {
                trace_cause(self@.log, label_at(self@.log, e))
            } else {
                None
            }),
    {
        match self.label_opt(e) {
            Some(l) => match &l.kind {
                LabelKind::Recv { rf, .. } => *rf,
                LabelKind::TJoin { cid } => match self.thread_last(*cid) {
                    Some(last) => Some(last.pos),
                    None => None,
                },
                LabelKind::Begin { parent, .. } => *parent,
                _ => None,
            },
            None => None,
        }
    }

    /// Traces `e`, after what it comes after.
    fn trace_into(&self, clock: &mut VectorClock, e: Event, out: &mut Vec<Event>)
        requires
            self.wf(),
            old(clock).wf(),
        ensures
            final(clock).wf(),
            final(clock)@ == trace_event(self@.log, old(clock)@, e).0,
            final(out)@ == old(out)@ + trace_event(self@.log, old(clock)@, e).1,
        decreases outside(self@.log, old(clock)@, self@.log.len()), 0int, 0int,
    {
        let ghost log = self@.log;
        let ghost start = clock@;
        let ghost before = out@;
        if clock.contains(e) || !self.contains(e) {
            assert(before + Seq::<Event>::empty() =~= before);
            return ;
        }
        let from = match clock.get(e.thread) {
            Some(i) => i,
            None => 0,
        };
        clock.update_or_set(e);
        proof {
            lemma_trace_event(log, start, e);
            assert(from as int <= e.index as int + 1);
        }
        self.trace_range(clock, e.thread, from, e.index, out);
    }

    fn trace_range(
        &self,
        clock: &mut VectorClock,
        t: ThreadId,
        from: u32,
        end: u32,
        out: &mut Vec<Event>,
    )
        requires
            self.wf(),
            old(clock).wf(),
        ensures
            final(clock).wf(),
            final(clock)@ == trace_thread(
                self@.log,
                old(clock)@,
                t,
                from as int,
                end as int,
            ).0,
            final(out)@ == old(out)@ + trace_thread(
                self@.log,
                old(clock)@,
                t,
                from as int,
                end as int,
            ).1,
        decreases
                outside(self@.log, old(clock)@, self@.log.len()),
                1int,
                (end - from + 1) as int,
    {
        let ghost log = self@.log;
        let ghost start = clock@;
        let ghost before = out@;
        if from > end {
            assert(before + Seq::<Event>::empty() =~= before);
            return ;
        }
        let e = Event::new(t, from);
        let cause = self.trace_cause_of(e);
        let ghost mid = match cause {
            Some(c) => trace_event(log, start, c),
            None => (start, Seq::<Event>::empty()),
        };
        if let Some(c) = cause {
            proof {
                lemma_trace_event(log, start, c);
            }
            self.trace_into(clock, c, out);
        } else {
            assert(before + Seq::<Event>::empty() =~= before);
        }
        assert(clock@ == mid.0);
        assert(out@ == before + mid.1);
        out.push(e);
        let ghost pushed = out@;
        assert(pushed =~= before + mid.1.push(e));
        if from < u32::MAX {
            self.trace_range(clock, t, from + 1, end, out);
            proof {
                let rest = trace_thread(log, mid.0, t, from + 1, end as int).1;
                assert(pushed + rest =~= before + (mid.1.push(e) + rest));
            }
        } else {
            proof {
                let rest = trace_thread(log, mid.0, t, from + 1, end as int).1;
                assert(rest =~= Seq::<Event>::empty());
                assert(mid.1.push(e) + rest =~= mid.1.push(e));
            }
        }
    }
}

impl<P: RecvPredicate> Must<P> {
    /// The current graph for the dot program, or what leads to `error`.
    pub fn print_graph_dot(&self, error: Option<Event>) -> (out: String)
        requires
            self.wf(),
        ensures
            exists|entries: Seq<(ThreadId, u32)>| #[trigger]
                shows(log_of(self@), error, entries) && out@ == dot_of(
                    log_of(self@),
                    error,
                    entries,
                ),
    {
        let g = &self.current.graph;
        let ghost log = log_of(self@);
        let clock = match error {
            Some(e) => {
                let mut seeds: Vec<Event> = Vec::new();
                seeds.push(e);
                assert(seeds@ =~= seq![e]);
                g.porf(&seeds)
            },
            None => self.whole_clock(),
        };
        let entries = clock.entries();
        proof {
            clock.lemma_listed();
            assert(shows(log, error, entries@)) by {
                assert forall|x: Event| #[trigger]
                    covers(entries_map(entries@), x) <==> shown(log, error, x) by {
                    assert(covers(clock@, x) <==> shown(log, error, x));
                }
            }
        }
        let mut clusters = String::new();
        let mut edges = String::new();
        assert(clusters@ =~= Seq::<char>::empty());
        assert(edges@ =~= Seq::<char>::empty());
        let mut i: usize = 0;
        while i < entries.len()
            invariant
                g.wf(),
                g@.log == log,
                i <= entries.len(),
                clusters@ == dot_clusters(log, error, entries@, i as nat),
                edges@ == dot_all_edges(log, entries@, i as nat),
            decreases entries.len() - i,
        {
            let (t, ind) = (entries[i].0, entries[i].1);
            clusters.append(write_dot_cluster(g, error, t, ind).as_str());
            edges.append(write_dot_edges(g, t, ind).as_str());
            i += 1;
        }
        let mut out = String::from_str(
            "strict digraph {\nnode [shape=plaintext]\nlabeljust=l\nsplines=false\n",
        );
        out.append(clusters.as_str());
        out.append(edges.as_str());
        out.append("}\n");
        out
    }

    /// The clock that holds all events of the current graph.
    fn whole_clock(&self) -> (clock: VectorClock)
        ensures
            clock.wf(),
            forall|x: Event| #[trigger]
                covers(clock@, x) <==> shown(log_of(self@), None, x),
    {
        let ghost log = log_of(self@);
        let mut clock = VectorClock::new();
        let mut i: usize = 0;
        while i < self.current.graph.len()
            invariant
                log == log_of(self@),
                i <= log.len(),
                clock.wf(),
                forall|x: Event| #[trigger]
                    covers(clock@, x) <==> exists|k: int|
                        0 <= k < i && (#[trigger] log[k]).pos.thread == x.thread && x.index
                            <= log[k].pos.index,
            decreases log.len() - i,
        {
            let ghost before = clock@;
            let pos = self.current.graph.label_in(i).pos;
            clock.update_or_set(pos);
            proof {
                assert(log[i as int].pos == pos);
                assert forall|x: Event| #[trigger]
                    covers(clock@, x) <==> exists|k: int|
                        0 <= k < i + 1 && (#[trigger] log[k]).pos.thread == x.thread && x.index
                            <= log[k].pos.index by {
                    assert(covers(before, x) <==> exists|k: int|
                        0 <= k < i && (#[trigger] log[k]).pos.thread == x.thread && x.index
                            <= log[k].pos.index);
                    assert(covers(before, pos) || !covers(before, pos));
                    if covers(clock@, x) && !covers(before, x) {
                        assert(log[i as int].pos.thread == x.thread);
                    }
                    if x.thread == pos.thread && x.index <= pos.index {
                        if covers(before, pos) {
                            assert(covers(before, x));
                        }
                    }
                }
            }
            i += 1;
        }
        clock
    }

    /// The events of the trace of the current graph, or of what leads to `error`.
    pub fn trace_events(&self, error: Option<Event>) -> (out: Vec<Event>)
        requires
            self.wf(),
        ensures
            out@ == trace_of(log_of(self@), error),
    {
        let g = &self.current.graph;
        let ghost log = log_of(self@);
        let mut ends: Vec<Event> = Vec::new();
        match error {
            Some(e) => {
                ends.push(e);
                assert(ends@ =~= seq![e]);
            },
            None => {
                let threads = g.thread_ids();
                let mut i: usize = 0;
                while i < threads.len()
                    invariant
                        self.wf(),
                        g.wf(),
                        g@.log == log,
                        g@ == self@.current.graph,
                        i <= threads.len(),
                        ends@ == trace_ends(log, threads@, i as nat),
                    decreases threads.len() - i,
                {
                    if let Some(last) = g.thread_last(threads[i]) {
                        let is_send = matches!(last.kind, LabelKind::Send { .. });
                        proof {
                            lemma_last_place(log, threads@[i as int], log.len());
                            assert(log[last_place(log, threads@[i as int], log.len()) - 1].pos
                                == last.pos);
                        }
                        if !is_send || self.readers(last.pos).len() == 0 {
                            ends.push(last.pos);
                        }
                    }
                    i += 1;
                }
            },
        }
        let mut clock = VectorClock::new();
        let mut out: Vec<Event> = Vec::new();
        assert(out@ =~= Seq::<Event>::empty());
        let mut k: usize = 0;
        while k < ends.len()
            invariant
                g.wf(),
                g@.log == log,
                k <= ends.len(),
                clock.wf(),
                (clock@, out@) == trace_all(log, ends@, k as nat),
            decreases ends.len() - k,
        {
            g.trace_into(&mut clock, ends[k], &mut out);
            k += 1;
        }
        out
    }

    /// The trace of the current graph, or of what leads to `error`.
    pub fn print_graph_trace(&self, error: Option<Event>) -> (out: String)
        requires
            self.wf(),
        ensures
            out@ == trace_lines(
                log_of(self@),
                trace_of(log_of(self@), error),
                trace_of(log_of(self@), error).len(),
            ) + "\n"@,
    {
        let events = self.trace_events(error);
        let g = &self.current.graph;
        let ghost log = log_of(self@);
        let mut out = String::new();
        assert(out@ =~= Seq::<char>::empty());
        let mut i: usize = 0;
        while i < events.len()
            invariant
                g.wf(),
                g@.log == log,
                i <= events.len(),
                out@ == trace_lines(log, events@, i as nat),
            decreases events.len() - i,
        {
            match g.label_opt(events[i]) {
                Some(l) => out.append(format_label(g, l).as_str()),
                None => out.append(""),
            }
            out.append("\n");
            i += 1;
        }
        out.append("\n");
        out
    }

    /// The labels of the current graph, one per line.
    pub fn print_graph(&self) -> (out: String)
        requires
            self.wf(),
        ensures
            out@ == graph_lines(log_of(self@), log_of(self@).len()),
    {
        let g = &self.current.graph;
        let ghost log = log_of(self@);
        let mut out = String::new();
        assert(out@ =~= Seq::<char>::empty());
        let mut i: usize = 0;
        while i < g.len()
            invariant
                g@.log == log,
                i <= log.len(),
                out@ == graph_lines(log, i as nat),
            decreases log.len() - i,
        {
            out.append(format_label(g, g.label_in(i)).as_str());
            out.append("\n");
            i += 1;
        }
        out
    }
}

/// The lines for the first `n` labels.
pub open spec fn graph_lines(log: Seq<LabelView>, n: nat) -> Seq<char>
    decreases n,
{
    if n == 0 {
        Seq::empty()
    } else {
        graph_lines(log, (n - 1) as nat) + label_text(log, log[n - 1]) + "\n"@
    }
}

} // verus!
