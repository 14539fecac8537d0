//! Execution graphs as TikZ pictures.

use crate::event::{Event, ThreadId};
use crate::event_label::{BlockType, KindView, Label, LabelKind, LabelView};
use crate::exec_graph::{
    first_event, has_thread, in_log, label_at, last_label, previous, threads_upto, ExecutionGraph,
};
use crate::loc::thread_in;
use crate::text::{
    decimal, decimal_of, event_name, event_text, halves, halves_of, is_white, thread_name,
    thread_text, white,
};
use vstd::prelude::*;
use vstd::string::*;

verus! {

/// The thread of the first of the first `n` labels that reads `send` and belongs, or
/// does not belong, to one of `threads`.
pub open spec fn reader_among(
    log: Seq<LabelView>,
    send: Event,
    threads: Seq<ThreadId>,
    inside: bool,
    n: nat,
) -> Option<ThreadId>
    decreases n,
{
    if n == 0 {
        None
    } else {
        match reader_among(log, send, threads, inside, (n - 1) as nat) {
            Some(t) => Some(t),
            None => if log[n - 1].reads(send) && threads.contains(log[n - 1].pos.thread)
                == inside {
                Some(log[n - 1].pos.thread)
            } else {
                None
            },
        }
    }
}

/// The thread that received the message of `l`: its reader, else a monitor.
pub open spec fn target_of(log: Seq<LabelView>, l: LabelView) -> Option<ThreadId> {
    match l.kind {
        KindView::Send { monitors, .. } => match reader_among(
            log,
            l.pos,
            monitors,
            false,
            log.len(),
        ) {
            Some(t) => Some(t),
            None => reader_among(log, l.pos, monitors, true, log.len()),
        },
        _ => None,
    }
}

/// What a block is called.
pub open spec fn block_text(btype: BlockType) -> Seq<char> {
    match btype {
        BlockType::Join(t) => "!TJOIN("@ + thread_text(t) + ")"@,
        BlockType::Value(_, _) => "!R()"@,
        BlockType::Assume => "!Assume"@,
        BlockType::Assert => "!Assert"@,
    }
}

/// What an event did, without its position.
pub open spec fn action_text(log: Seq<LabelView>, l: LabelView) -> Seq<char> {
    match l.kind {
        KindView::Begin { .. } => "Begin"@,
        KindView::End { .. } => "End"@,
        KindView::TCreate { cid, .. } => "TCREATE("@ + thread_text(cid) + ")"@,
        KindView::TJoin { cid } => "TJOIN("@ + thread_text(cid) + ")"@,
        KindView::Recv { .. } => "R()"@,
        KindView::Send { .. } => match target_of(log, l) {
            Some(t) => "S("@ + thread_text(t) + ")"@,
            None => "S(?)"@,
        },
        KindView::Inbox { .. } => "INBOX"@,
        KindView::Block { btype } => block_text(btype),
        KindView::CToss { result } => if result {
            "CTOSS(true)"@
        } else {
            "CTOSS(false)"@
        },
        KindView::Choice { result, .. } => "CHOICE("@ + decimal_of(result as nat) + ")"@,
        KindView::Sample { .. } => "SAMPLE"@,
        KindView::Unique { .. } => "UNIQUE"@,
    }
}

/// What an event did: its position and its action. A block stands alone.
pub open spec fn label_text(log: Seq<LabelView>, l: LabelView) -> Seq<char> {
    if l.kind is Block {
        action_text(log, l)
    } else {
        event_text(l.pos) + ": "@ + action_text(log, l)
    }
}

fn find_reader(
    graph: &ExecutionGraph,
    send: Event,
    threads: &Vec<ThreadId>,
    inside: bool,
) -> (r: Option<ThreadId>)
    ensures
        r == reader_among(graph@.log, send, threads@, inside, graph@.log.len()),
{
    let mut found: Option<ThreadId> = None;
    let mut i: usize = 0;
    while i < graph.len()
        invariant
            i <= graph@.log.len(),
            found == reader_among(graph@.log, send, threads@, inside, i as nat),
        decreases graph@.log.len() - i,
    {
        let l = graph.label_in(i);
        if found.is_none() && l.reads_from(send) && thread_in(threads, l.pos.thread) == inside {
            found = Some(l.pos.thread);
        }
        i += 1;
    }
    found
}

fn format_block(btype: BlockType) -> (s: String)
    ensures
        s@ == block_text(btype),
{
    match btype {
        BlockType::Join(t) => {
            let mut s = String::from_str("!TJOIN(");
            s.append(thread_name(t).as_str());
            s.append(")");
            s
        },
        BlockType::Value(_, _) => String::from_str("!R()"),
        BlockType::Assume => String::from_str("!Assume"),
        BlockType::Assert => String::from_str("!Assert"),
    }
}

fn format_action(graph: &ExecutionGraph, l: &Label) -> (s: String)
    ensures
        s@ == action_text(graph@.log, l@),
{
    match &l.kind {
        LabelKind::Begin { .. } => String::from_str("Begin"),
        LabelKind::End { .. } => String::from_str("End"),
        LabelKind::TCreate { cid, .. } => {
            let mut s = String::from_str("TCREATE(");
            s.append(thread_name(*cid).as_str());
            s.append(")");
            s
        },
        LabelKind::TJoin { cid } => {
            let mut s = String::from_str("TJOIN(");
            s.append(thread_name(*cid).as_str());
            s.append(")");
            s
        },
        LabelKind::Recv { .. } => String::from_str("R()"),
        LabelKind::Send { monitors, .. } => {
            let target = match find_reader(graph, l.pos, monitors, false) {
                Some(t) => Some(t),
                None => find_reader(graph, l.pos, monitors, true),
            };
            match target {
                Some(t) => {
                    let mut s = String::from_str("S(");
                    s.append(thread_name(t).as_str());
                    s.append(")");
                    s
                },
                None => String::from_str("S(?)"),
            }
        },
        LabelKind::Inbox { .. } => String::from_str("INBOX"),
        LabelKind::Block { btype } => format_block(*btype),
        LabelKind::CToss { result } => if *result {
            String::from_str("CTOSS(true)")
        } else {
            String::from_str("CTOSS(false)")
        },
        LabelKind::Choice { result, .. } => {
            let mut s = String::from_str("CHOICE(");
            s.append(decimal(*result as u128).as_str());
            s.append(")");
            s
        },
        LabelKind::Sample { .. } => String::from_str("SAMPLE"),
        LabelKind::Unique { .. } => String::from_str("UNIQUE"),
    }
}

/// What an event did.
pub fn format_label(graph: &ExecutionGraph, l: &Label) -> (s: String)
    ensures
        s@ == label_text(graph@.log, l@),
{
    let action = format_action(graph, l);
    match &l.kind {
        LabelKind::Block { .. } => action,
        _ => {
            let mut s = event_name(l.pos);
            s.append(": ");
            s.append(action.as_str());
            s
        },
    }
}

/// A character as TeX wants it.
pub open spec fn escaped_char(c: char) -> Seq<char> {
    if c == '\\' {
        "\\textbackslash{}"@
    } else if c == '{' {
        "\\{"@
    } else if c == '}' {
        "\\}"@
    } else if c == '%' {
        "\\%"@
    } else if c == '_' {
        "\\_"@
    } else if c == '$' {
        "\\$"@
    } else if c == '&' {
        "\\&"@
    } else if c == '#' {
        "\\#"@
    } else if c == '^' {
        "\\^"@
    } else if c == '~' {
        "\\~{}"@
    } else if c == '<' {
        "$<$"@
    } else if c == '>' {
        "$>$"@
    } else if c == '|' {
        "$|$"@
    } else {
        seq![c]
    }
}

/// The first `n` characters of a text as TeX wants them.
pub open spec fn escaped_upto(text: Seq<char>, n: nat) -> Seq<char>
    decreases n,
{
    if n == 0 {
        Seq::empty()
    } else {
        escaped_upto(text, (n - 1) as nat) + escaped_char(text[n - 1])
    }
}

/// A text with the characters escaped that TeX treats in a special way.
pub fn tex_escape(s: &str) -> (r: String)
    ensures
        r@ == escaped_upto(s@, s@.len()),
{
    let mut escaped = String::new();
    assert(escaped@ =~= Seq::<char>::empty());
    let len = s.unicode_len();
    let mut i: usize = 0;
    while i < len
        invariant
            len == s@.len(),
            i <= len,
            escaped@ == escaped_upto(s@, i as nat),
        decreases len - i,
    {
        let c = s.get_char(i);
        assert(c == s@[i as int]);
        assert(s@.subrange(i as int, i + 1) =~= seq![c]);
        let piece = if c == '\\' {
            "\\textbackslash{}"
        } else if c == '{' {
            "\\{"
        } else if c == '}' {
            "\\}"
        } else if c == '%' {
            "\\%"
        } else if c == '_' {
            "\\_"
        } else if c == '$' {
            "\\$"
        } else if c == '&' {
            "\\&"
        } else if c == '#' {
            "\\#"
        } else if c == '^' {
            "\\^"
        } else if c == '~' {
            "\\~{}"
        } else if c == '<' {
            "$<$"
        } else if c == '>' {
            "$>$"
        } else if c == '|' {
            "$|$"
        } else {
            s.substring_char(i, i + 1)
        };
        assert(piece@ == escaped_char(c));
        escaped.append(piece);
        i += 1;
    }
    escaped
}

/// Where the first colon among the characters from `from` on is.
pub open spec fn colon_from(text: Seq<char>, from: nat) -> Option<nat>
    decreases text.len() - from,
{
    if from >= text.len() {
        None
    } else if text[from as int] == ':' {
        Some(from)
    } else {
        colon_from(text, from + 1)
    }
}

/// A text without the white space at its start.
pub open spec fn without_spaces(text: Seq<char>) -> Seq<char>
    decreases text.len(),
{
    if text.len() > 0 && is_white(text[0]) {
        without_spaces(text.drop_first())
    } else {
        text
    }
}

/// What follows the prefix of a label: all behind the first colon and the white
/// space after it, or all where there is no colon.
pub open spec fn label_rest(text: Seq<char>) -> Seq<char> {
    match colon_from(text, 0) {
        Some(i) => without_spaces(text.skip(i as int + 1)),
        None => text,
    }
}

/// What follows the prefix of a label.
pub fn split_label_prefix(label: &str) -> (r: String)
    ensures
        r@ == label_rest(label@),
{
    let len = label.unicode_len();
    let mut i: usize = 0;
    while i < len && label.get_char(i) != ':'
        invariant
            len == label@.len(),
            i <= len,
            colon_from(label@, i as nat) == colon_from(label@, 0),
        decreases len - i,
    {
        i += 1;
    }
    if i == len {
        return String::from_str(label);
    }
    assert(colon_from(label@, 0) == Some(i as nat));
    let mut k: usize = i + 1;
    while k < len && white(label.get_char(k))
        invariant
            len == label@.len(),
            i < k <= len,
            without_spaces(label@.skip(k as int)) == without_spaces(label@.skip(i + 1)),
        decreases len - k,
    {
        assert(is_white(label@.skip(k as int)[0]));
        assert(label@.skip(k as int).drop_first() =~= label@.skip(k + 1));
        k += 1;
    }
    assert(without_spaces(label@.skip(k as int)) == label@.skip(k as int));
    assert(label@.subrange(k as int, len as int) =~= label@.skip(k as int));
    String::from_str(label.substring_char(k, len))
}

/// How an event is labelled in a picture.
pub open spec fn node_label(log: Seq<LabelView>, l: LabelView) -> Seq<char> {
    let text = label_text(log, l);
    if l.kind is Block {
        "\\textcolor{gray}{"@ + escaped_upto(text, text.len()) + "}"@
    } else {
        let rest = label_rest(text);
        escaped_upto(rest, rest.len())
    }
}

/// How an event is labelled in a picture.
pub fn format_node_label(graph: &ExecutionGraph, l: &Label) -> (s: String)
    ensures
        s@ == node_label(graph@.log, l@),
{
    let label = format_label(graph, l);
    match &l.kind {
        LabelKind::Block { .. } => {
            let mut s = String::from_str("\\textcolor{gray}{");
            s.append(tex_escape(label.as_str()).as_str());
            s.append("}");
            s
        },
        _ => {
            let rest = split_label_prefix(label.as_str());
            tex_escape(rest.as_str())
        },
    }
}

/// The styles of the nodes and edges.
pub open spec fn styles() -> Seq<char> {
    "\\tikzstyle{threadnode}=[inner sep=1.2pt, align=center];\\tikzstyle{po}=[->, thin];\\tikzstyle{rf}=[->, thick, green!60!black];\\tikzstyle{spawn}=[->, dashed, blue!60!black];\\tikzstyle{joinedge}=[->, dotted, red!70!black];\n"@
}

/// The styles of the nodes and edges.
pub fn style_defs() -> (s: &'static str)
    ensures
        s@ == styles(),
{
    "\\tikzstyle{threadnode}=[inner sep=1.2pt, align=center];\\tikzstyle{po}=[->, thin];\\tikzstyle{rf}=[->, thick, green!60!black];\\tikzstyle{spawn}=[->, dashed, blue!60!black];\\tikzstyle{joinedge}=[->, dotted, red!70!black];\n"
}

/// The name of the node of an event.
pub open spec fn node_id_text(e: Event) -> Seq<char> {
    "t"@ + thread_text(e.thread) + "i"@ + decimal_of(e.index as nat)
}

/// The name of the node of an event.
pub fn node_id(e: Event) -> (s: String)
    ensures
        s@ == node_id_text(e),
{
    let mut s = String::from_str("t");
    s.append(thread_name(e.thread).as_str());
    s.append("i");
    s.append(decimal(e.index as u128).as_str());
    s
}

/// The place of thread `t` among `threads[..n]`, counted from one; zero where it is
/// not among them.
pub open spec fn lane_of(threads: Seq<ThreadId>, t: ThreadId, n: nat) -> nat
    decreases n,
{
    if n == 0 {
        0
    } else if threads[n - 1] == t {
        n
    } else {
        lane_of(threads, t, (n - 1) as nat)
    }
}

/// The event that created thread `t`.
pub open spec fn parent_of(log: Seq<LabelView>, t: ThreadId) -> Option<Event> {
    if in_log(log, first_event(t)) {
        match label_at(log, first_event(t)).kind {
            KindView::Begin { parent, .. } => parent,
            _ => None,
        }
    } else {
        None
    }
}

/// The height, in halves of a step, at which the lane of `threads[n]` starts: half a
/// step below the event that created it, if that is in an earlier lane.
pub open spec fn lane_start(log: Seq<LabelView>, threads: Seq<ThreadId>, n: nat) -> int
    decreases n,
{
    match parent_of(log, threads[n as int]) {
        Some(p) => {
            let lane = lane_of(threads, p.thread, n);
            if 0 < lane <= n && in_log(log, p) {
                lane_start(log, threads, (lane - 1) as nat) - 2 * p.index - 1
            } else {
                0
            }
        },
        None => 0,
    }
}

/// How far a lane can start from the top.
proof fn lemma_lane_start(log: Seq<LabelView>, threads: Seq<ThreadId>, n: nat)
    ensures
        -((n + 1) * 0x2_0000_0000) <= lane_start(log, threads, n) <= 0,
    decreases n,
{
    match parent_of(log, threads[n as int]) {
        Some(p) => {
            let lane = lane_of(threads, p.thread, n);
            if 0 < lane <= n && in_log(log, p) {
                lemma_lane_start(log, threads, (lane - 1) as nat);
            }
        },
        None => {},
    }
}

/// The line that draws the node of an event. The first one of a lane has a place of
/// its own, the others hang below the one before.
pub open spec fn node_line(log: Seq<LabelView>, lane: nat, start: int, l: LabelView) -> Seq<char> {
    if l.pos.index == 0 {
        "\\node[threadnode] ("@ + node_id_text(l.pos) + ") at ("@ + halves_of(4 * lane as int + 3)
            + ", "@ + halves_of(start) + ") {\\tiny "@ + node_label(log, l) + "};\n"@
    } else {
        "\\node[threadnode, below of="@ + node_id_text(previous(l.pos)) + ", node distance="@
            + halves_of(2) + "cm] ("@ + node_id_text(l.pos) + ") {\\tiny "@ + node_label(log, l)
            + "};\n"@
    }
}

/// The lines that draw the nodes of the lane of `t`, for the first `n` labels.
pub open spec fn lane_nodes(
    log: Seq<LabelView>,
    t: ThreadId,
    lane: nat,
    start: int,
    n: nat,
) -> Seq<char>
    decreases n,
{
    if n == 0 {
        Seq::empty()
    } else {
        let before = lane_nodes(log, t, lane, start, (n - 1) as nat);
        if log[n - 1].pos.thread == t {
            before + node_line(log, lane, start, log[n - 1])
        } else {
            before
        }
    }
}

/// The lines that draw the nodes of the first `n` lanes.
pub open spec fn all_nodes(log: Seq<LabelView>, threads: Seq<ThreadId>, n: nat) -> Seq<char>
    decreases n,
{
    if n == 0 {
        Seq::empty()
    } else {
        all_nodes(log, threads, (n - 1) as nat) + lane_nodes(
            log,
            threads[n - 1],
            (n - 1) as nat,
            lane_start(log, threads, (n - 1) as nat),
            log.len(),
        )
    }
}

/// The line that draws an edge.
pub open spec fn edge_line(style: Seq<char>, from: Event, arrow: Seq<char>, to: Event) -> Seq<
    char,
> {
    style + node_id_text(from) + arrow + node_id_text(to) + ");\n"@
}

/// The edge from the event before an event in its thread.
pub open spec fn order_edge(l: LabelView) -> Seq<char> {
    if l.pos.index == 0 {
        Seq::empty()
    } else {
        edge_line("\\draw[po] ("@, previous(l.pos), ") -- ("@, l.pos)
    }
}

/// The edge from what an event reads, was created by or waited for.
pub open spec fn other_edge(log: Seq<LabelView>, l: LabelView) -> Seq<char> {
    match l.kind {
        KindView::Recv { rf: Some(send), .. } => edge_line(
            "\\draw[rf] ("@,
            send,
            ") -> ("@,
            l.pos,
        ),
        KindView::Begin { parent: Some(p), .. } => edge_line(
            "\\draw[spawn] ("@,
            p,
            ") -> ("@,
            l.pos,
        ),
        KindView::TJoin { cid } => if has_thread(log, cid) {
            edge_line("\\draw[joinedge] ("@, last_label(log, cid).pos, ") -> ("@, l.pos)
        } else {
            Seq::empty()
        },
        _ => Seq::empty(),
    }
}

/// The edges into the events of thread `t` among the first `n` labels.
pub open spec fn lane_edges(log: Seq<LabelView>, t: ThreadId, order: bool, n: nat) -> Seq<char>
    decreases n,
{
    if n == 0 {
        Seq::empty()
    } else {
        let before = lane_edges(log, t, order, (n - 1) as nat);
        if log[n - 1].pos.thread == t {
            before + if order {
                order_edge(log[n - 1])
            } else {
                other_edge(log, log[n - 1])
            }
        } else {
            before
        }
    }
}

/// The edges into the events of the first `n` lanes.
pub open spec fn all_edges(
    log: Seq<LabelView>,
    threads: Seq<ThreadId>,
    order: bool,
    n: nat,
) -> Seq<char>
    decreases n,
{
    if n == 0 {
        Seq::empty()
    } else {
        all_edges(log, threads, order, (n - 1) as nat) + lane_edges(
            log,
            threads[n - 1],
            order,
            log.len(),
        )
    }
}

/// The picture of a graph.
pub open spec fn picture_of(log: Seq<LabelView>) -> Seq<char> {
    let threads = threads_upto(log, log.len());
    "\\begin{tikzpicture}[>=stealth, node distance=8mm]\n"@ + styles() + all_nodes(
        log,
        threads,
        threads.len(),
    ) + all_edges(log, threads, true, threads.len()) + all_edges(
        log,
        threads,
        false,
        threads.len(),
    ) + "\\end{tikzpicture}\n"@
}

fn draw_node(graph: &ExecutionGraph, lane: usize, start: i128, l: &Label) -> (s: String)
    requires
        start > i128::MIN,
    ensures
        s@ == node_line(graph@.log, lane as nat, start as int, l@),
{
    let label = format_node_label(graph, l);
    if l.pos.index == 0 {
        let mut s = String::from_str("\\node[threadnode] (");
        s.append(node_id(l.pos).as_str());
        s.append(") at (");
        s.append(halves(4 * (lane as i128) + 3).as_str());
        s.append(", ");
        s.append(halves(start).as_str());
        s.append(") {\\tiny ");
        s.append(label.as_str());
        s.append("};\n");
        s
    } else {
        let before = Event::new(l.pos.thread, l.pos.index - 1);
        let mut s = String::from_str("\\node[threadnode, below of=");
        s.append(node_id(before).as_str());
        s.append(", node distance=");
        s.append(halves(2).as_str());
        s.append("cm] (");
        s.append(node_id(l.pos).as_str());
        s.append(") {\\tiny ");
        s.append(label.as_str());
        s.append("};\n");
        s
    }
}

fn draw_lane(graph: &ExecutionGraph, t: ThreadId, lane: usize, start: i128) -> (s: String)
    requires
        start > i128::MIN,
    ensures
        s@ == lane_nodes(graph@.log, t, lane as nat, start as int, graph@.log.len()),
{
    let mut s = String::new();
    assert(s@ =~= Seq::<char>::empty());
    let mut i: usize = 0;
    while i < graph.len()
        invariant
            start > i128::MIN,
            i <= graph@.log.len(),
            s@ == lane_nodes(graph@.log, t, lane as nat, start as int, i as nat),
        decreases graph@.log.len() - i,
    {
        let l = graph.label_in(i);
        if l.pos.thread == t {
            s.append(draw_node(graph, lane, start, l).as_str());
        }
        i += 1;
    }
    s
}

fn draw_edge(style: &str, from: Event, arrow: &str, to: Event) -> (s: String)
    ensures
        s@ == edge_line(style@, from, arrow@, to),
{
    let mut s = String::from_str(style);
    s.append(node_id(from).as_str());
    s.append(arrow);
    s.append(node_id(to).as_str());
    s.append(");\n");
    s
}

fn draw_order_edge(l: &Label) -> (s: String)
    ensures
        s@ == order_edge(l@),
{
    if l.pos.index == 0 {
        let s = String::new();
        assert(s@ =~= Seq::<char>::empty());
        s
    } else {
        draw_edge("\\draw[po] (", Event::new(l.pos.thread, l.pos.index - 1), ") -- (", l.pos)
    }
}

fn draw_other_edge(graph: &ExecutionGraph, l: &Label) -> (s: String)
    ensures
        s@ == other_edge(graph@.log, l@),
{
    let none = String::new();
    assert(none@ =~= Seq::<char>::empty());
    match &l.kind {
        LabelKind::Recv { rf, .. } => match rf {
            Some(send) => draw_edge("\\draw[rf] (", *send, ") -> (", l.pos),
            None => none,
        },
        LabelKind::Begin { parent, .. } => match parent {
            Some(p) => draw_edge("\\draw[spawn] (", *p, ") -> (", l.pos),
            None => none,
        },
        LabelKind::TJoin { cid } => match graph.thread_last(*cid) {
            Some(end) => draw_edge("\\draw[joinedge] (", end.pos, ") -> (", l.pos),
            None => none,
        },
        _ => none,
    }
}

fn draw_edges(graph: &ExecutionGraph, threads: &Vec<ThreadId>, order: bool) -> (s: String)
    ensures
        s@ == all_edges(graph@.log, threads@, order, threads@.len()),
{
    let mut s = String::new();
    assert(s@ =~= Seq::<char>::empty());
    let mut k: usize = 0;
    while k < threads.len()
        invariant
            k <= threads.len(),
            s@ == all_edges(graph@.log, threads@, order, k as nat),
        decreases threads.len() - k,
    {
        let t = threads[k];
        let mut lane = String::new();
        assert(lane@ =~= Seq::<char>::empty());
        let mut i: usize = 0;
        while i < graph.len()
            invariant
                i <= graph@.log.len(),
                lane@ == lane_edges(graph@.log, t, order, i as nat),
            decreases graph@.log.len() - i,
        {
            let l = graph.label_in(i);
            if l.pos.thread == t {
                let edge = if order {
                    draw_order_edge(l)
                } else {
                    draw_other_edge(graph, l)
                };
                lane.append(edge.as_str());
            }
            i += 1;
        }
        s.append(lane.as_str());
        k += 1;
    }
    s
}

/// The heights at which the lanes start.
fn lane_starts(graph: &ExecutionGraph, threads: &Vec<ThreadId>) -> (r: Vec<i128>)
    requires
        graph.wf(),
    ensures
        r@.len() == threads@.len(),
        forall|k: int|
            0 <= k < r@.len() ==> #[trigger] r@[k] == lane_start(graph@.log, threads@, k as nat),
{
    let mut r: Vec<i128> = Vec::new();
    let mut k: usize = 0;
    while k < threads.len()
        invariant
            graph.wf(),
            k <= threads.len(),
            r@.len() == k,
            forall|j: int|
                0 <= j < k ==> #[trigger] r@[j] == lane_start(graph@.log, threads@, j as nat),
        decreases threads.len() - k,
    {
        let parent = match graph.label_opt(Event::new(threads[k], 0)) {
            Some(l) => match &l.kind {
                LabelKind::Begin { parent, .. } => *parent,
                _ => None,
            },
            None => None,
        };
        assert(parent == parent_of(graph@.log, threads@[k as int]));
        let start: i128 = match parent {
            Some(p) => {
                let mut lane: usize = k;
                while lane > 0 && threads[lane - 1] != p.thread
                    invariant
                        lane <= k < threads.len(),
                        lane_of(threads@, p.thread, lane as nat) == lane_of(
                            threads@,
                            p.thread,
                            k as nat,
                        ),
                    decreases lane,
                {
                    lane -= 1;
                }
                if lane > 0 && graph.contains(p) {
                    proof {
                        lemma_lane_start(graph@.log, threads@, (lane - 1) as nat);
                        assert(r@[lane - 1] == lane_start(
                            graph@.log,
                            threads@,
                            (lane - 1) as nat,
                        ));
                    }
                    r[lane - 1] - 2 * (p.index as i128) - 1
                } else {
                    0
                }
            },
            None => 0,
        };
        r.push(start);
        k += 1;
    }
    r
}

/// The picture of a graph.
pub fn graph_picture(graph: &ExecutionGraph) -> (out: String)
    requires
        graph.wf(),
    ensures
        out@ == picture_of(graph@.log),
{
    let threads = graph.thread_ids();
    let starts = lane_starts(graph, &threads);
    let mut nodes = String::new();
    assert(nodes@ =~= Seq::<char>::empty());
    let mut lane: usize = 0;
    while lane < threads.len()
        invariant
            lane <= threads.len(),
            starts@.len() == threads@.len(),
            forall|k: int|
                0 <= k < starts@.len() ==> #[trigger] starts@[k] == lane_start(
                    graph@.log,
                    threads@,
                    k as nat,
                ),
            nodes@ == all_nodes(graph@.log, threads@, lane as nat),
        decreases threads.len() - lane,
    {
        let start = starts[lane];
        proof {
            assert(start == lane_start(graph@.log, threads@, lane as nat));
            lemma_lane_start(graph@.log, threads@, lane as nat);
        }
        nodes.append(draw_lane(graph, threads[lane], lane, start).as_str());
        lane += 1;
    }
    let mut out = String::from_str("\\begin{tikzpicture}[>=stealth, node distance=8mm]\n");
    out.append(style_defs());
    out.append(nodes.as_str());
    out.append(draw_edges(graph, &threads, true).as_str());
    out.append(draw_edges(graph, &threads, false).as_str());
    out.append("\\end{tikzpicture}\n");
    out
}

/// The start of a document with one picture.
pub open spec fn preamble_text() -> Seq<char> {
    "\\documentclass[tikz]{standalone}\n\\usepackage{xcolor}\n\\usepackage{tikz}\n\\usetikzlibrary{positioning,fit}\n\\begin{document}\n\\begin{tikzpicture}[node distance=1.5cm]\n"@
}

pub fn preamble() -> (s: &'static str)
    ensures
        s@ == preamble_text(),
{
    "\\documentclass[tikz]{standalone}\n\\usepackage{xcolor}\n\\usepackage{tikz}\n\\usetikzlibrary{positioning,fit}\n\\begin{document}\n\\begin{tikzpicture}[node distance=1.5cm]\n"
}

/// The name of the node that holds a picture.
pub open spec fn graph_node_text(row: nat, col: nat) -> Seq<char> {
    "graph_r"@ + decimal_of(row) + "_c"@ + decimal_of(col)
}

pub fn graph_node_name(row: usize, col: usize) -> (s: String)
    ensures
        s@ == graph_node_text(row as nat, col as nat),
{
    let mut s = String::from_str("graph_r");
    s.append(decimal(row as u128).as_str());
    s.append("_c");
    s.append(decimal(col as u128).as_str());
    s
}

/// The node that holds the picture of a graph.
pub open spec fn graph_node(log: Seq<LabelView>, idx: nat) -> Seq<char> {
    "% GRAPH_NODE "@ + decimal_of(idx) + "\n\\node[anchor=north west] ("@ + graph_node_text(0, idx)
        + ") at (0,0) {\n"@ + picture_of(log) + "\n};\n"@
}

pub fn graph_node_standalone(graph: &ExecutionGraph, idx: usize) -> (s: String)
    requires
        graph.wf(),
    ensures
        s@ == graph_node(graph@.log, idx as nat),
{
    let mut s = String::from_str("% GRAPH_NODE ");
    s.append(decimal(idx as u128).as_str());
    s.append("\n\\node[anchor=north west] (");
    s.append(graph_node_name(0, idx).as_str());
    s.append(") at (0,0) {\n");
    s.append(graph_picture(graph).as_str());
    s.append("\n};\n");
    s
}

/// A document with the picture of one graph.
pub open spec fn document_of(log: Seq<LabelView>) -> Seq<char> {
    preamble_text() + graph_node(log, 0) + "\\end{tikzpicture}\n\\end{document}\n"@
}

/// A document with the picture of one graph.
pub fn single_graph_document(graph: &ExecutionGraph) -> (s: String)
    requires
        graph.wf(),
    ensures
        s@ == document_of(graph@.log),
{
    let mut s = String::from_str(preamble());
    s.append(graph_node_standalone(graph, 0).as_str());
    s.append("\\end{tikzpicture}\n\\end{document}\n");
    s
}

} // verus!
