//! Which sends a receive may read.

use crate::event::{event_le, Event, ThreadId};
use crate::event_label::{KindView, Label, LabelKind, LabelView};
use crate::exec_graph::{
    comes_before, in_log, index_of, is_dropped, label_at, lemma_index_of, log_wf, restricted,
    ExecutionGraph, GraphView,
};
use crate::loc::{CommunicationModel, Loc, RecvLoc, RecvPredicate};
use crate::revisit::possible_subsets;
use vstd::prelude::*;

verus! {

/// Whether a receive at the `loc`-th of `locs` takes the message that `l` sent.
/// A monitor takes the messages that were sent to it as a monitor.
pub open spec fn addressed<P: RecvPredicate>(
    locs: Seq<RecvLoc<P>>,
    loc: usize,
    reader: ThreadId,
    monitor: bool,
    l: LabelView,
) -> bool {
    match l.kind {
        KindView::Send { loc: to, tag, monitors, .. } => if monitor {
            monitors.contains(reader)
        } else {
            loc < locs.len() && locs[loc as int].takes(to, l.pos.thread, tag)
        },
        _ => false,
    }
}

/// Whether another event than `reader` has taken the message that `l` sent. A
/// monitor's reading takes nothing from others.
pub open spec fn taken(log: Seq<LabelView>, reader: Event, monitor: bool, l: LabelView) -> bool {
    exists|k: int|
        0 <= k < log.len() && (#[trigger] log[k]).reads(l.pos) && log[k].pos != reader && (
        if monitor {
            log[k].pos.thread == reader.thread
        } else {
            !(l.kind matches KindView::Send { monitors, .. } && monitors.contains(
                log[k].pos.thread,
            ))
        })
}

/// Whether the message that `l` sent is there for `reader` to take.
pub open spec fn on_offer<P: RecvPredicate>(
    log: Seq<LabelView>,
    locs: Seq<RecvLoc<P>>,
    loc: usize,
    reader: Event,
    monitor: bool,
    l: LabelView,
) -> bool {
    addressed(locs, loc, reader.thread, monitor, l) && !is_dropped(l) && !taken(
        log,
        reader,
        monitor,
        l,
    )
}

/// Whether the message of `early` has to arrive before that of `late`.
pub open spec fn arrives_first(early: LabelView, late: LabelView) -> bool {
    early.pos.thread == late.pos.thread && early.pos.index < late.pos.index && (late.kind matches
        KindView::Send { loc, model: CommunicationModel::LocalOrder, .. } && early.kind matches
        KindView::Send { loc: other, .. } && loc == other)
}

/// Whether a message on offer has to wait for another one.
pub open spec fn overtaking<P: RecvPredicate>(
    log: Seq<LabelView>,
    locs: Seq<RecvLoc<P>>,
    loc: usize,
    reader: Event,
    monitor: bool,
    l: LabelView,
) -> bool {
    exists|k: int|
        0 <= k < log.len() && arrives_first(#[trigger] log[k], l) && on_offer(
            log,
            locs,
            loc,
            reader,
            monitor,
            log[k],
        )
}

/// Whether `reader` may read the message that `l` sent.
pub open spec fn readable<P: RecvPredicate>(
    log: Seq<LabelView>,
    locs: Seq<RecvLoc<P>>,
    loc: usize,
    reader: Event,
    monitor: bool,
    l: LabelView,
) -> bool {
    on_offer(log, locs, loc, reader, monitor, l) && !overtaking(
        log,
        locs,
        loc,
        reader,
        monitor,
        l,
    )
}

/// The readable sends among the first `n` labels.
pub open spec fn rfs_upto<P: RecvPredicate>(
    log: Seq<LabelView>,
    locs: Seq<RecvLoc<P>>,
    loc: usize,
    reader: Event,
    monitor: bool,
    n: nat,
) -> Seq<Event>
    decreases n,
{
    if n == 0 {
        Seq::empty()
    } else {
        let before = rfs_upto(log, locs, loc, reader, monitor, (n - 1) as nat);
        if readable(log, locs, loc, reader, monitor, log[n - 1]) {
            before.push(log[n - 1].pos)
        } else {
            before
        }
    }
}

/// The sends that `reader` may read, in the order in which they were recorded.
pub open spec fn rfs_of<P: RecvPredicate>(
    log: Seq<LabelView>,
    locs: Seq<RecvLoc<P>>,
    loc: usize,
    reader: Event,
    monitor: bool,
) -> Seq<Event> {
    rfs_upto(log, locs, loc, reader, monitor, log.len())
}

/// Whether `e` is a readable send among the first `n` labels.
pub open spec fn readable_among<P: RecvPredicate>(
    log: Seq<LabelView>,
    locs: Seq<RecvLoc<P>>,
    loc: usize,
    reader: Event,
    monitor: bool,
    n: nat,
    e: Event,
) -> bool {
    exists|k: int|
        0 <= k < n && (#[trigger] log[k]).pos == e && readable(
            log,
            locs,
            loc,
            reader,
            monitor,
            log[k],
        )
}

/// The listed sends are exactly the readable ones.
pub proof fn lemma_rfs<P: RecvPredicate>(
    log: Seq<LabelView>,
    locs: Seq<RecvLoc<P>>,
    loc: usize,
    reader: Event,
    monitor: bool,
    n: nat,
)
    requires
        n <= log.len(),
    ensures
        forall|i: int|
            0 <= i < rfs_upto(log, locs, loc, reader, monitor, n).len() ==> readable_among(
                log,
                locs,
                loc,
                reader,
                monitor,
                n,
                #[trigger] rfs_upto(log, locs, loc, reader, monitor, n)[i],
            ),
    decreases n,
{
    if n > 0 {
        lemma_rfs(log, locs, loc, reader, monitor, (n - 1) as nat);
        let before = rfs_upto(log, locs, loc, reader, monitor, (n - 1) as nat);
        let after = rfs_upto(log, locs, loc, reader, monitor, n);
        assert forall|i: int| 0 <= i < after.len() implies readable_among(
            log,
            locs,
            loc,
            reader,
            monitor,
            n,
            #[trigger] after[i],
        ) by {
            if i < before.len() {
                assert(after[i] == before[i]);
                assert(readable_among(
                    log,
                    locs,
                    loc,
                    reader,
                    monitor,
                    (n - 1) as nat,
                    before[i],
                ));
            } else {
                assert(log[n - 1].pos == after[i]);
            }
        }
    }
}

/// No more sends are listed than there are labels.
pub proof fn lemma_rfs_len<P: RecvPredicate>(
    log: Seq<LabelView>,
    locs: Seq<RecvLoc<P>>,
    loc: usize,
    reader: Event,
    monitor: bool,
    n: nat,
)
    ensures
        rfs_upto(log, locs, loc, reader, monitor, n).len() <= n,
    decreases n,
{
    if n > 0 {
        lemma_rfs_len(log, locs, loc, reader, monitor, (n - 1) as nat);
    }
}

/// The sends on offer among the first `n` labels.
pub open spec fn offers_upto<P: RecvPredicate>(
    log: Seq<LabelView>,
    locs: Seq<RecvLoc<P>>,
    loc: usize,
    reader: Event,
    monitor: bool,
    n: nat,
) -> Seq<Event>
    decreases n,
{
    if n == 0 {
        Seq::empty()
    } else {
        let before = offers_upto(log, locs, loc, reader, monitor, (n - 1) as nat);
        if on_offer(log, locs, loc, reader, monitor, log[n - 1]) {
            before.push(log[n - 1].pos)
        } else {
            before
        }
    }
}

/// The sends that are there for `reader` to take, those that have to wait for others
/// included, in the order in which they were recorded.
pub open spec fn offers_of<P: RecvPredicate>(
    log: Seq<LabelView>,
    locs: Seq<RecvLoc<P>>,
    loc: usize,
    reader: Event,
    monitor: bool,
) -> Seq<Event> {
    offers_upto(log, locs, loc, reader, monitor, log.len())
}

/// The listed sends are those on offer, each once.
pub proof fn lemma_offers<P: RecvPredicate>(
    log: Seq<LabelView>,
    locs: Seq<RecvLoc<P>>,
    loc: usize,
    reader: Event,
    monitor: bool,
    n: nat,
)
    requires
        log_wf(log),
        n <= log.len(),
    ensures
        offers_upto(log, locs, loc, reader, monitor, n).len() <= n,
        forall|i: int|
            0 <= i < offers_upto(log, locs, loc, reader, monitor, n).len() ==> {
                let e = #[trigger] offers_upto(log, locs, loc, reader, monitor, n)[i];
                &&& in_log(log, e)
                &&& index_of(log, e) < n
                &&& label_at(log, e).pos == e
                &&& on_offer(log, locs, loc, reader, monitor, label_at(log, e))
            },
        forall|k: int|
            0 <= k < n && on_offer(log, locs, loc, reader, monitor, #[trigger] log[k])
                ==> offers_upto(log, locs, loc, reader, monitor, n).contains(log[k].pos),
        offers_upto(log, locs, loc, reader, monitor, n).no_duplicates(),
    decreases n,
{
    if n > 0 {
        let before = offers_upto(log, locs, loc, reader, monitor, (n - 1) as nat);
        let after = offers_upto(log, locs, loc, reader, monitor, n);
        lemma_offers(log, locs, loc, reader, monitor, (n - 1) as nat);
        lemma_index_of(log, n - 1);
        assert forall|i: int| 0 <= i < after.len() implies {
            let e = #[trigger] after[i];
            &&& in_log(log, e)
            &&& index_of(log, e) < n
            &&& label_at(log, e).pos == e
            &&& on_offer(log, locs, loc, reader, monitor, label_at(log, e))
        } by {
            if i < before.len() {
                assert(after[i] == before[i]);
            } else {
                assert(after[i] == log[n - 1].pos);
            }
        }
        assert forall|k: int|
            0 <= k < n && on_offer(
                log,
                locs,
                loc,
                reader,
                monitor,
                #[trigger] log[k],
            ) implies after.contains(log[k].pos) by {
            if k < n - 1 {
                let i = choose|i: int| 0 <= i < before.len() && before[i] == log[k].pos;
                assert(after[i] == log[k].pos);
            } else {
                assert(after[before.len() as int] == log[k].pos);
            }
        }
        assert forall|i: int, j: int|
            0 <= i < after.len() && 0 <= j < after.len() && i != j implies after[i] != after[j] by {
            if i < before.len() {
                assert(after[i] == before[i]);
            }
            if j < before.len() {
                assert(after[j] == before[j]);
            }
        }
    }
}

/// Whether a set of messages can be taken at once: with a message the set holds those on
/// offer that have to arrive before it.
pub open spec fn in_order<P: RecvPredicate>(
    log: Seq<LabelView>,
    locs: Seq<RecvLoc<P>>,
    loc: usize,
    reader: Event,
    set: Seq<Event>,
) -> bool {
    forall|i: int, k: int|
        #![trigger log[i], log[k]]
        0 <= i < log.len() && 0 <= k < log.len() && set.contains(log[i].pos) && arrives_first(
            log[k],
            log[i],
        ) && on_offer(log, locs, loc, reader, false, log[k]) ==> set.contains(log[k].pos)
}

/// Those of the first `n` sets that can be taken at once.
pub open spec fn ordered_sets<P: RecvPredicate>(
    log: Seq<LabelView>,
    locs: Seq<RecvLoc<P>>,
    loc: usize,
    reader: Event,
    sets: Seq<Seq<Event>>,
    n: nat,
) -> Seq<Seq<Event>>
    decreases n,
{
    if n == 0 {
        Seq::empty()
    } else {
        let before = ordered_sets(log, locs, loc, reader, sets, (n - 1) as nat);
        if in_order(log, locs, loc, reader, sets[n - 1]) {
            before.push(sets[n - 1])
        } else {
            before
        }
    }
}

/// The sets that an inbox may take: those of the messages on offer that can be taken at
/// once, within its bounds.
pub open spec fn inbox_choices<P: RecvPredicate>(
    log: Seq<LabelView>,
    locs: Seq<RecvLoc<P>>,
    loc: usize,
    reader: Event,
    min: usize,
    max: Option<usize>,
) -> Seq<Seq<Event>> {
    let sets = possible_subsets(offers_of(log, locs, loc, reader, false), min, max);
    ordered_sets(log, locs, loc, reader, sets, sets.len())
}

/// What an inbox reads when nothing is decided for it: nothing if it need not
/// wait, else the first messages on offer, as many as it takes.
pub open spec fn canonical_set(rfs: Seq<Event>, min: usize, max: Option<usize>) -> Seq<Event> {
    if min == 0 {
        Seq::empty()
    } else {
        rfs.take(crate::revisit::upper_bound(rfs.len(), max) as int)
    }
}

/// A set of events as a list: sorted, each event once.
pub open spec fn with_event(list: Seq<Event>, e: Event) -> Seq<Event>
    decreases list.len(),
{
    if list.len() == 0 {
        seq![e]
    } else if list.last() == e {
        list
    } else if event_le(list.last(), e) {
        list.push(e)
    } else {
        with_event(list.drop_last(), e).push(list.last())
    }
}

/// The first `n` of `events`, sorted and each once.
pub open spec fn normalized(events: Seq<Event>, n: nat) -> Seq<Event>
    decreases n,
{
    if n == 0 {
        Seq::empty()
    } else {
        with_event(normalized(events, (n - 1) as nat), events[n - 1])
    }
}

/// Whether a list of events ascends strictly.
pub open spec fn ascending(list: Seq<Event>) -> bool {
    forall|i: int, j: int|
        0 <= i < j < list.len() ==> event_le(#[trigger] list[i], #[trigger] list[j]) && list[i]
            != list[j]
}

/// Adding to a sorted list keeps it sorted and adds just the event.
pub proof fn lemma_with_event(list: Seq<Event>, e: Event)
    requires
        ascending(list),
    ensures
        ascending(with_event(list, e)),
        forall|x: Event| #[trigger] with_event(list, e).contains(x) <==> list.contains(x) || x == e,
    decreases list.len(),
{
    let after = with_event(list, e);
    if list.len() == 0 {
        assert(after[0] == e);
    } else if list.last() == e {
        assert(list[list.len() - 1] == e);
    } else if event_le(list.last(), e) {
        assert(after[list.len() as int] == e);
        assert forall|i: int, j: int| 0 <= i < j < after.len() implies event_le(
            #[trigger] after[i],
            #[trigger] after[j],
        ) && after[i] != after[j] by {
            if j == list.len() && i < list.len() - 1 {
                assert(event_le(list[i], list[list.len() - 1]));
            }
        }
        assert forall|x: Event| #[trigger] after.contains(x) <==> list.contains(x) || x == e by {
            if list.contains(x) {
                let k = choose|k: int| 0 <= k < list.len() && list[k] == x;
                assert(after[k] == x);
            }
        }
    } else {
        let shorter = list.drop_last();
        let inner = with_event(shorter, e);
        lemma_with_event(shorter, e);
        assert forall|i: int, j: int| 0 <= i < j < after.len() implies event_le(
            #[trigger] after[i],
            #[trigger] after[j],
        ) && after[i] != after[j] by {
            if j == inner.len() {
                assert(after[i] == inner[i]);
                assert(inner.contains(inner[i]));
                if inner[i] != e {
                    let k = choose|k: int| 0 <= k < shorter.len() && shorter[k] == inner[i];
                    assert(list[k] == inner[i]);
                }
            } else {
                assert(after[i] == inner[i] && after[j] == inner[j]);
            }
        }
        assert forall|x: Event| #[trigger] after.contains(x) <==> list.contains(x) || x == e by {
            if after.contains(x) {
                let k = choose|k: int| 0 <= k < after.len() && after[k] == x;
                if k < inner.len() {
                    assert(inner[k] == x);
                    assert(inner.contains(x));
                    if x != e {
                        let m = choose|m: int| 0 <= m < shorter.len() && shorter[m] == x;
                        assert(list[m] == x);
                    }
                } else {
                    assert(list[list.len() - 1] == x);
                }
            }
            if list.contains(x) || x == e {
                if x == list.last() {
                    assert(after[inner.len() as int] == x);
                } else {
                    if x != e {
                        let m = choose|m: int| 0 <= m < list.len() && list[m] == x;
                        assert(shorter[m] == x);
                    }
                    assert(inner.contains(x));
                    let k = choose|k: int| 0 <= k < inner.len() && inner[k] == x;
                    assert(after[k] == x);
                }
            }
        }
    }
}

/// Normalizing sorts, and keeps the set of events.
pub proof fn lemma_normalized(events: Seq<Event>, n: nat)
    requires
        n <= events.len(),
    ensures
        ascending(normalized(events, n)),
        forall|x: Event| #[trigger]
            normalized(events, n).contains(x) <==> events.take(n as int).contains(x),
    decreases n,
{
    if n > 0 {
        lemma_normalized(events, (n - 1) as nat);
        lemma_with_event(normalized(events, (n - 1) as nat), events[n - 1]);
        let shorter = events.take(n - 1);
        let longer = events.take(n as int);
        assert forall|x: Event| #[trigger] normalized(events, n).contains(x) <==> longer.contains(
            x,
        ) by {
            if shorter.contains(x) {
                let k = choose|k: int| 0 <= k < shorter.len() && shorter[k] == x;
                assert(longer[k] == x);
            }
            if longer.contains(x) {
                let k = choose|k: int| 0 <= k < longer.len() && longer[k] == x;
                if k < n - 1 {
                    assert(shorter[k] == x);
                }
            }
            if x == events[n - 1] {
                assert(longer[n - 1] == x);
            }
        }
    }
}

/// Adds an event to a sorted list.
pub fn insert_event(list: &mut Vec<Event>, e: Event)
    ensures
        final(list)@ == with_event(old(list)@, e),
    decreases old(list)@.len(),
{
    let ghost before = list@;
    let n = list.len();
    if n == 0 {
        list.push(e);
        assert(list@ =~= seq![e]);
    } else if list[n - 1] == e {
    } else if list[n - 1].at_most(e) {
        list.push(e);
    } else {
        let last = list.pop();
        assert(list@ =~= before.drop_last());
        insert_event(list, e);
        if let Some(l) = last {
            list.push(l);
        }
    }
}

/// The stamp of the event `e`, or zero where it is not in the log.
pub open spec fn stamp_of(log: Seq<LabelView>, e: Event) -> usize {
    if in_log(log, e) {
        label_at(log, e).stamp
    } else {
        0
    }
}

/// The newest of the first `n` of `events`.
pub open spec fn owner_upto(log: Seq<LabelView>, events: Seq<Event>, n: nat) -> Option<Event>
    decreases n,
{
    if n == 0 {
        None
    } else {
        match owner_upto(log, events, (n - 1) as nat) {
            Some(o) => if stamp_of(log, events[n - 1]) >= stamp_of(log, o) {
                Some(events[n - 1])
            } else {
                Some(o)
            },
            None => Some(events[n - 1]),
        }
    }
}

/// The newest of `events`: it owns the set.
pub open spec fn owner_of(log: Seq<LabelView>, events: Seq<Event>) -> Option<Event> {
    owner_upto(log, events, events.len())
}

/// Whether the revisited receive may read `send` in the graph that remains.
pub open spec fn revisit_readable<P: RecvPredicate>(
    g: GraphView,
    locs: Seq<RecvLoc<P>>,
    loc: usize,
    r: LabelView,
    monitor: bool,
    sends: Seq<Event>,
    send: Event,
) -> bool {
    rfs_of(restricted(g, r.stamp, sends).log, locs, loc, r.pos, monitor).contains(send)
}

/// Whether the revisited inbox may read all of `sends`: none of them comes after the
/// inbox, and they can be taken at once in the graph that remains.
pub open spec fn inbox_readable<P: RecvPredicate>(
    g: GraphView,
    locs: Seq<RecvLoc<P>>,
    loc: usize,
    i: LabelView,
    sends: Seq<Event>,
) -> bool {
    let rest = restricted(g, i.stamp, sends).log;
    &&& !comes_before(g.log, sends, i.pos)
    &&& forall|k: int|
        0 <= k < sends.len() ==> offers_of(rest, locs, loc, i.pos, false).contains(
            #[trigger] sends[k],
        )
    &&& in_order(rest, locs, loc, i.pos, sends)
}

/// Whether an execution counts. Both orders are kept as messages are read, so that
/// neither asks more of a graph.
pub open spec fn graph_consistent(g: GraphView) -> bool {
    true
}

/// The rules by which messages are delivered.
pub struct Consistency {}

impl Consistency {
    /// Whether the execution `g` counts.
    pub fn is_consistent(&self, g: &ExecutionGraph) -> (b: bool)
        ensures
            b == graph_consistent(g@),
    {
        true
    }

    fn is_addressed<P: RecvPredicate>(
        &self,
        locs: &Vec<RecvLoc<P>>,
        loc: usize,
        reader: ThreadId,
        monitor: bool,
        l: &Label,
    ) -> (b: bool)
        ensures
            b == addressed(locs@, loc, reader, monitor, l@),
    {
        match &l.kind {
            LabelKind::Send { loc: to, tag, monitors, .. } => if monitor {
                crate::loc::thread_in(monitors, reader)
            } else {
                loc < locs.len() && locs[loc].matches(*to, l.pos.thread, tag)
            },
            _ => false,
        }
    }

    fn is_taken(&self, g: &ExecutionGraph, reader: Event, monitor: bool, l: &Label) -> (b: bool)
        ensures
            b == taken(g@.log, reader, monitor, l@),
    {
        let mut k: usize = 0;
        while k < g.len()
            invariant
                k <= g@.log.len(),
                forall|j: int|
                    0 <= j < k ==> !((#[trigger] g@.log[j]).reads(l@.pos) && g@.log[j].pos != reader
                        && (if monitor {
                        g@.log[j].pos.thread == reader.thread
                    } else {
                        !(l@.kind matches KindView::Send { monitors, .. } && monitors.contains(
                            g@.log[j].pos.thread,
                        ))
                    })),
            decreases g@.log.len() - k,
        {
            let other = g.label_in(k);
            if other.reads_from(l.pos) && other.pos != reader {
                let counts = if monitor {
                    other.pos.thread == reader.thread
                } else {
                    match &l.kind {
                        LabelKind::Send { monitors, .. } => !crate::loc::thread_in(
                            monitors,
                            other.pos.thread,
                        ),
                        _ => true,
                    }
                };
                if counts {
                    assert(g@.log[k as int].reads(l@.pos));
                    return true;
                }
            }
            k += 1;
        }
        false
    }

    fn is_on_offer<P: RecvPredicate>(
        &self,
        g: &ExecutionGraph,
        locs: &Vec<RecvLoc<P>>,
        loc: usize,
        reader: Event,
        monitor: bool,
        l: &Label,
    ) -> (b: bool)
        ensures
            b == on_offer(g@.log, locs@, loc, reader, monitor, l@),
    {
        let dropped = match &l.kind {
            LabelKind::Send { dropped, .. } => *dropped,
            _ => false,
        };
        self.is_addressed(locs, loc, reader.thread, monitor, l) && !dropped && !self.is_taken(
            g,
            reader,
            monitor,
            l,
        )
    }

    fn is_overtaking<P: RecvPredicate>(
        &self,
        g: &ExecutionGraph,
        locs: &Vec<RecvLoc<P>>,
        loc: usize,
        reader: Event,
        monitor: bool,
        l: &Label,
    ) -> (b: bool)
        ensures
            b == overtaking(g@.log, locs@, loc, reader, monitor, l@),
    {
        let (to, model): (Loc, CommunicationModel) = match &l.kind {
            LabelKind::Send { loc: to, model, .. } => (*to, *model),
            _ => {
                return false;
            },
        };
        if model == CommunicationModel::NoOrder {
            return false;
        }
        let mut k: usize = 0;
        while k < g.len()
            invariant
                k <= g@.log.len(),
                l@.kind matches KindView::Send { loc, model, .. } && loc == to && model
                    == CommunicationModel::LocalOrder,
                forall|j: int|
                    0 <= j < k ==> !(arrives_first(#[trigger] g@.log[j], l@) && on_offer(
                        g@.log,
                        locs@,
                        loc,
                        reader,
                        monitor,
                        g@.log[j],
                    )),
            decreases g@.log.len() - k,
        {
            let other = g.label_in(k);
            let same_loc = match &other.kind {
                LabelKind::Send { loc: other_to, .. } => *other_to == to,
                _ => false,
            };
            if same_loc && other.pos.thread == l.pos.thread && other.pos.index < l.pos.index {
                assert(arrives_first(g@.log[k as int], l@));
                if self.is_on_offer(g, locs, loc, reader, monitor, other) {
                    return true;
                }
            }
            k += 1;
        }
        false
    }

    /// The sends that `reader` may read.
    pub fn rfs<P: RecvPredicate>(
        &self,
        g: &ExecutionGraph,
        locs: &Vec<RecvLoc<P>>,
        loc: usize,
        reader: Event,
        monitor: bool,
    ) -> (r: Vec<Event>)
        ensures
            r@ == rfs_of(g@.log, locs@, loc, reader, monitor),
    {
        let mut r: Vec<Event> = Vec::new();
        let mut k: usize = 0;
        while k < g.len()
            invariant
                k <= g@.log.len(),
                r@ == rfs_upto(g@.log, locs@, loc, reader, monitor, k as nat),
            decreases g@.log.len() - k,
        {
            let l = g.label_in(k);
            if self.is_on_offer(g, locs, loc, reader, monitor, l) && !self.is_overtaking(
                g,
                locs,
                loc,
                reader,
                monitor,
                l,
            ) {
                r.push(l.pos);
            }
            k += 1;
        }
        r
    }

    /// The sends that are there for `reader` to take.
    pub fn offers<P: RecvPredicate>(
        &self,
        g: &ExecutionGraph,
        locs: &Vec<RecvLoc<P>>,
        loc: usize,
        reader: Event,
        monitor: bool,
    ) -> (r: Vec<Event>)
        ensures
            r@ == offers_of(g@.log, locs@, loc, reader, monitor),
    {
        let mut r: Vec<Event> = Vec::new();
        let mut k: usize = 0;
        while k < g.len()
            invariant
                k <= g@.log.len(),
                r@ == offers_upto(g@.log, locs@, loc, reader, monitor, k as nat),
            decreases g@.log.len() - k,
        {
            let l = g.label_in(k);
            if self.is_on_offer(g, locs, loc, reader, monitor, l) {
                r.push(l.pos);
            }
            k += 1;
        }
        r
    }

    /// The sends that an inbox may read.
    pub fn inbox_rfs<P: RecvPredicate>(
        &self,
        g: &ExecutionGraph,
        locs: &Vec<RecvLoc<P>>,
        loc: usize,
        reader: Event,
    ) -> (r: Vec<Event>)
        ensures
            r@ == offers_of(g@.log, locs@, loc, reader, false),
    {
        self.offers(g, locs, loc, reader, false)
    }

    /// Whether all that has to arrive before the message of `l` and is on offer is in
    /// `set`.
    fn is_preceded<P: RecvPredicate>(
        &self,
        g: &ExecutionGraph,
        locs: &Vec<RecvLoc<P>>,
        loc: usize,
        reader: Event,
        set: &Vec<Event>,
        l: &Label,
    ) -> (b: bool)
        ensures
            b == forall|k: int|
                0 <= k < g@.log.len() && arrives_first(#[trigger] g@.log[k], l@) && on_offer(
                    g@.log,
                    locs@,
                    loc,
                    reader,
                    false,
                    g@.log[k],
                ) ==> set@.contains(g@.log[k].pos),
    {
        let (to, model): (Loc, CommunicationModel) = match &l.kind {
            LabelKind::Send { loc: to, model, .. } => (*to, *model),
            _ => {
                return true;
            },
        };
        if model == CommunicationModel::NoOrder {
            return true;
        }
        let mut k: usize = 0;
        while k < g.len()
            invariant
                k <= g@.log.len(),
                l@.kind matches KindView::Send { loc, model, .. } && loc == to && model
                    == CommunicationModel::LocalOrder,
                forall|j: int|
                    0 <= j < k && arrives_first(#[trigger] g@.log[j], l@) && on_offer(
                        g@.log,
                        locs@,
                        loc,
                        reader,
                        false,
                        g@.log[j],
                    ) ==> set@.contains(g@.log[j].pos),
            decreases g@.log.len() - k,
        {
            let other = g.label_in(k);
            let same_loc = match &other.kind {
                LabelKind::Send { loc: other_to, .. } => *other_to == to,
                _ => false,
            };
            if same_loc && other.pos.thread == l.pos.thread && other.pos.index < l.pos.index {
                assert(arrives_first(g@.log[k as int], l@));
                if !crate::event_label::event_in(set, other.pos) && self.is_on_offer(
                    g,
                    locs,
                    loc,
                    reader,
                    false,
                    other,
                ) {
                    return false;
                }
            }
            k += 1;
        }
        true
    }

    /// Whether a set of messages can be taken at once.
    pub fn is_in_order<P: RecvPredicate>(
        &self,
        g: &ExecutionGraph,
        locs: &Vec<RecvLoc<P>>,
        loc: usize,
        reader: Event,
        set: &Vec<Event>,
    ) -> (b: bool)
        ensures
            b == in_order(g@.log, locs@, loc, reader, set@),
    {
        let mut i: usize = 0;
        while i < g.len()
            invariant
                i <= g@.log.len(),
                forall|j: int, k: int|
                    #![trigger g@.log[j], g@.log[k]]
                    0 <= j < i && 0 <= k < g@.log.len() && set@.contains(g@.log[j].pos)
                        && arrives_first(g@.log[k], g@.log[j]) && on_offer(
                        g@.log,
                        locs@,
                        loc,
                        reader,
                        false,
                        g@.log[k],
                    ) ==> set@.contains(g@.log[k].pos),
            decreases g@.log.len() - i,
        {
            let l = g.label_in(i);
            if crate::event_label::event_in(set, l.pos) {
                if !self.is_preceded(g, locs, loc, reader, set, l) {
                    proof {
                        let k = choose|k: int|
                            0 <= k < g@.log.len() && arrives_first(#[trigger] g@.log[k], l@)
                                && on_offer(g@.log, locs@, loc, reader, false, g@.log[k])
                                && !set@.contains(g@.log[k].pos);
                        assert(set@.contains(g@.log[i as int].pos));
                        assert(arrives_first(g@.log[k], g@.log[i as int]));
                    }
                    return false;
                }
            }
            i += 1;
        }
        true
    }

    /// Whether the receive `r` may read `send` once it is revisited by it.
    pub fn is_revisit_consistent<P: RecvPredicate>(
        &self,
        g: &ExecutionGraph,
        locs: &Vec<RecvLoc<P>>,
        loc: usize,
        r: &Label,
        monitor: bool,
        send: Event,
    ) -> (b: bool)
        requires
            g.wf(),
        ensures
            b == revisit_readable(g@, locs@, loc, r@, monitor, seq![send], send),
    {
        let mut sends: Vec<Event> = Vec::new();
        sends.push(send);
        assert(sends@ =~= seq![send]);
        let rest = g.copy_for_revisit(r.stamp, &sends);
        let rfs = self.rfs(&rest, locs, loc, r.pos, monitor);
        crate::event_label::event_in(&rfs, send)
    }

    /// Whether the inbox `i` may read all of `sends` once it is revisited by them.
    pub fn is_revisit_consistent_inbox<P: RecvPredicate>(
        &self,
        g: &ExecutionGraph,
        locs: &Vec<RecvLoc<P>>,
        loc: usize,
        i: &Label,
        sends: &Vec<Event>,
    ) -> (b: bool)
        requires
            g.wf(),
        ensures
            b == inbox_readable(g@, locs@, loc, i@, sends@),
    {
        let prefix = g.porf(sends);
        assert(crate::vector_clock::covers(prefix@, i@.pos) <==> comes_before(
            g@.log,
            sends@,
            i@.pos,
        ));
        if prefix.contains(i.pos) {
            return false;
        }
        let rest = g.copy_for_revisit(i.stamp, sends);
        let rfs = self.inbox_rfs(&rest, locs, loc, i.pos);
        let mut k: usize = 0;
        while k < sends.len()
            invariant
                k <= sends.len(),
                rfs@ == offers_of(restricted(g@, i@.stamp, sends@).log, locs@, loc, i@.pos, false),
                forall|j: int| 0 <= j < k ==> rfs@.contains(#[trigger] sends@[j]),
            decreases sends.len() - k,
        {
            if !crate::event_label::event_in(&rfs, sends[k]) {
                assert(!rfs@.contains(sends@[k as int]));
                return false;
            }
            k += 1;
        }
        self.is_in_order(&rest, locs, loc, i.pos, sends)
    }

    /// Sorts a set of events and drops repetitions.
    pub fn normalize_event_set(events: &Vec<Event>) -> (r: Vec<Event>)
        ensures
            r@ == normalized(events@, events@.len()),
    {
        let mut r: Vec<Event> = Vec::new();
        let mut i: usize = 0;
        while i < events.len()
            invariant
                i <= events.len(),
                r@ == normalized(events@, i as nat),
            decreases events.len() - i,
        {
            insert_event(&mut r, events[i]);
            i += 1;
        }
        r
    }

    /// The newest send of a set.
    pub fn inbox_owner(g: &ExecutionGraph, events: &Vec<Event>) -> (r: Option<Event>)
        requires
            g.wf(),
        ensures
            r == owner_of(g@.log, events@),
    {
        let mut owner: Option<Event> = None;
        let mut newest: usize = 0;
        let mut i: usize = 0;
        while i < events.len()
            invariant
                g.wf(),
                i <= events.len(),
                owner == owner_upto(g@.log, events@, i as nat),
                owner matches Some(o) ==> newest == stamp_of(g@.log, o),
            decreases events.len() - i,
        {
            let stamp = match g.label_opt(events[i]) {
                Some(l) => l.stamp,
                None => 0,
            };
            if owner.is_none() || stamp >= newest {
                owner = Some(events[i]);
                newest = stamp;
            }
            i += 1;
        }
        owner
    }
}

} // verus!
