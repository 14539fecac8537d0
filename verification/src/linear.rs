//! Putting the events of a graph in an order in which they can run.

use crate::event::Event;
use crate::event_label::{event_in, LabelView};
use crate::exec_graph::{comes_before, is_cause, previous, ExecutionGraph};
use crate::vector_clock::covers;
use vstd::prelude::*;

verus! {

/// Whether `x` is wanted: it comes before `pos`, or everything is wanted.
pub open spec fn wanted(log: Seq<LabelView>, pos: Option<Event>, x: Event) -> bool {
    match pos {
        Some(e) => comes_before(log, seq![e], x),
        None => true,
    }
}

/// Whether the event labelled `l` can run once `done` have run.
pub open spec fn can_run(log: Seq<LabelView>, l: LabelView, done: Seq<Event>) -> bool {
    &&& l.pos.index > 0 ==> done.contains(previous(l.pos))
    &&& forall|c: Event| #[trigger] is_cause(log, l, c) ==> done.contains(c)
}

/// Whether the `k`-th event of `order` is a wanted event of the log that can run
/// after those before it, and does not occur among them.
pub open spec fn fits(log: Seq<LabelView>, pos: Option<Event>, order: Seq<Event>, k: int) -> bool {
    exists|i: int|
        0 <= i < log.len() && (#[trigger] log[i]).pos == order[k] && wanted(log, pos, order[k])
            && can_run(log, log[i], order.take(k)) && !order.take(k).contains(order[k])
}

/// Whether `order` is an order in which wanted events can run.
pub open spec fn runs(log: Seq<LabelView>, pos: Option<Event>, order: Seq<Event>) -> bool {
    forall|k: int| 0 <= k < order.len() ==> #[trigger] fits(log, pos, order, k)
}

/// Whether no wanted event is left that can run after `order`.
pub open spec fn exhausted(log: Seq<LabelView>, pos: Option<Event>, order: Seq<Event>) -> bool {
    forall|i: int|
        0 <= i < log.len() && wanted(log, pos, (#[trigger] log[i]).pos) && !order.contains(
            log[i].pos,
        ) ==> !can_run(log, log[i], order)
}

/// How many of the first `n` labels are not in `order`.
pub open spec fn missing(log: Seq<LabelView>, order: Seq<Event>, n: nat) -> nat
    decreases n,
{
    if n == 0 {
        0
    } else {
        missing(log, order, (n - 1) as nat) + if order.contains(log[n - 1].pos) {
            0nat
        } else {
            1
        }
    }
}

proof fn lemma_missing(log: Seq<LabelView>, order: Seq<Event>, i: int, n: nat)
    requires
        0 <= i < log.len(),
        n <= log.len(),
        !order.contains(log[i].pos),
    ensures
        missing(log, order.push(log[i].pos), n) <= missing(log, order, n),
        i < n ==> missing(log, order.push(log[i].pos), n) < missing(log, order, n),
    decreases n,
{
    if n > 0 {
        lemma_missing(log, order, i, (n - 1) as nat);
        let longer = order.push(log[i].pos);
        if order.contains(log[n - 1].pos) {
            let k = choose|k: int| 0 <= k < order.len() && order[k] == log[n - 1].pos;
            assert(longer[k] == log[n - 1].pos);
        }
        assert(longer[order.len() as int] == log[i].pos);
    }
}

/// An order stays one when an event that can run is put behind it.
proof fn lemma_push_runs(
    log: Seq<LabelView>,
    pos: Option<Event>,
    order: Seq<Event>,
    i: int,
)
    requires
        runs(log, pos, order),
        0 <= i < log.len(),
        wanted(log, pos, log[i].pos),
        can_run(log, log[i], order),
        !order.contains(log[i].pos),
    ensures
        runs(log, pos, order.push(log[i].pos)),
{
    let longer = order.push(log[i].pos);
    assert forall|k: int| 0 <= k < longer.len() implies #[trigger] fits(log, pos, longer, k) by {
        if k < order.len() {
            assert(fits(log, pos, order, k));
            assert(longer.take(k) =~= order.take(k));
            assert(longer[k] == order[k]);
        } else {
            assert(longer.take(k) =~= order);
            assert(log[i].pos == longer[k]);
        }
    }
}

impl ExecutionGraph {
    /// Whether all of `events` are in `done`.
    fn all_done(events: &Vec<Event>, done: &Vec<Event>) -> (b: bool)
        ensures
            b == forall|c: Event| #[trigger] events@.contains(c) ==> done@.contains(c),
    {
        let mut i: usize = 0;
        while i < events.len()
            invariant
                i <= events.len(),
                forall|k: int| 0 <= k < i ==> done@.contains(#[trigger] events@[k]),
            decreases events.len() - i,
        {
            if !event_in(done, events[i]) {
                assert(events@.contains(events@[i as int]));
                return false;
            }
            i += 1;
        }
        assert forall|c: Event| #[trigger] events@.contains(c) implies done@.contains(c) by {
            let k = choose|k: int| 0 <= k < events@.len() && events@[k] == c;
            assert(done@.contains(events@[k]));
        }
        true
    }

    /// The events of the graph, or those that come before `pos`, in an order in which
    /// they can run: each after the event before it in its thread and after all that
    /// it comes after. Events that wait for each other are left out.
    pub fn top_sort(&self, pos: Option<Event>) -> (order: Vec<Event>)
        requires
            self.wf(),
        ensures
            runs(self@.log, pos, order@),
            exhausted(self@.log, pos, order@),
    {
        let ghost log = self@.log;
        let mut seeds: Vec<Event> = Vec::new();
        if let Some(e) = pos {
            seeds.push(e);
        }
        assert(pos matches Some(e) ==> seeds@ =~= seq![e]);
        let prefix = self.porf(&seeds);
        let mut order: Vec<Event> = Vec::new();
        let mut progress = true;
        while progress
            invariant
                self.wf(),
                log == self@.log,
                prefix.wf(),
                pos matches Some(e) ==> seeds@ == seq![e],
                forall|x: Event| #[trigger]
                    covers(prefix@, x) <==> comes_before(log, seeds@, x),
                runs(log, pos, order@),
                !progress ==> exhausted(log, pos, order@),
            decreases missing(log, order@, log.len()), (if progress { 1nat } else { 0 }),
        {
            progress = false;
            let ghost start = order@;
            let mut i: usize = 0;
            while i < self.len()
                invariant
                    self.wf(),
                    log == self@.log,
                    prefix.wf(),
                    pos matches Some(e) ==> seeds@ == seq![e],
                    forall|x: Event| #[trigger]
                        covers(prefix@, x) <==> comes_before(log, seeds@, x),
                    i <= log.len(),
                    runs(log, pos, order@),
                    progress ==> missing(log, order@, log.len()) < missing(log, start, log.len()),
                    !progress ==> order@ == start,
                    !progress ==> forall|k: int|
                        0 <= k < i && wanted(log, pos, (#[trigger] log[k]).pos) && !order@.contains(
                            log[k].pos,
                        ) ==> !can_run(log, log[k], order@),
                decreases log.len() - i,
            {
                let l = self.label_in(i);
                let e = l.pos;
                assert(covers(prefix@, e) <==> comes_before(log, seeds@, e));
                let is_wanted = match pos {
                    Some(_) => prefix.contains(e),
                    None => true,
                };
                if is_wanted && !event_in(&order, e) {
                    let before_done = if e.index == 0 {
                        true
                    } else {
                        event_in(&order, Event::new(e.thread, e.index - 1))
                    };
                    let causes = self.causes(i);
                    let ready = before_done && Self::all_done(&causes, &order);
                    proof {
                        assert(e.index > 0 ==> previous(e) == (Event {
                            thread: e.thread,
                            index: (e.index - 1) as u32,
                        }));
                        assert(ready == can_run(log, log[i as int], order@)) by {
                            if ready {
                                assert forall|c: Event| #[trigger]
                                    is_cause(log, log[i as int], c) implies order@.contains(c) by {
                                    assert(causes@.contains(c));
                                }
                            }
                            if can_run(log, log[i as int], order@) {
                                assert forall|c: Event| #[trigger]
                                    causes@.contains(c) implies order@.contains(c) by {
                                    assert(is_cause(log, log[i as int], c));
                                }
                            }
                        }
                    }
                    if ready {
                        proof {
                            lemma_push_runs(log, pos, order@, i as int);
                            lemma_missing(log, order@, i as int, log.len());
                        }
                        order.push(e);
                        progress = true;
                    }
                }
                i += 1;
            }
        }
        order
    }
}

} // verus!
