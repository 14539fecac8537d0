//! Revisits: what remains to be explored, and in which order.

use crate::event::Event;
use crate::event_label::copy_events;
use vstd::prelude::*;

verus! {

/// What a revisited event is made to read.
pub enum RevisitPlacement {
    /// A receive reads one send.
    Default(Event),
    /// An inbox reads a set of sends.
    Inbox(Vec<Event>),
}

/// What a revisited event is made to read, as the contracts see it.
pub enum PlacementView {
    Default(Event),
    Inbox(Seq<Event>),
}

impl View for RevisitPlacement {
    type V = PlacementView;

    open spec fn view(&self) -> PlacementView {
        match *self {
            RevisitPlacement::Default(e) => PlacementView::Default(e),
            RevisitPlacement::Inbox(es) => PlacementView::Inbox(es@),
        }
    }
}

/// The sends of a placement.
pub open spec fn sends_of(placement: PlacementView) -> Seq<Event> {
    match placement {
        PlacementView::Default(e) => seq![e],
        PlacementView::Inbox(es) => es,
    }
}

/// An event to be revisited, and what it is made to read.
pub struct Revisit {
    pub pos: Event,
    pub rev: RevisitPlacement,
}

impl Revisit {
    pub fn new(pos: Event, rev: Event) -> (r: Self)
        ensures
            r.pos == pos,
            r.rev@ == PlacementView::Default(rev),
    {
        Revisit { pos, rev: RevisitPlacement::Default(rev) }
    }

    pub fn new_inbox(pos: Event, rev: Vec<Event>) -> (r: Self)
        ensures
            r.pos == pos,
            r.rev@ == PlacementView::Inbox(rev@),
    {
        Revisit { pos, rev: RevisitPlacement::Inbox(rev) }
    }

    /// The sends of the revisit.
    pub fn sends(&self) -> (r: Vec<Event>)
        ensures
            r@ == sends_of(self.rev@),
    {
        match &self.rev {
            RevisitPlacement::Default(e) => {
                let mut r: Vec<Event> = Vec::new();
                r.push(*e);
                assert(r@ =~= seq![*e]);
                r
            },
            RevisitPlacement::Inbox(es) => copy_events(es),
        }
    }
}

/// A revisit, with the direction in which it goes.
pub enum RevisitEnum {
    /// A later alternative of an event that was recorded already.
    ForwardRevisit(Revisit),
    /// An earlier receive made to read a send that was recorded after it.
    BackwardRevisit(Revisit),
}

/// A revisit as the contracts see it.
pub struct RevisitView {
    pub backward: bool,
    pub pos: Event,
    pub rev: PlacementView,
}

impl View for RevisitEnum {
    type V = RevisitView;

    open spec fn view(&self) -> RevisitView {
        match *self {
            RevisitEnum::ForwardRevisit(r) => RevisitView {
                backward: false,
                pos: r.pos,
                rev: r.rev@,
            },
            RevisitEnum::BackwardRevisit(r) => RevisitView {
                backward: true,
                pos: r.pos,
                rev: r.rev@,
            },
        }
    }
}

impl RevisitEnum {
    pub fn new_forward(pos: Event, rev: Event) -> (r: Self)
        ensures
            r@ == (RevisitView { backward: false, pos, rev: PlacementView::Default(rev) }),
    {
        RevisitEnum::ForwardRevisit(Revisit::new(pos, rev))
    }

    pub fn new_forward_inbox(pos: Event, rev: Vec<Event>) -> (r: Self)
        ensures
            r@ == (RevisitView { backward: false, pos, rev: PlacementView::Inbox(rev@) }),
    {
        RevisitEnum::ForwardRevisit(Revisit::new_inbox(pos, rev))
    }

    pub fn new_backward(pos: Event, rev: Event) -> (r: Self)
        ensures
            r@ == (RevisitView { backward: true, pos, rev: PlacementView::Default(rev) }),
    {
        RevisitEnum::BackwardRevisit(Revisit::new(pos, rev))
    }

    pub fn pos(&self) -> (e: Event)
        ensures
            e == self@.pos,
    {
        match self {
            RevisitEnum::ForwardRevisit(r) => r.pos,
            RevisitEnum::BackwardRevisit(r) => r.pos,
        }
    }
}

/// The place in a worklist after all entries among the first `n` with a stamp of
/// at most `stamp`, where stamps do not descend.
pub open spec fn place_for(list: Seq<(usize, RevisitView)>, stamp: usize, n: nat) -> nat
    decreases n,
{
    if n == 0 {
        0
    } else if list[n - 1].0 <= stamp {
        n
    } else {
        place_for(list, stamp, (n - 1) as nat)
    }
}

/// The worklist with a revisit for the event stamped `stamp`.
pub open spec fn pushed(list: Seq<(usize, RevisitView)>, stamp: usize, r: RevisitView) -> Seq<
    (usize, RevisitView),
> {
    list.insert(place_for(list, stamp, list.len()) as int, (stamp, r))
}

/// The invariant of worklists: stamps do not descend.
pub open spec fn list_sorted(list: Seq<(usize, RevisitView)>) -> bool {
    forall|i: int, j: int|
        0 <= i <= j < list.len() ==> (#[trigger] list[i]).0 <= (#[trigger] list[j]).0
}

/// What `place_for` finds.
pub proof fn lemma_place_for(list: Seq<(usize, RevisitView)>, stamp: usize, n: nat)
    requires
        n <= list.len(),
    ensures
        place_for(list, stamp, n) <= n,
        place_for(list, stamp, n) > 0 ==> list[place_for(list, stamp, n) - 1].0 <= stamp,
        forall|i: int| place_for(list, stamp, n) <= i < n ==> (#[trigger] list[i]).0 > stamp,
    decreases n,
{
    if n > 0 {
        lemma_place_for(list, stamp, (n - 1) as nat);
    }
}

/// A pushed revisit comes after those with the same or a smaller stamp and
/// before those with a larger one, and no other entry moves past another.
pub proof fn lemma_pushed(list: Seq<(usize, RevisitView)>, stamp: usize, r: RevisitView)
    requires
        list_sorted(list),
    ensures
        list_sorted(pushed(list, stamp, r)),
        pushed(list, stamp, r).len() == list.len() + 1,
        forall|i: int|
            0 <= i < list.len() + 1 ==> (#[trigger] pushed(list, stamp, r)[i]) == (stamp, r)
                || list.contains(pushed(list, stamp, r)[i]),
        forall|i: int| 0 <= i < list.len() ==> pushed(list, stamp, r).contains(#[trigger] list[i]),
        pushed(list, stamp, r).contains((stamp, r)),
{
    lemma_place_for(list, stamp, list.len());
    let k = place_for(list, stamp, list.len()) as int;
    let after = pushed(list, stamp, r);
    assert(after[k] == (stamp, r));
    assert forall|i: int| 0 <= i < after.len() && i != k implies #[trigger] after[i] == if i < k {
        list[i]
    } else {
        list[i - 1]
    } by {}
    assert forall|i: int, j: int| 0 <= i <= j < after.len() implies (#[trigger] after[i]).0 <= (
    #[trigger] after[j]).0 by {
        if i < k {
            assert(list[i].0 <= list[k - 1].0);
        }
    }
    assert forall|i: int| 0 <= i < list.len() implies after.contains(#[trigger] list[i]) by {
        if i < k {
            assert(after[i] == list[i]);
        } else {
            assert(after[i + 1] == list[i]);
        }
    }
}

/// What is taken from a worklist is one of the revisits for the largest stamp,
/// and among those the one that was added last.
pub proof fn law_pop_takes_latest(
    list: Seq<(usize, RevisitView)>,
    stamp: usize,
    r: RevisitView,
)
    requires
        list_sorted(list),
    ensures
        forall|i: int|
            0 <= i < list.len() ==> (#[trigger] list[i]).0 <= list.last().0,
        (forall|i: int| 0 <= i < list.len() ==> (#[trigger] list[i]).0 <= stamp) ==> pushed(
            list,
            stamp,
            r,
        ).last() == (stamp, r) && pushed(list, stamp, r).drop_last() == list,
{
    lemma_place_for(list, stamp, list.len());
    if forall|i: int| 0 <= i < list.len() ==> (#[trigger] list[i]).0 <= stamp {
        assert(place_for(list, stamp, list.len()) == list.len());
        assert(pushed(list, stamp, r).drop_last() =~= list);
    }
}

/// The revisits that remain to be made, each with the stamp of the event that
/// offers it.
pub struct RevisitQueue {
    entries: Vec<(usize, RevisitEnum)>,
}

impl View for RevisitQueue {
    type V = Seq<(usize, RevisitView)>;

    closed spec fn view(&self) -> Seq<(usize, RevisitView)> {
        Seq::new(self.entries@.len(), |i: int| (self.entries@[i].0, self.entries@[i].1@))
    }
}

impl RevisitQueue {
    pub fn new() -> (q: Self)
        ensures
            q@ == Seq::<(usize, RevisitView)>::empty(),
    {
        let q = RevisitQueue { entries: Vec::new() };
        assert(q@ =~= Seq::<(usize, RevisitView)>::empty());
        q
    }

    pub fn is_empty(&self) -> (b: bool)
        ensures
            b == (self@.len() == 0),
    {
        self.entries.len() == 0
    }

    /// How many revisits remain.
    pub fn len(&self) -> (n: usize)
        ensures
            n == self@.len(),
    {
        self.entries.len()
    }

    pub fn clear(&mut self)
        ensures
            final(self)@ == Seq::<(usize, RevisitView)>::empty(),
    {
        self.entries = Vec::new();
        assert(self@ =~= Seq::<(usize, RevisitView)>::empty());
    }
}

/// Adds a revisit for the event stamped `stamp`.
pub fn push_worklist(worklist: &mut RevisitQueue, stamp: usize, r: RevisitEnum)
    ensures
        final(worklist)@ == pushed(old(worklist)@, stamp, r@),
{
    let ghost before = worklist@;
    let mut n: usize = worklist.entries.len();
    while n > 0 && worklist.entries[n - 1].0 > stamp
        invariant
            n <= worklist.entries.len(),
            worklist@ == before,
            place_for(before, stamp, n as nat) == place_for(before, stamp, before.len()),
        decreases n,
    {
        assert(before[n - 1] == (worklist.entries@[n - 1].0, worklist.entries@[n - 1].1@));
        n -= 1;
    }
    proof {
        if n > 0 {
            assert(before[n - 1] == (worklist.entries@[n - 1].0, worklist.entries@[n - 1].1@));
        }
        assert(place_for(before, stamp, n as nat) == n);
    }
    worklist.entries.insert(n, (stamp, r));
    assert(worklist@ =~= before.insert(n as int, (stamp, r@)));
}

/// Takes the revisit to make next: the last one with the largest stamp.
pub fn pop_worklist(worklist: &mut RevisitQueue) -> (r: RevisitEnum)
    requires
        old(worklist)@.len() > 0,
    ensures
        r@ == old(worklist)@.last().1,
        final(worklist)@ == old(worklist)@.drop_last(),
{
    let ghost before = worklist@;
    let entry = worklist.entries.pop();
    assert(worklist@ =~= before.drop_last());
    match entry {
        Some(e) => e.1,
        None => RevisitEnum::new_forward(Event::new_init(), Event::new_init()),
    }
}

/// What can be reached from `current` by going through `events` from place `idx`
/// on, leaving out or taking each, where leaving out comes first.
pub open spec fn subsets_from(events: Seq<Event>, idx: nat, current: Seq<Event>) -> Seq<Seq<Event>>
    decreases events.len() - idx,
{
    if idx >= events.len() {
        seq![current]
    } else {
        subsets_from(events, idx + 1, current) + subsets_from(
            events,
            idx + 1,
            current.push(events[idx as int]),
        )
    }
}

/// Those of the first `n` sets whose size lies within the bounds.
pub open spec fn sized(sets: Seq<Seq<Event>>, min: nat, max: nat, n: nat) -> Seq<Seq<Event>>
    decreases n,
{
    if n == 0 {
        Seq::empty()
    } else if min <= sets[n - 1].len() <= max {
        sized(sets, min, max, (n - 1) as nat).push(sets[n - 1])
    } else {
        sized(sets, min, max, (n - 1) as nat)
    }
}

/// The largest number of `available` events that an inbox with limit `max` takes.
pub open spec fn upper_bound(available: nat, max: Option<usize>) -> nat {
    match max {
        Some(m) => if m < available {
            m as nat
        } else {
            available
        },
        None => available,
    }
}

/// The subsets of `events` whose size lies within the bounds.
pub open spec fn possible_subsets(events: Seq<Event>, min: usize, max: Option<usize>) -> Seq<
    Seq<Event>,
> {
    let all = subsets_from(events, 0, Seq::empty());
    sized(all, min as nat, upper_bound(events.len(), max), all.len())
}

/// The views of a list of event lists.
pub open spec fn sets_view(sets: Seq<Vec<Event>>) -> Seq<Seq<Event>> {
    Seq::new(sets.len(), |i: int| sets[i]@)
}

/// Filtering by size goes through a concatenation part by part.
pub proof fn lemma_sized_add(a: Seq<Seq<Event>>, b: Seq<Seq<Event>>, min: nat, max: nat, n: nat)
    requires
        n <= b.len(),
    ensures
        sized(a + b, min, max, a.len() + n) == sized(a, min, max, a.len()) + sized(b, min, max, n),
    decreases n,
{
    if n == 0 {
        lemma_sized_prefix(a, b, min, max, a.len());
        assert(sized(b, min, max, 0) =~= Seq::<Seq<Event>>::empty());
        assert(sized(a, min, max, a.len()) + Seq::<Seq<Event>>::empty() =~= sized(
            a,
            min,
            max,
            a.len(),
        ));
    } else {
        lemma_sized_add(a, b, min, max, (n - 1) as nat);
        assert((a + b)[a.len() + n - 1] == b[n - 1]);
        let left = sized(a, min, max, a.len());
        let right = sized(b, min, max, (n - 1) as nat);
        assert((left + right).push(b[n - 1]) =~= left + right.push(b[n - 1]));
    }
}

/// Filtering a prefix does not depend on what follows.
pub proof fn lemma_sized_prefix(
    a: Seq<Seq<Event>>,
    b: Seq<Seq<Event>>,
    min: nat,
    max: nat,
    n: nat,
)
    requires
        n <= a.len(),
    ensures
        sized(a + b, min, max, n) == sized(a, min, max, n),
    decreases n,
{
    if n > 0 {
        lemma_sized_prefix(a, b, min, max, (n - 1) as nat);
        assert((a + b)[n - 1] == a[n - 1]);
    }
}

/// The sets that can be reached have at least the size of what they start from,
/// and at most that size and what is left to take.
pub proof fn lemma_subset_sizes(events: Seq<Event>, idx: nat, current: Seq<Event>)
    requires
        idx <= events.len(),
    ensures
        forall|i: int|
            0 <= i < subsets_from(events, idx, current).len() ==> current.len() <= (
            #[trigger] subsets_from(events, idx, current)[i]).len() <= current.len() + (
            events.len() - idx),
    decreases events.len() - idx,
{
    if idx < events.len() {
        let out = subsets_from(events, idx + 1, current);
        let with = subsets_from(events, idx + 1, current.push(events[idx as int]));
        lemma_subset_sizes(events, idx + 1, current);
        lemma_subset_sizes(events, idx + 1, current.push(events[idx as int]));
        assert forall|i: int| 0 <= i < subsets_from(events, idx, current).len() implies current.len()
            <= (#[trigger] subsets_from(events, idx, current)[i]).len() <= current.len() + (
        events.len() - idx) by {
            if i < out.len() {
                assert(subsets_from(events, idx, current)[i] == out[i]);
            } else {
                assert(subsets_from(events, idx, current)[i] == with[i - out.len()]);
            }
        }
    }
}

/// No set passes the bounds where none has a size within them.
pub proof fn lemma_sized_none(sets: Seq<Seq<Event>>, min: nat, max: nat, n: nat)
    requires
        n <= sets.len(),
        forall|i: int|
            0 <= i < sets.len() ==> (#[trigger] sets[i]).len() < min || sets[i].len() > max,
    ensures
        sized(sets, min, max, n) == Seq::<Seq<Event>>::empty(),
    decreases n,
{
    if n > 0 {
        lemma_sized_none(sets, min, max, (n - 1) as nat);
    }
}

fn build(
    idx: usize,
    events: &Vec<Event>,
    min: usize,
    max_len: usize,
    current: &Vec<Event>,
    out: &mut Vec<Vec<Event>>,
)
    requires
        idx <= events.len(),
        current.len() <= idx,
        min <= max_len,
    ensures
        sets_view(final(out)@) == sets_view(old(out)@) + sized(
            subsets_from(events@, idx as nat, current@),
            min as nat,
            max_len as nat,
            subsets_from(events@, idx as nat, current@).len(),
        ),
    decreases events.len() - idx,
{
    let ghost before = sets_view(out@);
    let ghost all = subsets_from(events@, idx as nat, current@);
    let remaining = events.len() - idx;
    proof {
        lemma_subset_sizes(events@, idx as nat, current@);
    }
    if current.len() > max_len || current.len() + remaining < min {
        proof {
            lemma_sized_none(all, min as nat, max_len as nat, all.len());
            assert(before + Seq::<Seq<Event>>::empty() =~= before);
        }
        return ;
    }
    if idx == events.len() {
        proof {
            assert(all =~= seq![current@]);
            reveal_with_fuel(sized, 2);
        }
        if current.len() >= min {
            out.push(copy_events(current));
            assert(sets_view(out@) =~= before + seq![current@]);
            assert(sized(all, min as nat, max_len as nat, all.len()) =~= seq![current@]);
        } else {
            assert(before + Seq::<Seq<Event>>::empty() =~= before);
            assert(sized(all, min as nat, max_len as nat, all.len()) =~= Seq::<
                Seq<Event>,
            >::empty());
        }
        return ;
    }
    let ghost without = subsets_from(events@, idx as nat + 1, current@);
    let ghost with = subsets_from(events@, idx as nat + 1, current@.push(events@[idx as int]));
    build(idx + 1, events, min, max_len, current, out);
    let mut longer = copy_events(current);
    longer.push(events[idx]);
    build(idx + 1, events, min, max_len, &longer, out);
    proof {
        lemma_sized_add(without, with, min as nat, max_len as nat, with.len());
        assert(all == without + with);
        let a = sized(without, min as nat, max_len as nat, without.len());
        let b = sized(with, min as nat, max_len as nat, with.len());
        assert((before + a) + b =~= before + (a + b));
    }
}

/// The subsets of `events` whose size lies within the bounds of an inbox.
pub fn compute_inbox_possible_subsets_from_rfs(
    events: &Vec<Event>,
    min: usize,
    max: Option<usize>,
) -> (r: Vec<Vec<Event>>)
    ensures
        sets_view(r@) == possible_subsets(events@, min, max),
{
    let max_len = match max {
        Some(m) => if m < events.len() {
            m
        } else {
            events.len()
        },
        None => events.len(),
    };
    let ghost all = subsets_from(events@, 0, Seq::empty());
    let mut subsets: Vec<Vec<Event>> = Vec::new();
    assert(sets_view(subsets@) =~= Seq::<Seq<Event>>::empty());
    if min > max_len {
        proof {
            lemma_sized_none(all, min as nat, max_len as nat, all.len());
        }
        return subsets;
    }
    let start: Vec<Event> = Vec::new();
    assert(start@ =~= Seq::<Event>::empty());
    build(0, events, min, max_len, &start, &mut subsets);
    proof {
        let kept = sized(all, min as nat, max_len as nat, all.len());
        assert(Seq::<Seq<Event>>::empty() + kept =~= kept);
    }
    subsets
}

/// The subsets that contain `must`, among the first `n` sets.
pub open spec fn containing(sets: Seq<Seq<Event>>, must: Event, n: nat) -> Seq<Seq<Event>>
    decreases n,
{
    if n == 0 {
        Seq::empty()
    } else if sets[n - 1].contains(must) {
        containing(sets, must, (n - 1) as nat).push(sets[n - 1])
    } else {
        containing(sets, must, (n - 1) as nat)
    }
}

/// Filtering by an element goes through a concatenation part by part.
pub proof fn lemma_containing_add(a: Seq<Seq<Event>>, b: Seq<Seq<Event>>, must: Event, n: nat)
    requires
        n <= b.len(),
    ensures
        containing(a + b, must, a.len() + n) == containing(a, must, a.len()) + containing(
            b,
            must,
            n,
        ),
    decreases n,
{
    if n == 0 {
        lemma_containing_prefix(a, b, must, a.len());
        let left = containing(a, must, a.len());
        assert(left + Seq::<Seq<Event>>::empty() =~= left);
    } else {
        lemma_containing_add(a, b, must, (n - 1) as nat);
        assert((a + b)[a.len() + n - 1] == b[n - 1]);
        let left = containing(a, must, a.len());
        let right = containing(b, must, (n - 1) as nat);
        assert((left + right).push(b[n - 1]) =~= left + right.push(b[n - 1]));
    }
}

/// Filtering a prefix does not depend on what follows.
pub proof fn lemma_containing_prefix(
    a: Seq<Seq<Event>>,
    b: Seq<Seq<Event>>,
    must: Event,
    n: nat,
)
    requires
        n <= a.len(),
    ensures
        containing(a + b, must, n) == containing(a, must, n),
    decreases n,
{
    if n > 0 {
        lemma_containing_prefix(a, b, must, (n - 1) as nat);
        assert((a + b)[n - 1] == a[n - 1]);
    }
}

fn backtrack(
    out: &mut Vec<Vec<Event>>,
    current: &Vec<Event>,
    cands: &Vec<Event>,
    idx: usize,
    must: Event,
)
    requires
        idx <= cands.len(),
    ensures
        sets_view(final(out)@) == sets_view(old(out)@) + containing(
            subsets_from(cands@, idx as nat, current@),
            must,
            subsets_from(cands@, idx as nat, current@).len(),
        ),
    decreases cands.len() - idx,
{
    let ghost before = sets_view(out@);
    let ghost all = subsets_from(cands@, idx as nat, current@);
    if idx == cands.len() {
        proof {
            assert(all =~= seq![current@]);
            reveal_with_fuel(containing, 2);
        }
        if crate::event_label::event_in(current, must) {
            out.push(copy_events(current));
            assert(sets_view(out@) =~= before + seq![current@]);
            assert(containing(all, must, all.len()) =~= seq![current@]);
        } else {
            assert(before + Seq::<Seq<Event>>::empty() =~= before);
        }
        return ;
    }
    let ghost without = subsets_from(cands@, idx as nat + 1, current@);
    let ghost with = subsets_from(cands@, idx as nat + 1, current@.push(cands@[idx as int]));
    backtrack(out, current, cands, idx + 1, must);
    let mut longer = copy_events(current);
    longer.push(cands[idx]);
    backtrack(out, &longer, cands, idx + 1, must);
    proof {
        lemma_containing_add(without, with, must, with.len());
        assert(all == without + with);
        let a = containing(without, must, without.len());
        let b = containing(with, must, with.len());
        assert((before + a) + b =~= before + (a + b));
    }
}

/// The subsets of `cands` that contain `must`.
pub open spec fn all_containing(cands: Seq<Event>, must: Event) -> Seq<Seq<Event>> {
    let all = subsets_from(cands, 0, Seq::empty());
    containing(all, must, all.len())
}

pub fn subsets_containing(cands: &Vec<Event>, must: Event) -> (r: Vec<Vec<Event>>)
    ensures
        sets_view(r@) == all_containing(cands@, must),
{
    let mut out: Vec<Vec<Event>> = Vec::new();
    let start: Vec<Event> = Vec::new();
    assert(start@ =~= Seq::<Event>::empty());
    assert(sets_view(out@) =~= Seq::<Seq<Event>>::empty());
    backtrack(&mut out, &start, cands, 0, must);
    proof {
        let kept = all_containing(cands@, must);
        assert(Seq::<Seq<Event>>::empty() + kept =~= kept);
    }
    out
}

} // verus!
