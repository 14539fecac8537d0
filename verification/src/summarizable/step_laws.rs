//! Laws of the single steps of a call: how its group grows, who is let in, and what each
//! participant gets of it.
use super::entry::{chosen_outcome, granted, share_of};
use super::erased::ErasedView;
use super::outcome::{value_of, ResultView};
use super::participants::{CallView, PartView, ParticipationMode};
use super::rendezvous::{
    count_in, first_empty, first_missing, first_open, first_outside, forming, members, next_step,
    offer_fault, overfull, slot, with_offer, OfferIdView, OfferView, StepView,
};
use super::runtime::{
    arrival, nested_fault, return_fault, ActionView, ExplorationView, ModeView, RuntimeView,
};
use crate::event::ThreadId;
use crate::symbolic::expr::ExprView;
use vstd::prelude::*;

verus! {

/// Whether the thread made one of the offers.
pub open spec fn takes_part(offers: Seq<OfferView>, t: ThreadId) -> bool {
    exists|i: int| 0 <= i < offers.len() && (#[trigger] offers[i]).id.participant == t
}

/// Whether two of the list take part.
pub open spec fn two_take_part(offers: Seq<OfferView>, list: Seq<ThreadId>) -> bool {
    exists|a: int, b: int|
        0 <= a < b < list.len() && takes_part(offers, #[trigger] list[a]) && takes_part(
            offers,
            #[trigger] list[b],
        )
}

/// Whether nobody of the list takes part.
pub open spec fn none_takes_part(offers: Seq<OfferView>, list: Seq<ThreadId>) -> bool {
    forall|a: int| 0 <= a < list.len() ==> !takes_part(offers, #[trigger] list[a])
}

/// Whether all that is required takes part.
pub open spec fn all_required(offers: Seq<OfferView>) -> bool {
    forall|i: int, k: int|
        0 <= i < offers.len() && 0 <= k < offers[i].specification.required.len() ==> takes_part(
            offers,
            #[trigger] offers[i].specification.required[k],
        )
}

proof fn lemma_members(offers: Seq<OfferView>, t: ThreadId)
    ensures
        members(offers).contains(t) <==> takes_part(offers, t),
{
    if members(offers).contains(t) {
        let i = choose|i: int| 0 <= i < members(offers).len() && members(offers)[i] == t;
        assert(offers[i].id.participant == t);
    }
    if takes_part(offers, t) {
        let i = choose|i: int| 0 <= i < offers.len() && (#[trigger] offers[i]).id.participant == t;
        assert(members(offers)[i] == t);
    }
}

proof fn lemma_counted(offers: Seq<OfferView>, list: Seq<ThreadId>, n: nat)
    requires
        n <= list.len(),
    ensures
        count_in(list, members(offers), n) == 0 <==> none_takes_part(offers, list.take(n as int)),
        count_in(list, members(offers), n) > 1 <==> two_take_part(offers, list.take(n as int)),
    decreases n,
{
    let group = members(offers);
    let part = list.take(n as int);
    if n > 0 {
        let before = list.take(n - 1);
        lemma_counted(offers, list, (n - 1) as nat);
        lemma_members(offers, list[n - 1]);
        assert(part[n - 1] == list[n - 1]);
        assert(forall|k: int| 0 <= k < n - 1 ==> #[trigger] part[k] == before[k]);
        if none_takes_part(offers, part) {
            assert forall|a: int| 0 <= a < before.len() implies !takes_part(
                offers,
                #[trigger] before[a],
            ) by {
                assert(part[a] == before[a]);
            }
        }
        if two_take_part(offers, before) {
            let (a, b) = choose|a: int, b: int|
                0 <= a < b < before.len() && takes_part(offers, #[trigger] before[a])
                    && takes_part(offers, #[trigger] before[b]);
            assert(takes_part(offers, part[a]) && takes_part(offers, part[b]));
        } else if two_take_part(offers, part) {
            let (a, b) = choose|a: int, b: int|
                0 <= a < b < part.len() && takes_part(offers, #[trigger] part[a]) && takes_part(
                    offers,
                    #[trigger] part[b],
                );
            if b < n - 1 {
                assert(takes_part(offers, before[a]) && takes_part(offers, before[b]));
            } else {
                assert(takes_part(offers, before[a]));
            }
        }
        if !none_takes_part(offers, before) && takes_part(offers, list[n - 1]) {
            let a = choose|a: int| 0 <= a < before.len() && takes_part(offers, #[trigger] before[a]);
            assert(takes_part(offers, part[a]) && takes_part(offers, part[n - 1]));
        }
    }
}

proof fn lemma_first_outside(offers: Seq<OfferView>, list: Seq<ThreadId>, n: nat)
    requires
        n <= list.len(),
    ensures
        match first_outside(list, members(offers), n) {
            None => forall|k: int| 0 <= k < n ==> takes_part(offers, #[trigger] list[k]),
            Some(t) => exists|k: int|
                0 <= k < n && #[trigger] list[k] == t && !takes_part(offers, t) && forall|j: int|
                    0 <= j < k ==> takes_part(offers, #[trigger] list[j]),
        },
    decreases n,
{
    if n > 0 {
        lemma_first_outside(offers, list, (n - 1) as nat);
        lemma_members(offers, list[n - 1]);
        if first_outside(list, members(offers), (n - 1) as nat) is None && !takes_part(
            offers,
            list[n - 1],
        ) {
            assert(list[n - 1] == list[n - 1]);
        }
    }
}

/// Whether `t` is the first thread that one of the first `n` offers requires and that does
/// not take part.
pub open spec fn is_first_missing(offers: Seq<OfferView>, n: nat, t: ThreadId) -> bool {
    exists|i: int, k: int|
        {
            &&& 0 <= i < n
            &&& 0 <= k < offers[i].specification.required.len()
            &&& #[trigger] offers[i].specification.required[k] == t
            &&& !takes_part(offers, t)
            &&& forall|i2: int, k2: int|
                0 <= i2 < n && 0 <= k2 < offers[i2].specification.required.len() && (i2 < i || (i2
                    == i && k2 < k)) ==> takes_part(
                    offers,
                    #[trigger] offers[i2].specification.required[k2],
                )
        }
}

proof fn lemma_first_missing(offers: Seq<OfferView>, n: nat)
    requires
        n <= offers.len(),
    ensures
        match first_missing(offers, n) {
            None => forall|i: int, k: int|
                0 <= i < n && 0 <= k < offers[i].specification.required.len() ==> takes_part(
                    offers,
                    #[trigger] offers[i].specification.required[k],
                ),
            Some(t) => is_first_missing(offers, n, t),
        },
    decreases n,
{
    if n > 0 {
        lemma_first_missing(offers, (n - 1) as nat);
        let list = offers[n - 1].specification.required;
        lemma_first_outside(offers, list, list.len());
        match first_missing(offers, (n - 1) as nat) {
            Some(t) => {
                let (i, k) = choose|i: int, k: int|
                    {
                        &&& 0 <= i < n - 1
                        &&& 0 <= k < offers[i].specification.required.len()
                        &&& #[trigger] offers[i].specification.required[k] == t
                        &&& !takes_part(offers, t)
                        &&& forall|i2: int, k2: int|
                            0 <= i2 < n - 1 && 0 <= k2 < offers[i2].specification.required.len()
                                && (i2 < i || (i2 == i && k2 < k)) ==> takes_part(
                                offers,
                                #[trigger] offers[i2].specification.required[k2],
                            )
                    };
                assert(offers[i].specification.required[k] == t);
                assert(is_first_missing(offers, n, t));
            },
            None => {
                if let Some(t) = first_outside(list, members(offers), list.len()) {
                    let k = choose|k: int|
                        0 <= k < list.len() && #[trigger] list[k] == t && !takes_part(offers, t)
                            && forall|j: int| 0 <= j < k ==> takes_part(offers, #[trigger] list[j]);
                    assert(offers[n - 1].specification.required[k] == t);
                    assert(is_first_missing(offers, n, t));
                }
            },
        }
    }
}

proof fn lemma_first_empty(offers: Seq<OfferView>, lists: Seq<Seq<ThreadId>>, n: nat)
    requires
        n <= lists.len(),
    ensures
        match first_empty(lists, members(offers), n) {
            None => forall|k: int| 0 <= k < n ==> !none_takes_part(offers, #[trigger] lists[k]),
            Some(l) => exists|k: int|
                0 <= k < n && #[trigger] lists[k] == l && none_takes_part(offers, l)
                    && forall|j: int|
                    0 <= j < k ==> !none_takes_part(offers, #[trigger] lists[j]),
        },
    decreases n,
{
    if n > 0 {
        lemma_first_empty(offers, lists, (n - 1) as nat);
        let l = lists[n - 1];
        lemma_counted(offers, l, l.len());
        assert(l.take(l.len() as int) =~= l);
    }
}

/// Whether `l` is the first list of alternatives of the first `n` offers of which nobody
/// takes part.
pub open spec fn is_first_open(offers: Seq<OfferView>, n: nat, l: Seq<ThreadId>) -> bool {
    exists|i: int, k: int|
        {
            &&& 0 <= i < n
            &&& 0 <= k < offers[i].specification.exactly_one.len()
            &&& #[trigger] offers[i].specification.exactly_one[k] == l
            &&& none_takes_part(offers, l)
            &&& forall|i2: int, k2: int|
                0 <= i2 < n && 0 <= k2 < offers[i2].specification.exactly_one.len() && (i2 < i || (
                i2 == i && k2 < k)) ==> !none_takes_part(
                    offers,
                    #[trigger] offers[i2].specification.exactly_one[k2],
                )
        }
}

proof fn lemma_first_open(offers: Seq<OfferView>, n: nat)
    requires
        n <= offers.len(),
    ensures
        match first_open(offers, n) {
            None => forall|i: int, k: int|
                0 <= i < n && 0 <= k < offers[i].specification.exactly_one.len()
                    ==> !none_takes_part(
                    offers,
                    #[trigger] offers[i].specification.exactly_one[k],
                ),
            Some(l) => is_first_open(offers, n, l),
        },
    decreases n,
{
    if n > 0 {
        lemma_first_open(offers, (n - 1) as nat);
        let lists = offers[n - 1].specification.exactly_one;
        lemma_first_empty(offers, lists, lists.len());
        match first_open(offers, (n - 1) as nat) {
            Some(l) => {
                let (i, k) = choose|i: int, k: int|
                    {
                        &&& 0 <= i < n - 1
                        &&& 0 <= k < offers[i].specification.exactly_one.len()
                        &&& #[trigger] offers[i].specification.exactly_one[k] == l
                        &&& none_takes_part(offers, l)
                        &&& forall|i2: int, k2: int|
                            0 <= i2 < n - 1 && 0 <= k2 < offers[i2].specification.exactly_one.len()
                                && (i2 < i || (i2 == i && k2 < k)) ==> !none_takes_part(
                                offers,
                                #[trigger] offers[i2].specification.exactly_one[k2],
                            )
                    };
                assert(offers[i].specification.exactly_one[k] == l);
                assert(is_first_open(offers, n, l));
            },
            None => {
                if let Some(l) = first_empty(lists, members(offers), lists.len()) {
                    let k = choose|k: int|
                        0 <= k < lists.len() && #[trigger] lists[k] == l && none_takes_part(
                            offers,
                            l,
                        ) && forall|j: int|
                            0 <= j < k ==> !none_takes_part(offers, #[trigger] lists[j]);
                    assert(offers[n - 1].specification.exactly_one[k] == l);
                    assert(is_first_open(offers, n, l));
                }
            },
        }
    }
}

/// A resolver waits first for the threads that are required, in the order of the offers, then
/// for one of each list of alternatives; it is done when nobody is missing. It fails exactly
/// when two of one list take part.
pub proof fn law_resolvers_wait_for_who_is_missing(offers: Seq<OfferView>)
    ensures
        match next_step(offers) {
            Err(f) => f is ExactlyOne,
            Ok(StepView::Require(t)) => is_first_missing(offers, offers.len(), t),
            Ok(StepView::Choose(l)) => all_required(offers) && is_first_open(
                offers,
                offers.len(),
                l,
            ),
            Ok(StepView::Complete) => all_required(offers) && forall|i: int, k: int|
                0 <= i < offers.len() && 0 <= k < offers[i].specification.exactly_one.len()
                    ==> !none_takes_part(
                    offers,
                    #[trigger] offers[i].specification.exactly_one[k],
                ),
        },
        next_step(offers) is Err <==> exists|i: int, k: int|
            0 <= i < offers.len() && 0 <= k < offers[i].specification.exactly_one.len()
                && two_take_part(offers, #[trigger] offers[i].specification.exactly_one[k]),
{
    lemma_first_missing(offers, offers.len());
    lemma_first_open(offers, offers.len());
    assert forall|i: int, k: int|
        0 <= i < offers.len() && 0 <= k < offers[i].specification.exactly_one.len() implies (
    two_take_part(offers, #[trigger] offers[i].specification.exactly_one[k]) <==> count_in(
        offers[i].specification.exactly_one[k],
        members(offers),
        offers[i].specification.exactly_one[k].len(),
    ) > 1) by {
        let l = offers[i].specification.exactly_one[k];
        lemma_counted(offers, l, l.len());
        assert(l.take(l.len() as int) =~= l);
    }
    if exists|i: int, k: int|
        0 <= i < offers.len() && 0 <= k < offers[i].specification.exactly_one.len()
            && two_take_part(offers, #[trigger] offers[i].specification.exactly_one[k]) {
        let (i, k) = choose|i: int, k: int|
            0 <= i < offers.len() && 0 <= k < offers[i].specification.exactly_one.len()
                && two_take_part(offers, #[trigger] offers[i].specification.exactly_one[k]);
        let p = offers[i].specification;
        assert(count_in(p.exactly_one[k], members(offers), p.exactly_one[k].len()) > 1);
        assert(overfull(p, members(offers)));
    }
    if next_step(offers) is Err {
        let i = choose|i: int|
            0 <= i < offers.len() && overfull(
                (#[trigger] offers[i]).specification,
                members(offers),
            );
        let p = offers[i].specification;
        let k = choose|k: int|
            0 <= k < p.exactly_one.len() && count_in(
                #[trigger] p.exactly_one[k],
                members(offers),
                p.exactly_one[k].len(),
            ) > 1;
        assert(two_take_part(offers, offers[i].specification.exactly_one[k]));
    }
}

/// An offer is taken in exactly when it is one that the resolver waits for, from a thread
/// that does not take part yet, for the same meeting place, and by one who joins. It comes
/// behind the offers of lower threads and before those of higher ones.
pub proof fn law_offers_are_taken_in_when_waited_for(offers: Seq<OfferView>, o: OfferView)
    requires
        forming(offers),
    ensures
        offer_fault(offers, o) is None <==> {
            &&& match next_step(offers) {
                Ok(StepView::Require(t)) => o.id.participant == t,
                Ok(StepView::Choose(l)) => l.contains(o.id.participant),
                _ => false,
            }
            &&& !takes_part(offers, o.id.participant)
            &&& o.function == offers[0].function && o.depth == offers[0].depth && o.parent
                == offers[0].parent && o.resolver == offers[0].resolver
            &&& !(o.specification.mode is Resolve)
        },
        offer_fault(offers, o) is None ==> exists|at: int|
            {
                &&& 0 <= at <= offers.len()
                &&& with_offer(offers, o) == #[trigger] offers.insert(at, o)
                &&& forall|i: int|
                    0 <= i < offers.len() ==> ((#[trigger] offers[i]).id.participant.id
                        < o.id.participant.id <==> i < at)
            },
{
    lemma_members(offers, o.id.participant);
    law_resolvers_wait_for_who_is_missing(offers);
    let t = o.id.participant;
    lemma_slot_at(offers, t, offers.len());
    let at = slot(offers, t, offers.len()) as int;
    assert(with_offer(offers, o) == offers.insert(at, o));
}

proof fn lemma_slot_at(offers: Seq<OfferView>, t: ThreadId, n: nat)
    requires
        n <= offers.len(),
        forall|i: int, j: int|
            0 <= i < j < offers.len() ==> (#[trigger] offers[i]).id.participant.id < (
            #[trigger] offers[j]).id.participant.id,
    ensures
        slot(offers, t, n) <= n,
        forall|i: int|
            0 <= i < n ==> ((#[trigger] offers[i]).id.participant.id < t.id <==> i < slot(
                offers,
                t,
                n,
            )),
    decreases n,
{
    if n > 0 {
        lemma_slot_at(offers, t, (n - 1) as nat);
        let before = slot(offers, t, (n - 1) as nat);
        if offers[n - 1].id.participant.id < t.id && before < n - 1 {
            assert(offers[before as int].id.participant.id < offers[n - 1].id.participant.id);
        }
    }
}

proof fn lemma_granted(offers: Seq<OfferView>, own: ThreadId, id: OfferIdView, n: nat)
    requires
        n <= offers.len(),
    ensures
        granted(offers, own, n).contains(id) <==> exists|i: int|
            0 <= i < n && (#[trigger] offers[i]).id == id && id.participant != own,
    decreases n,
{
    if n > 0 {
        lemma_granted(offers, own, id, (n - 1) as nat);
        let before = granted(offers, own, (n - 1) as nat);
        let all = granted(offers, own, n);
        if before.contains(id) {
            let k = choose|k: int| 0 <= k < before.len() && before[k] == id;
            assert(all[k] == id);
        }
        if all.contains(id) && !before.contains(id) {
            let k = choose|k: int| 0 <= k < all.len() && all[k] == id;
            assert(k == before.len() && id == offers[n - 1].id);
        }
        if offers[n - 1].id == id && id.participant != own {
            assert(all[before.len() as int] == id);
        }
    }
}

proof fn lemma_granted_once(offers: Seq<OfferView>, own: ThreadId, n: nat)
    requires
        n <= offers.len(),
        forall|i: int, j: int|
            0 <= i < j < offers.len() ==> (#[trigger] offers[i]).id != (#[trigger] offers[j]).id,
    ensures
        granted(offers, own, n).no_duplicates(),
    decreases n,
{
    if n > 0 {
        lemma_granted_once(offers, own, (n - 1) as nat);
        let before = granted(offers, own, (n - 1) as nat);
        let all = granted(offers, own, n);
        let id = offers[n - 1].id;
        lemma_granted(offers, own, id, (n - 1) as nat);
        assert(!before.contains(id));
        assert forall|i: int, j: int|
            0 <= i < all.len() && 0 <= j < all.len() && i != j implies all[i] != all[j] by {
            if all.len() > before.len() {
                if i == before.len() {
                    assert(before.contains(before[j]));
                } else if j == before.len() {
                    assert(before.contains(before[i]));
                }
            }
        }
    }
}

/// A resolver grants the offers of all others, each once, and not its own.
pub proof fn law_all_others_are_granted(offers: Seq<OfferView>, own: ThreadId, id: OfferIdView)
    requires
        forall|i: int, j: int|
            0 <= i < j < offers.len() ==> (#[trigger] offers[i]).id != (#[trigger] offers[j]).id,
    ensures
        granted(offers, own, offers.len()).no_duplicates(),
        granted(offers, own, offers.len()).contains(id) <==> exists|i: int|
            0 <= i < offers.len() && (#[trigger] offers[i]).id == id && id.participant != own,
{
    lemma_granted(offers, own, id, offers.len());
    lemma_granted_once(offers, own, offers.len());
}

proof fn lemma_value_there<V>(values: Seq<(ThreadId, V)>, t: ThreadId, n: nat)
    requires
        n <= values.len(),
    ensures
        match value_of(values, t, n) {
            None => forall|k: int| 0 <= k < n ==> (#[trigger] values[k]).0 != t,
            Some(x) => exists|k: int| 0 <= k < n && #[trigger] values[k] == (t, x),
        },
    decreases n,
{
    if n > 0 {
        lemma_value_there(values, t, (n - 1) as nat);
        if values[n - 1].0 == t {
            assert(values[n - 1] == (t, values[n - 1].1));
        }
    }
}

/// A participant gets its own value of the selected outcome where that returns, blocks where
/// it blocks, and nothing where an assumption failed, where it has no value of its own, or
/// where nothing is selected.
pub proof fn law_participants_get_their_own_share(v: RuntimeView, call: CallView, tid: ThreadId)
    ensures
        match share_of(v, call, tid) {
            Ok(Some(x)) => {
                &&& v.call_states.contains_key(call)
                &&& v.call_states[call].mode matches Some(
                    ModeView::ApplyingSummary { selection: Some(s), .. },
                )
                &&& s.0.result matches ResultView::Returned(values)
                &&& exists|k: int| 0 <= k < values.len() && #[trigger] values[k] == (tid, x)
            },
            Ok(None) => {
                &&& v.call_states.contains_key(call)
                &&& v.call_states[call].mode matches Some(
                    ModeView::ApplyingSummary { selection: Some(s), .. },
                )
                &&& s.0.result is Blocked
            },
            Err(f) => v.call_states.contains_key(call) ==> match v.call_states[call].mode {
                Some(ModeView::ApplyingSummary { selection: Some(s), .. }) => match s.0.result {
                    ResultView::Returned(values) => f is NoReturn && forall|k: int|
                        0 <= k < values.len() ==> (#[trigger] values[k]).0 != tid,
                    ResultView::Blocked => false,
                    ResultView::AssumptionFailed => f is AssumptionFailed,
                },
                _ => f is Call,
            },
        },
{
    if v.call_states.contains_key(call) {
        if let Some(ModeView::ApplyingSummary { selection: Some(s), .. }) =
            v.call_states[call].mode {
            if let ResultView::Returned(values) = s.0.result {
                lemma_value_there(values, tid, values.len());
            }
        }
    }
}

/// An outcome is selected only where the call applies a summary and none is selected yet,
/// and it is the one at the index: the same, where nothing about it is symbolic, and one that
/// ends in the same way otherwise.
pub proof fn law_the_outcome_at_the_index_is_selected(
    v: RuntimeView,
    call: CallView,
    index: usize,
    fresh: Seq<ExprView>,
    allow_parent_inputs: bool,
)
    ensures
        chosen_outcome(v, call, index, fresh, allow_parent_inputs) matches Ok(o) ==> {
            &&& v.call_states.contains_key(call)
            &&& v.call_states[call].mode matches Some(
                ModeView::ApplyingSummary { outcomes, selection: None },
            )
            &&& index < outcomes.len()
            &&& outcomes[index as int].condition is Always ==> o == outcomes[index as int]
            &&& o.condition is Always <==> outcomes[index as int].condition is Always
            &&& o.result is Returned <==> outcomes[index as int].result is Returned
            &&& o.result is Blocked <==> outcomes[index as int].result is Blocked
        },
        v.call_states.contains_key(call) ==> (v.call_states[call].mode matches Some(
            ModeView::ApplyingSummary { outcomes, selection: None },
        ) && index < outcomes.len() && outcomes[index as int].condition is Always
            ==> chosen_outcome(v, call, index, fresh, allow_parent_inputs) is Ok),
{
}

/// Once a call has begun, a participant that arrives with what it offered runs the body with
/// its own arguments where the body is explored; where a summary is applied, it takes the
/// selected outcome, or selects one if it is the selector, or waits until one is selected.
/// Nobody is woken.
pub proof fn law_participants_go_on_once_a_call_has_begun(
    v: RuntimeView,
    tid: ThreadId,
    call: CallView,
    arguments: Seq<ErasedView>,
    expected: Option<ExplorationView>,
)
    requires
        v.call_states.contains_key(call),
        v.call_states[call].mode is Some,
    ensures
        ({
            let s = v.call_states[call];
            arrival(v, tid, call, arguments, expected) matches Ok(a) ==> {
                &&& s.participants.contains(tid)
                &&& a.wake.len() == 0 && a.miss is None
                &&& a.state.mode == s.mode
                &&& match s.mode {
                    Some(ModeView::ExploringBody) => {
                        &&& a.action matches ActionView::ExecuteBody { call: c, arguments: own }
                        &&& c == call
                        &&& s.body_arguments matches Some(inputs)
                        &&& exists|k: int| 0 <= k < inputs.len() && #[trigger] inputs[k] == (tid, own)
                    },
                    Some(ModeView::ApplyingSummary { selection, .. }) => if selection is Some {
                        a.action == ActionView::ApplySummary(call)
                    } else if tid == s.selector {
                        a.action == (ActionView::SelectSummaryOutcome { call })
                    } else {
                        a.action is WaitForParticipants && a.state.waiting.contains(tid)
                    },
                    None => true,
                }
            }
        }),
{
    let s = v.call_states[call];
    if let Some(inputs) = s.body_arguments {
        lemma_value_there(inputs, tid, inputs.len());
    }
    if !s.waiting.contains(tid) {
        assert(s.waiting.push(tid)[s.waiting.len() as int] == tid);
    }
}

/// A return is taken exactly from a participant of the call that has not returned yet.
pub proof fn law_participants_return_once(v: RuntimeView, tid: ThreadId, call: CallView)
    ensures
        return_fault(v, tid, call) is None <==> {
            &&& v.call_states.contains_key(call)
            &&& v.call_states[call].participants.contains(tid)
            &&& forall|k: int|
                0 <= k < v.call_states[call].returned.len() ==> (
                #[trigger] v.call_states[call].returned[k]).0 != tid
        },
{
    if v.call_states.contains_key(call) {
        let s = v.call_states[call];
        lemma_value_there(s.returned, tid, s.returned.len());
    }
}

/// The demands of a call inside another are accepted exactly when the caller, its resolver,
/// and all whom it names take part in the call around it.
pub proof fn law_nested_calls_stay_within_their_parent(
    v: RuntimeView,
    parent: CallView,
    caller: ThreadId,
    p: PartView,
)
    ensures
        nested_fault(v, Some(parent), caller, p) is None <==> {
            let around = v.call_states[parent].participants;
            &&& v.call_states.contains_key(parent)
            &&& around.contains(caller)
            &&& p.mode matches ParticipationMode::Join(r) ==> around.contains(r)
            &&& forall|k: int| 0 <= k < p.required.len() ==> around.contains(#[trigger] p.required[k])
            &&& forall|k: int, m: int|
                0 <= k < p.exactly_one.len() && 0 <= m < p.exactly_one[k].len() ==> around.contains(
                    #[trigger] p.exactly_one[k][m],
                )
        },
        nested_fault(v, None, caller, p) is None,
{
}

} // verus!
