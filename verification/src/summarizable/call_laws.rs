//! How groups become calls, and how calls begin and end.

use super::coverage::law_values_are_found_where_they_were_put;
use super::outcome::{local_values, value_of, values_ascend};
use super::erased::ErasedView;
use super::participants::CallView;
use super::rendezvous::{
    count_in, domain_of, group_fault, has_exactly_one, has_required, member_fault, members,
    resolvers, OfferView,
};
use super::runtime::{
    arrival, committed, count_of, joined, keys_of, known_outcomes, new_state, offered_arguments,
    opening, ExplorationView, ModeView, RuntimeView, StateView,
};
use super::symmetry::{actual_for, identity_pairs, renamed};
use crate::event::ThreadId;
use crate::symbolic::expr::{ExprView, SymVarId, SymVarKind};
use vstd::prelude::*;

verus! {

/// Whether exactly one place below `n` is picked.
pub open spec fn exactly_one(picked: spec_fn(int) -> bool, n: nat) -> bool {
    exists|i: int|
        0 <= i < n && #[trigger] picked(i) && forall|j: int|
            0 <= j < n && #[trigger] picked(j) ==> j == i
}

proof fn lemma_count_in(list: Seq<ThreadId>, group: Seq<ThreadId>, n: nat)
    requires
        n <= list.len(),
    ensures
        count_in(list, group, n) == 0 <==> forall|i: int|
            0 <= i < n ==> !group.contains(#[trigger] list[i]),
        count_in(list, group, n) == 1 <==> exactly_one(|i: int| group.contains(list[i]), n),
    decreases n,
{
    let picked = |i: int| group.contains(list[i]);
    if n > 0 {
        let m = (n - 1) as nat;
        lemma_count_in(list, group, m);
        if group.contains(list[n - 1]) {
            assert(picked(n - 1));
            if count_in(list, group, n) == 1 {
                assert forall|j: int| 0 <= j < n && #[trigger] picked(j) implies j == n - 1 by {
                    if j < m {
                        assert(!group.contains(list[j]));
                    }
                }
            }
            if exactly_one(picked, n) {
                let i = choose|i: int|
                    0 <= i < n && #[trigger] picked(i) && forall|j: int|
                        0 <= j < n && #[trigger] picked(j) ==> j == i;
                assert(i == n - 1);
                assert forall|j: int| 0 <= j < m implies !group.contains(#[trigger] list[j]) by {
                    if group.contains(list[j]) {
                        assert(picked(j));
                    }
                }
            }
        } else {
            if exactly_one(picked, m) {
                let i = choose|i: int|
                    0 <= i < m && #[trigger] picked(i) && forall|j: int|
                        0 <= j < m && #[trigger] picked(j) ==> j == i;
                assert(picked(i));
                assert forall|j: int| 0 <= j < n && #[trigger] picked(j) implies j == i by {}
            }
            if exactly_one(picked, n) {
                let i = choose|i: int|
                    0 <= i < n && #[trigger] picked(i) && forall|j: int|
                        0 <= j < n && #[trigger] picked(j) ==> j == i;
                assert(i < m);
                assert(picked(i));
            }
        }
    } else {
        assert(!exactly_one(picked, 0));
    }
}

proof fn lemma_resolvers(offers: Seq<OfferView>, n: nat)
    requires
        n <= offers.len(),
    ensures
        resolvers(offers, n) == 0 <==> forall|i: int|
            0 <= i < n ==> !((#[trigger] offers[i]).specification.mode is Resolve),
        resolvers(offers, n) == 1 <==> exactly_one(
            |i: int| offers[i].specification.mode is Resolve,
            n,
        ),
    decreases n,
{
    let picked = |i: int| offers[i].specification.mode is Resolve;
    if n > 0 {
        let m = (n - 1) as nat;
        lemma_resolvers(offers, m);
        if offers[n - 1].specification.mode is Resolve {
            assert(picked(n - 1));
            if resolvers(offers, n) == 1 {
                assert forall|j: int| 0 <= j < n && #[trigger] picked(j) implies j == n - 1 by {
                    if j < m {
                        assert(!(offers[j].specification.mode is Resolve));
                    }
                }
            }
            if exactly_one(picked, n) {
                let i = choose|i: int|
                    0 <= i < n && #[trigger] picked(i) && forall|j: int|
                        0 <= j < n && #[trigger] picked(j) ==> j == i;
                assert(i == n - 1);
                assert forall|j: int| 0 <= j < m implies !((
                #[trigger] offers[j]).specification.mode is Resolve) by {
                    if offers[j].specification.mode is Resolve {
                        assert(picked(j));
                    }
                }
            }
        } else {
            if exactly_one(picked, m) {
                let i = choose|i: int|
                    0 <= i < m && #[trigger] picked(i) && forall|j: int|
                        0 <= j < m && #[trigger] picked(j) ==> j == i;
                assert(picked(i));
                assert forall|j: int| 0 <= j < n && #[trigger] picked(j) implies j == i by {}
            }
            if exactly_one(picked, n) {
                let i = choose|i: int|
                    0 <= i < n && #[trigger] picked(i) && forall|j: int|
                        0 <= j < n && #[trigger] picked(j) ==> j == i;
                assert(i < m);
                assert(picked(i));
            }
        }
    } else {
        assert(!exactly_one(picked, 0));
    }
}

/// Whether thread `t` made one of the offers.
pub open spec fn takes_part(offers: Seq<OfferView>, t: ThreadId) -> bool {
    exists|i: int| 0 <= i < offers.len() && (#[trigger] offers[i]).id.participant == t
}

/// Whether all that an offer asks for is met: all whom it requires take part, and of each
/// list of alternatives exactly one.
pub open spec fn is_met(offers: Seq<OfferView>, o: OfferView) -> bool {
    &&& forall|k: int|
        0 <= k < o.specification.required.len() ==> takes_part(
            offers,
            #[trigger] o.specification.required[k],
        )
    &&& forall|k: int|
        0 <= k < o.specification.exactly_one.len() ==> exactly_one(
            |i: int| takes_part(offers, o.specification.exactly_one[k][i]),
            (#[trigger] o.specification.exactly_one[k]).len(),
        )
}

proof fn lemma_members(offers: Seq<OfferView>, t: ThreadId)
    ensures
        members(offers).contains(t) == takes_part(offers, t),
{
    if members(offers).contains(t) {
        let i = choose|i: int| 0 <= i < members(offers).len() && members(offers)[i] == t;
        assert(offers[i].id.participant == t);
    }
    if takes_part(offers, t) {
        let i = choose|i: int| 0 <= i < offers.len() && (#[trigger] offers[i]).id.participant == t;
        assert(members(offers)[i] == t);
    }
}

proof fn lemma_is_met(offers: Seq<OfferView>, o: OfferView)
    ensures
        is_met(offers, o) == (has_required(o.specification, members(offers)) && has_exactly_one(
            o.specification,
            members(offers),
        )),
{
    let group = members(offers);
    let p = o.specification;
    assert forall|t: ThreadId| #[trigger] group.contains(t) == takes_part(offers, t) by {
        lemma_members(offers, t);
    }
    assert(has_required(p, group) == (forall|k: int|
        0 <= k < p.required.len() ==> takes_part(offers, #[trigger] p.required[k]))) by {
        assert forall|k: int| 0 <= k < p.required.len() implies group.contains(
            #[trigger] p.required[k],
        ) == takes_part(offers, p.required[k]) by {}
    }
    assert forall|k: int| 0 <= k < p.exactly_one.len() implies (count_in(
        #[trigger] p.exactly_one[k],
        group,
        p.exactly_one[k].len(),
    ) == 1) == exactly_one(
        |i: int| takes_part(offers, p.exactly_one[k][i]),
        p.exactly_one[k].len(),
    ) by {
        let list = p.exactly_one[k];
        lemma_count_in(list, group, list.len());
        let a = |i: int| group.contains(list[i]);
        let b = |i: int| takes_part(offers, p.exactly_one[k][i]);
        assert forall|i: int| #[trigger] a(i) == b(i) by {
            lemma_members(offers, list[i]);
        }
        if exactly_one(a, list.len()) {
            let i = choose|i: int|
                0 <= i < list.len() && #[trigger] a(i) && forall|j: int|
                    0 <= j < list.len() && #[trigger] a(j) ==> j == i;
            assert(b(i));
            assert forall|j: int| 0 <= j < list.len() && #[trigger] b(j) implies j == i by {
                assert(a(j));
            }
        }
        if exactly_one(b, list.len()) {
            let i = choose|i: int|
                0 <= i < list.len() && #[trigger] b(i) && forall|j: int|
                    0 <= j < list.len() && #[trigger] b(j) ==> j == i;
            assert(a(i));
            assert forall|j: int| 0 <= j < list.len() && #[trigger] a(j) implies j == i by {
                assert(b(j));
            }
        }
    }
}

proof fn lemma_member_fault(offers: Seq<OfferView>, n: nat)
    requires
        n <= offers.len(),
    ensures
        member_fault(offers, n) is None <==> forall|i: int|
            0 <= i < n ==> is_met(offers, #[trigger] offers[i]),
    decreases n,
{
    if n > 0 {
        lemma_member_fault(offers, (n - 1) as nat);
        lemma_is_met(offers, offers[n - 1]);
    }
}

/// A group becomes a call exactly if there is an offer, all are for the same function at the
/// same depth of the same call and name the same resolver, nobody offers twice, exactly one
/// offer resolves and it is the resolver's, and all that the offers ask for is met.
pub proof fn law_groups_are_closed_when_all_is_met(offers: Seq<OfferView>)
    ensures
        group_fault(offers) is None <==> {
            &&& offers.len() > 0
            &&& forall|i: int|
                0 <= i < offers.len() ==> (#[trigger] offers[i]).function == offers[0].function
                    && offers[i].depth == offers[0].depth && offers[i].parent == offers[0].parent
                    && offers[i].resolver == offers[0].resolver
            &&& forall|i: int, j: int|
                0 <= i < j < offers.len() ==> (#[trigger] offers[i]).id.participant != (
                #[trigger] offers[j]).id.participant
            &&& exactly_one(|i: int| offers[i].specification.mode is Resolve, offers.len())
            &&& forall|i: int|
                0 <= i < offers.len() && (#[trigger] offers[i]).specification.mode is Resolve
                    ==> offers[i].id.participant == offers[0].resolver
            &&& forall|i: int| 0 <= i < offers.len() ==> is_met(offers, #[trigger] offers[i])
        },
{
    lemma_resolvers(offers, offers.len());
    lemma_member_fault(offers, offers.len());
    let group = members(offers);
    assert(group.no_duplicates() <==> forall|i: int, j: int|
        0 <= i < j < offers.len() ==> (#[trigger] offers[i]).id.participant != (
        #[trigger] offers[j]).id.participant) by {
        if group.no_duplicates() {
            assert forall|i: int, j: int| 0 <= i < j < offers.len() implies (
            #[trigger] offers[i]).id.participant != (#[trigger] offers[j]).id.participant by {
                assert(group[i] != group[j]);
            }
        } else {
            let (i, j) = choose|i: int, j: int|
                0 <= i < group.len() && 0 <= j < group.len() && i != j && group[i] == group[j];
            assert(offers[i].id.participant == offers[j].id.participant);
            if i < j {
                assert(offers[i].id.participant != offers[j].id.participant || true);
            }
        }
    }
    assert forall|i: int| 0 <= i < offers.len() implies (domain_of(#[trigger] offers[i])
        == domain_of(offers[0])) == (offers[i].function == offers[0].function && offers[i].depth
        == offers[0].depth && offers[i].parent == offers[0].parent && offers[i].resolver
        == offers[0].resolver) by {}
}

proof fn lemma_offered(offers: Seq<OfferView>, n: nat)
    requires
        n <= offers.len(),
        forall|i: int, j: int|
            0 <= i < j < offers.len() ==> (#[trigger] offers[i]).id.participant != (
            #[trigger] offers[j]).id.participant,
    ensures
        ({
            let all = offered_arguments(offers, n);
            &&& all.len() == n
            &&& values_ascend(all)
            &&& forall|i: int|
                0 <= i < n ==> value_of(all, (#[trigger] offers[i]).id.participant, n) == Some(
                    offers[i].arguments,
                )
            &&& forall|i: int|
                n <= i < offers.len() ==> value_of(all, (#[trigger] offers[i]).id.participant, n)
                    is None
        }),
    decreases n,
{
    if n > 0 {
        let m = (n - 1) as nat;
        lemma_offered(offers, m);
        let before = offered_arguments(offers, m);
        let all = offered_arguments(offers, n);
        let o = offers[n - 1];
        law_values_are_found_where_they_were_put(
            before,
            o.id.participant,
            o.arguments,
            o.id.participant,
        );
        assert forall|i: int| 0 <= i < n implies value_of(
            all,
            (#[trigger] offers[i]).id.participant,
            n,
        ) == Some(offers[i].arguments) by {
            if i < m {
                law_values_are_found_where_they_were_put(
                    before,
                    o.id.participant,
                    o.arguments,
                    offers[i].id.participant,
                );
                assert(offers[i].id.participant != offers[n - 1].id.participant);
            }
        }
        assert forall|i: int| n <= i < offers.len() implies value_of(
            all,
            (#[trigger] offers[i]).id.participant,
            n,
        ) is None by {
            assert(offers[n - 1].id.participant != offers[i].id.participant);
            law_values_are_found_where_they_were_put(
                before,
                o.id.participant,
                o.arguments,
                offers[i].id.participant,
            );
        }
    }
}

/// A group that becomes a call gets the next number of its function. Its participants are
/// those who made the offers, in the order of the threads, each with the arguments that it
/// offered; the lowest one selects; nobody has arrived. Other calls and all summaries stay.
pub proof fn law_calls_begin_as_offered(
    v: RuntimeView,
    function: Seq<char>,
    offers: Seq<OfferView>,
)
    requires
        group_fault(offers) is None,
        count_of(v.next_call_index, function) < u64::MAX,
    ensures
        ({
            let w = committed(v, function, offers);
            let call = CallView { function, call_index: count_of(v.next_call_index, function) };
            let s = w.call_states[call];
            &&& w.call_states.contains_key(call)
            &&& count_of(w.next_call_index, function) == count_of(v.next_call_index, function) + 1
            &&& s.participants.len() == offers.len()
            &&& forall|i: int, j: int|
                0 <= i < j < s.participants.len() ==> (#[trigger] s.participants[i]).id < (
                #[trigger] s.participants[j]).id
            &&& s.selector == s.participants[0]
            &&& forall|i: int|
                0 <= i < offers.len() ==> s.participants.contains(
                    (#[trigger] offers[i]).id.participant,
                ) && value_of(s.arguments, offers[i].id.participant, s.arguments.len()) == Some(
                    offers[i].arguments,
                )
            &&& s.arrived.len() == 0 && s.waiting.len() == 0 && s.returned.len() == 0
            &&& s.mode is None && s.body_arguments is None
            &&& w.summaries == v.summaries
            &&& forall|c: CallView|
                #![trigger w.call_states.contains_key(c)]
                c != call ==> w.call_states.contains_key(c) == v.call_states.contains_key(c)
                    && w.call_states[c] == v.call_states[c]
        }),
{
    law_groups_are_closed_when_all_is_met(offers);
    lemma_offered(offers, offers.len());
    let all = offered_arguments(offers, offers.len());
    let s = new_state(all);
    assert forall|i: int| 0 <= i < offers.len() implies s.participants.contains(
        (#[trigger] offers[i]).id.participant,
    ) by {
        let k = super::coverage::lemma_value_at(all, offers[i].id.participant, all.len());
        assert(keys_of(all)[k] == offers[i].id.participant);
    }
}

/// Threads without repetition that are all among others, and as many, are those.
proof fn lemma_all_there(part: Seq<ThreadId>, whole: Seq<ThreadId>)
    requires
        part.no_duplicates(),
        whole.no_duplicates(),
        forall|i: int| 0 <= i < part.len() ==> whole.contains(#[trigger] part[i]),
    ensures
        part.len() <= whole.len(),
        part.len() == whole.len() <==> forall|i: int|
            0 <= i < whole.len() ==> part.contains(#[trigger] whole[i]),
{
    part.unique_seq_to_set();
    whole.unique_seq_to_set();
    let a = part.to_set();
    let b = whole.to_set();
    assert(a.subset_of(b)) by {
        assert forall|t: ThreadId| a.contains(t) implies b.contains(t) by {
            let i = choose|i: int| 0 <= i < part.len() && part[i] == t;
            assert(whole.contains(part[i]));
        }
    }
    vstd::set_lib::lemma_len_subset(a, b);
    if part.len() == whole.len() {
        vstd::set_lib::lemma_subset_equality(a, b);
        assert forall|i: int| 0 <= i < whole.len() implies part.contains(#[trigger] whole[i]) by {
            assert(b.contains(whole[i]));
            assert(a.contains(whole[i]));
        }
    }
    if forall|i: int| 0 <= i < whole.len() ==> part.contains(#[trigger] whole[i]) {
        assert(b.subset_of(a)) by {
            assert forall|t: ThreadId| b.contains(t) implies a.contains(t) by {
                let i = choose|i: int| 0 <= i < whole.len() && whole[i] == t;
                assert(part.contains(whole[i]));
            }
        }
        assert(a =~= b);
    }
}

/// Whether a call is one in which those who have arrived are participants, each once.
pub open spec fn arrivals_ok(s: StateView) -> bool {
    &&& s.participants.no_duplicates()
    &&& s.arrived.no_duplicates()
    &&& forall|i: int|
        0 <= i < s.arrived.len() ==> s.participants.contains(#[trigger] s.arrived[i])
}

/// A participant arrives exactly with the arguments that it offered. The call begins with
/// the arrival of the last participant: then all who wait are woken, and nobody who comes
/// earlier goes on.
pub proof fn law_calls_begin_when_all_have_arrived(
    v: RuntimeView,
    tid: ThreadId,
    call: CallView,
    arguments: Seq<ErasedView>,
    expected: Option<ExplorationView>,
)
    requires
        v.call_states.contains_key(call),
        arrivals_ok(v.call_states[call]),
        v.call_states[call].mode is None,
    ensures
        ({
            let s = v.call_states[call];
            arrival(v, tid, call, arguments, expected) matches Ok(a) ==> {
                &&& s.participants.contains(tid)
                &&& value_of(s.arguments, tid, s.arguments.len()) == Some(arguments)
                &&& arrivals_ok(a.state)
                &&& a.state.arrived.contains(tid)
                &&& a.state.participants == s.participants && a.state.arguments == s.arguments
                &&& a.state.mode is Some <==> forall|i: int|
                    0 <= i < s.participants.len() ==> a.state.arrived.contains(
                        #[trigger] s.participants[i],
                    )
                &&& a.state.mode is None ==> a.action is WaitForParticipants
                    && a.state.waiting.contains(tid) && a.wake.len() == 0
                &&& a.state.mode is Some ==> a.wake == s.waiting
            }
        }),
{
    let s = v.call_states[call];
    if let Ok(a) = arrival(v, tid, call, arguments, expected) {
        let arrived = joined(s.arrived, tid);
        assert(arrived.no_duplicates()) by {
            if !s.arrived.contains(tid) {
                assert forall|i: int, j: int|
                    0 <= i < arrived.len() && 0 <= j < arrived.len() && i != j implies arrived[i]
                    != arrived[j] by {
                    if i == s.arrived.len() {
                        assert(s.arrived.contains(s.arrived[j]));
                    } else if j == s.arrived.len() {
                        assert(s.arrived.contains(s.arrived[i]));
                    }
                }
            }
        }
        assert(arrived.contains(tid)) by {
            if !s.arrived.contains(tid) {
                assert(arrived[s.arrived.len() as int] == tid);
            }
        }
        assert forall|i: int| 0 <= i < arrived.len() implies s.participants.contains(
            #[trigger] arrived[i],
        ) by {
            if i < s.arrived.len() {
                assert(arrived[i] == s.arrived[i]);
            }
        }
        lemma_all_there(arrived, s.participants);
        assert(a.state.arrived == arrived);
        if a.state.mode is None {
            let waiting = joined(s.waiting, tid);
            if !s.waiting.contains(tid) {
                assert(waiting[s.waiting.len() as int] == tid);
            }
        }
    }
}

/// A call whose outcomes are known applies them, and one of which nothing is known explores
/// the body and is noted as one without a summary, unless the exploration of another call is
/// asked for, which needs a summary of this one.
pub proof fn law_known_calls_are_not_explored(
    v: RuntimeView,
    call: CallView,
    s: StateView,
    expected: Option<ExplorationView>,
)
    requires
        expected matches Some(x) ==> x.call != call,
    ensures
        ({
            let known = known_outcomes(v, call.function, s.participants, s.arguments);
            &&& known matches Ok(Some(list)) ==> (opening(v, call, s, expected) matches Ok(o)
                && o.mode == (ModeView::ApplyingSummary { outcomes: list, selection: None })
                && o.miss is None)
            &&& known matches Ok(None) ==> (expected is None ==> (opening(v, call, s, expected)
                matches Ok(o) && o.mode is ExploringBody && (o.miss matches Some(miss)
                && miss.participants == s.participants && miss.actual_inputs == s.arguments
                && o.body_arguments == Some(miss.summary_inputs))))
            &&& known matches Ok(None) ==> (expected is Some ==> opening(v, call, s, expected)
                is Err)
            &&& known is Err ==> opening(v, call, s, expected) is Err
        }),
{
}

proof fn lemma_local_values(fresh: Seq<ExprView>, i: usize, n: nat)
    requires
        n <= fresh.len(),
        n <= usize::MAX,
    ensures
        ({
            let id = SymVarId(SymVarKind::SummaryLocal(i));
            &&& local_values(fresh, n).contains_key(id) <==> i < n
            &&& i < n ==> local_values(fresh, n)[id] == fresh[i as int]
        }),
    decreases n,
{
    if n > 0 {
        lemma_local_values(fresh, i, (n - 1) as nat);
    }
}

/// The locals of a selected outcome stand for the fresh variables, one for one and in their
/// order, and no thread is renamed.
pub proof fn law_locals_stand_for_fresh_variables(
    fresh: Seq<ExprView>,
    i: usize,
    participants: Seq<ThreadId>,
    t: ThreadId,
)
    requires
        fresh.len() <= usize::MAX,
    ensures
        i < fresh.len() ==> local_values(fresh, fresh.len()).contains_key(
            SymVarId(SymVarKind::SummaryLocal(i)),
        ) && local_values(fresh, fresh.len())[SymVarId(SymVarKind::SummaryLocal(i))]
            == fresh[i as int],
        i >= fresh.len() ==> !local_values(fresh, fresh.len()).contains_key(
            SymVarId(SymVarKind::SummaryLocal(i)),
        ),
        renamed(identity_pairs(participants), t) == t,
{
    lemma_local_values(fresh, i, fresh.len());
    lemma_identity(participants, t, participants.len());
}

proof fn lemma_identity(participants: Seq<ThreadId>, t: ThreadId, n: nat)
    requires
        n <= participants.len(),
    ensures
        actual_for(identity_pairs(participants), t, n) matches Some(x) ==> x == t,
    decreases n,
{
    if n > 0 {
        lemma_identity(participants, t, (n - 1) as nat);
    }
}

} // verus!
