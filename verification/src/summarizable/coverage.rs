//! What stored summaries give for a call.

use super::cases::{
    arrangements, candidate_bijections, case_matched, case_outcomes, law_arrangements_are_all,
    law_arrangements_keep_the_elements, outcomes_added, outcomes_under, zipped, CaseView,
    SummaryFault,
};
use super::erased::{erased_instantiated, matched_upto, ErasedView};
use super::outcome::{
    absorber, absorbs, inputs_matched_upto, law_values_stay_in_order, lemma_rank,
    outcome_instantiated, rank, returns_instantiated, value_of, values_ascend, with_outcome,
    with_value, CondView, InputsView, OutcomeView, ResultView, ReturnsView,
};
use super::runtime::first_fit;
use super::symmetry::{
    inst_after, law_instantiation_inverts_matching, law_matching_forgets_nothing, lemma_submaps,
    one_to_one, renamed, stored_for, InstView, MatchView,
};
use crate::event::ThreadId;
use crate::symbolic::expr::{BinOp, ExprView};
use vstd::prelude::*;

verus! {

/// Whether `part` is `whole`, or one of the alternatives that `whole` is a disjunction of.
pub open spec fn is_disjunct(whole: ExprView, part: ExprView) -> bool
    decreases whole,
{
    whole == part || match whole {
        ExprView::Binary(BinOp::Or, a, b) => is_disjunct(*a, part) || is_disjunct(*b, part),
        _ => false,
    }
}

/// Whether the outcome `whole` has the result of `part`, and comes about wherever `part`
/// does.
pub open spec fn takes_in(whole: OutcomeView, part: OutcomeView) -> bool {
    whole.result == part.result && match (whole.condition, part.condition) {
        (CondView::Always, _) => true,
        (
            CondView::Symbolic { guard: w, local_sorts: a },
            CondView::Symbolic { guard: p, local_sorts: b },
        ) => a == b && is_disjunct(w, p),
        _ => false,
    }
}

/// Whether `guard` is a disjunction of conditions under which outcomes of `parts` have the
/// result.
pub open spec fn guard_from(
    guard: ExprView,
    like: OutcomeView,
    parts: spec_fn(OutcomeView) -> bool,
) -> bool
    decreases guard,
{
    parts(
        OutcomeView {
            condition: CondView::Symbolic { guard, local_sorts: like.condition->local_sorts },
            result: like.result,
        },
    ) || match guard {
        ExprView::Binary(BinOp::Or, a, b) => guard_from(*a, like, parts) && guard_from(
            *b,
            like,
            parts,
        ),
        _ => false,
    }
}

/// Whether `o` comes about only where one of `parts` with the same result does.
pub open spec fn made_from(o: OutcomeView, parts: spec_fn(OutcomeView) -> bool) -> bool {
    match o.condition {
        CondView::Always => parts(OutcomeView { condition: CondView::Always, result: o.result }),
        CondView::Symbolic { guard, .. } => guard_from(guard, o, parts),
    }
}

/// Whether each of `parts` is taken in by an outcome of the list.
pub open spec fn all_taken_in(
    list: Seq<OutcomeView>,
    parts: spec_fn(OutcomeView) -> bool,
) -> bool {
    forall|p: OutcomeView| #[trigger] parts(p) ==> some_takes_in(list, p)
}

/// Whether an outcome of the list takes in `part`.
pub open spec fn some_takes_in(list: Seq<OutcomeView>, part: OutcomeView) -> bool {
    exists|i: int| 0 <= i < list.len() && takes_in(#[trigger] list[i], part)
}

/// Whether the list holds nothing but what `parts` give.
pub open spec fn all_made_from(
    list: Seq<OutcomeView>,
    parts: spec_fn(OutcomeView) -> bool,
) -> bool {
    forall|i: int| 0 <= i < list.len() ==> made_from(#[trigger] list[i], parts)
}

proof fn lemma_absorber(outcomes: Seq<OutcomeView>, incoming: OutcomeView, n: nat)
    requires
        n <= outcomes.len(),
    ensures
        absorber(outcomes, incoming, n) matches Some(i) ==> 0 <= i < n
            && absorbs(outcomes[i], incoming),
    decreases n,
{
    if n > 0 {
        lemma_absorber(outcomes, incoming, (n - 1) as nat);
    }
}

proof fn lemma_guard_from_more(
    guard: ExprView,
    like: OutcomeView,
    parts: spec_fn(OutcomeView) -> bool,
    more: spec_fn(OutcomeView) -> bool,
)
    requires
        guard_from(guard, like, parts),
        forall|p: OutcomeView| #[trigger] parts(p) ==> more(p),
    ensures
        guard_from(guard, like, more),
    decreases guard,
{
    let here = OutcomeView {
        condition: CondView::Symbolic { guard, local_sorts: like.condition->local_sorts },
        result: like.result,
    };
    if parts(here) {
        assert(more(here));
    } else {
        match guard {
            ExprView::Binary(BinOp::Or, a, b) => {
                lemma_guard_from_more(*a, like, parts, more);
                lemma_guard_from_more(*b, like, parts, more);
            },
            _ => {},
        }
    }
}

proof fn lemma_guard_from_like(
    guard: ExprView,
    a: OutcomeView,
    b: OutcomeView,
    parts: spec_fn(OutcomeView) -> bool,
)
    requires
        guard_from(guard, a, parts),
        a.result == b.result,
        a.condition->local_sorts == b.condition->local_sorts,
    ensures
        guard_from(guard, b, parts),
    decreases guard,
{
    match guard {
        ExprView::Binary(BinOp::Or, x, y) => {
            if guard_from(*x, a, parts) && guard_from(*y, a, parts) {
                lemma_guard_from_like(*x, a, b, parts);
                lemma_guard_from_like(*y, a, b, parts);
            }
        },
        _ => {},
    }
}

proof fn lemma_made_from_more(
    o: OutcomeView,
    parts: spec_fn(OutcomeView) -> bool,
    more: spec_fn(OutcomeView) -> bool,
)
    requires
        made_from(o, parts),
        forall|p: OutcomeView| #[trigger] parts(p) ==> more(p),
    ensures
        made_from(o, more),
{
    match o.condition {
        CondView::Always => {
            assert(more(OutcomeView { condition: CondView::Always, result: o.result }));
        },
        CondView::Symbolic { guard, .. } => {
            lemma_guard_from_more(guard, o, parts, more);
        },
    }
}

/// One more outcome is taken in, those taken in before still are, and nothing else comes
/// in.
proof fn lemma_with_outcome(
    list: Seq<OutcomeView>,
    incoming: OutcomeView,
    parts: spec_fn(OutcomeView) -> bool,
    more: spec_fn(OutcomeView) -> bool,
)
    requires
        all_taken_in(list, parts),
        all_made_from(list, parts),
        forall|p: OutcomeView| #[trigger] more(p) <==> parts(p) || p == incoming,
    ensures
        all_taken_in(with_outcome(list, incoming), more),
        all_made_from(with_outcome(list, incoming), more),
{
    lemma_absorber(list, incoming, list.len());
    let after = with_outcome(list, incoming);
    assert(more(incoming));
    match absorber(list, incoming, list.len()) {
        None => {
            assert forall|p: OutcomeView| #[trigger] more(p) implies some_takes_in(after, p) by {
                if p == incoming {
                    assert(takes_in(after[list.len() as int], incoming));
                } else {
                    assert(parts(p));
                    let i = choose|i: int| 0 <= i < list.len() && takes_in(#[trigger] list[i], p);
                    assert(after[i] == list[i]);
                }
            }
            assert forall|i: int| 0 <= i < after.len() implies made_from(#[trigger] after[i], more) by {
                if i < list.len() {
                    assert(after[i] == list[i]);
                    lemma_made_from_more(list[i], parts, more);
                } else {
                    assert(after[i] == incoming);
                    assert(incoming =~= OutcomeView {
                        condition: incoming.condition,
                        result: incoming.result,
                    });
                }
            }
        },
        Some(k) => {
            let old = list[k];
            let new = after[k];
            if let CondView::Symbolic { guard: b, .. } = incoming.condition {
                assert(is_disjunct(b, b));
            }
            assert(takes_in(new, incoming));
            assert forall|p: OutcomeView| #[trigger] more(p) implies some_takes_in(after, p) by {
                if p == incoming {
                    assert(takes_in(after[k], p));
                } else {
                    assert(parts(p));
                    let i = choose|i: int| 0 <= i < list.len() && takes_in(#[trigger] list[i], p);
                    if i == k {
                        assert(takes_in(new, p));
                        assert(takes_in(after[k], p));
                    } else {
                        assert(after[i] == list[i]);
                    }
                }
            }
            assert forall|i: int| 0 <= i < after.len() implies made_from(#[trigger] after[i], more) by {
                if i != k {
                    assert(after[i] == list[i]);
                    lemma_made_from_more(list[i], parts, more);
                } else {
                    lemma_made_from_more(old, parts, more);
                    match (old.condition, incoming.condition) {
                        (
                            CondView::Symbolic { guard: a, local_sorts: s },
                            CondView::Symbolic { guard: b, .. },
                        ) => {
                            lemma_guard_from_like(a, old, new, more);
                            assert(incoming == OutcomeView {
                                condition: CondView::Symbolic { guard: b, local_sorts: s },
                                result: new.result,
                            });
                            assert(guard_from(b, new, more));
                        },
                        (CondView::Always, _) => {},
                        (_, CondView::Always) => {
                            assert(incoming == OutcomeView {
                                condition: CondView::Always,
                                result: new.result,
                            });
                        },
                    }
                }
            }
        },
    }
}

/// Whether `o` is the instance of one of the first `n` stored outcomes.
pub open spec fn is_instance(
    outcomes: Seq<OutcomeView>,
    c: InstView,
    n: nat,
    o: OutcomeView,
) -> bool {
    exists|j: int|
        0 <= j < n && outcome_instantiated(#[trigger] outcomes[j], c) == Some(o)
}

proof fn lemma_outcomes_added(
    list: Seq<OutcomeView>,
    outcomes: Seq<OutcomeView>,
    c: InstView,
    n: nat,
    parts: spec_fn(OutcomeView) -> bool,
    more: spec_fn(OutcomeView) -> bool,
)
    requires
        n <= outcomes.len(),
        all_taken_in(list, parts),
        all_made_from(list, parts),
        forall|p: OutcomeView| #[trigger] more(p) <==> parts(p) || is_instance(outcomes, c, n, p),
    ensures
        outcomes_added(list, outcomes, c, n) matches Ok(after) ==> all_taken_in(after, more)
            && all_made_from(after, more),
    decreases n,
{
    if n == 0 {
        assert forall|p: OutcomeView| #[trigger] more(p) implies some_takes_in(list, p) by {
            assert(parts(p));
        }
        assert forall|i: int| 0 <= i < list.len() implies made_from(#[trigger] list[i], more) by {
            lemma_made_from_more(list[i], parts, more);
        }
    } else if outcomes_added(list, outcomes, c, n) is Ok {
        let m = (n - 1) as nat;
        let mid = |p: OutcomeView| parts(p) || is_instance(outcomes, c, m, p);
        lemma_outcomes_added(list, outcomes, c, m, parts, mid);
        let before = outcomes_added(list, outcomes, c, m)->Ok_0;
        let o = outcome_instantiated(outcomes[n - 1], c)->0;
        assert forall|p: OutcomeView| #[trigger] more(p) <==> mid(p) || p == o by {
            if is_instance(outcomes, c, n, p) {
                let j = choose|j: int|
                    0 <= j < n && outcome_instantiated(#[trigger] outcomes[j], c) == Some(p);
                if j < m {
                    assert(is_instance(outcomes, c, m, p));
                }
            }
            if is_instance(outcomes, c, m, p) {
                let j = choose|j: int|
                    0 <= j < m && outcome_instantiated(#[trigger] outcomes[j], c) == Some(p);
                assert(is_instance(outcomes, c, n, p));
            }
            if p == o {
                assert(outcome_instantiated(outcomes[n - 1], c) == Some(p));
            }
        }
        lemma_with_outcome(before, o, mid, more);
    }
}

/// Whether `o` is the instance of a stored outcome under one of the first `n` bijections,
/// under which the call matches the summary.
pub open spec fn given_under(
    case: CaseView,
    inputs: InputsView,
    bijections: Seq<Seq<(ThreadId, ThreadId)>>,
    n: nat,
    o: OutcomeView,
) -> bool {
    exists|k: int|
        0 <= k < n && case_matched(case, inputs, #[trigger] bijections[k]).0 && is_instance(
            case.outcomes,
            inst_after(case_matched(case, inputs, bijections[k]).1),
            case.outcomes.len(),
            o,
        )
}

proof fn lemma_outcomes_under(
    case: CaseView,
    inputs: InputsView,
    bijections: Seq<Seq<(ThreadId, ThreadId)>>,
    n: nat,
    parts: spec_fn(OutcomeView) -> bool,
)
    requires
        n <= bijections.len(),
        forall|p: OutcomeView| #[trigger]
            parts(p) <==> given_under(case, inputs, bijections, n, p),
    ensures
        outcomes_under(case, inputs, bijections, n) matches Ok(list) ==> all_taken_in(list, parts)
            && all_made_from(list, parts),
    decreases n,
{
    if n == 0 {
    } else if outcomes_under(case, inputs, bijections, n) is Ok {
        let m = (n - 1) as nat;
        let mid = |p: OutcomeView| given_under(case, inputs, bijections, m, p);
        lemma_outcomes_under(case, inputs, bijections, m, mid);
        let before = outcomes_under(case, inputs, bijections, m)->Ok_0;
        let last = case_matched(case, inputs, bijections[n - 1]);
        let c = inst_after(last.1);
        assert forall|p: OutcomeView| #[trigger] parts(p) <==> mid(p) || (last.0 && is_instance(
            case.outcomes,
            c,
            case.outcomes.len(),
            p,
        )) by {
            if given_under(case, inputs, bijections, n, p) {
                let k = choose|k: int|
                    0 <= k < n && case_matched(case, inputs, #[trigger] bijections[k]).0
                        && is_instance(
                        case.outcomes,
                        inst_after(case_matched(case, inputs, bijections[k]).1),
                        case.outcomes.len(),
                        p,
                    );
                if k < m {
                    assert(given_under(case, inputs, bijections, m, p));
                }
            }
            if given_under(case, inputs, bijections, m, p) {
                let k = choose|k: int|
                    0 <= k < m && case_matched(case, inputs, #[trigger] bijections[k]).0
                        && is_instance(
                        case.outcomes,
                        inst_after(case_matched(case, inputs, bijections[k]).1),
                        case.outcomes.len(),
                        p,
                    );
                assert(given_under(case, inputs, bijections, n, p));
            }
            if last.0 && is_instance(case.outcomes, c, case.outcomes.len(), p) {
                assert(case_matched(case, inputs, bijections[n - 1]).0);
                assert(given_under(case, inputs, bijections, n, p));
            }
        }
        if last.0 {
            lemma_outcomes_added(before, case.outcomes, c, case.outcomes.len(), mid, parts);
        } else {
            assert forall|p: OutcomeView| #[trigger] parts(p) implies some_takes_in(before, p) by {
                assert(mid(p));
            }
            assert forall|i: int| 0 <= i < before.len() implies made_from(
                #[trigger] before[i],
                parts,
            ) by {
                lemma_made_from_more(before[i], mid, parts);
            }
        }
    }
}

/// Where a summary gives outcomes for a call, then for each bijection under which the call
/// matches it, and each stored outcome, the instance of the outcome under that bijection is
/// among them: with its result, and wherever its condition holds. Nothing else is among
/// them: each comes about only where such an instance with the same result does.
pub proof fn law_every_stored_outcome_is_offered(
    case: CaseView,
    participants: Seq<ThreadId>,
    inputs: InputsView,
    symmetry: bool,
)
    ensures
        ({
            let candidates = candidate_bijections(case, participants, symmetry);
            case_outcomes(case, participants, inputs, symmetry) matches Ok(Some(list)) ==> {
                &&& forall|k: int, j: int|
                    0 <= k < candidates.len() && 0 <= j < case.outcomes.len() && case_matched(
                        case,
                        inputs,
                        #[trigger] candidates[k],
                    ).0 ==> (outcome_instantiated(
                        #[trigger] case.outcomes[j],
                        inst_after(case_matched(case, inputs, candidates[k]).1),
                    ) matches Some(o) && some_takes_in(list, o))
                &&& all_made_from(
                    list,
                    |o: OutcomeView| given_under(case, inputs, candidates, candidates.len(), o),
                )
            }
        }),
{
    let candidates = candidate_bijections(case, participants, symmetry);
    let parts = |o: OutcomeView| given_under(case, inputs, candidates, candidates.len(), o);
    lemma_outcomes_under(case, inputs, candidates, candidates.len(), parts);
    if let Ok(Some(list)) = case_outcomes(case, participants, inputs, symmetry) {
        assert forall|k: int, j: int|
            0 <= k < candidates.len() && 0 <= j < case.outcomes.len() && case_matched(
                case,
                inputs,
                #[trigger] candidates[k],
            ).0 implies (outcome_instantiated(
            #[trigger] case.outcomes[j],
            inst_after(case_matched(case, inputs, candidates[k]).1),
        ) matches Some(o) && some_takes_in(list, o)) by {
            lemma_all_instances(case, inputs, candidates, k, j, candidates.len());
            let c = inst_after(case_matched(case, inputs, candidates[k]).1);
            let o = outcome_instantiated(case.outcomes[j], c)->0;
            assert(is_instance(case.outcomes, c, case.outcomes.len(), o));
            assert(parts(o));
        }
    }
}

proof fn lemma_instance_is_there(
    list: Seq<OutcomeView>,
    outcomes: Seq<OutcomeView>,
    c: InstView,
    j: int,
    n: nat,
)
    requires
        0 <= j < n <= outcomes.len(),
        outcomes_added(list, outcomes, c, n) is Ok,
    ensures
        outcome_instantiated(outcomes[j], c) is Some,
    decreases n,
{
    if j < n - 1 {
        lemma_instance_is_there(list, outcomes, c, j, (n - 1) as nat);
    }
}

proof fn lemma_all_instances(
    case: CaseView,
    inputs: InputsView,
    bijections: Seq<Seq<(ThreadId, ThreadId)>>,
    k: int,
    j: int,
    n: nat,
)
    requires
        0 <= k < n <= bijections.len(),
        0 <= j < case.outcomes.len(),
        case_matched(case, inputs, bijections[k]).0,
        outcomes_under(case, inputs, bijections, n) is Ok,
    ensures
        outcome_instantiated(
            case.outcomes[j],
            inst_after(case_matched(case, inputs, bijections[k]).1),
        ) is Some,
    decreases n,
{
    let m = (n - 1) as nat;
    if k < m {
        lemma_all_instances(case, inputs, bijections, k, j, m);
    } else {
        lemma_instance_is_there(
            outcomes_under(case, inputs, bijections, m)->Ok_0,
            case.outcomes,
            inst_after(case_matched(case, inputs, bijections[k]).1),
            j,
            case.outcomes.len(),
        );
    }
}

/// The second threads of pairs.
pub open spec fn partners(pairs: Seq<(ThreadId, ThreadId)>) -> Seq<ThreadId> {
    Seq::new(pairs.len(), |i: int| pairs[i].1)
}

/// With symmetry a call is compared with a summary under every bijection between their
/// participants; without it under the identity alone, where they are the same.
pub proof fn law_calls_are_compared_under_every_bijection(
    case: CaseView,
    participants: Seq<ThreadId>,
    symmetry: bool,
    pairs: Seq<(ThreadId, ThreadId)>,
)
    requires
        participants.no_duplicates(),
        case.participants.no_duplicates(),
    ensures
        symmetry ==> (candidate_bijections(case, participants, symmetry).contains(pairs)
            <==> pairs.len() == participants.len() && (forall|i: int|
            0 <= i < pairs.len() ==> (#[trigger] pairs[i]).0 == participants[i]) && partners(
            pairs,
        ).to_multiset() == case.participants.to_multiset()),
        !symmetry ==> (candidate_bijections(case, participants, symmetry).contains(pairs)
            <==> participants == case.participants && pairs.len() == participants.len() && (forall|
            i: int,
        |
            0 <= i < pairs.len() ==> #[trigger] pairs[i] == (participants[i], participants[i]))),
        candidate_bijections(case, participants, symmetry).contains(pairs) ==> one_to_one(pairs),
{
    let all = candidate_bijections(case, participants, symmetry);
    let stored = case.participants;
    if symmetry {
        let lists = arrangements(stored, 0);
        law_arrangements_keep_the_elements(stored, 0);
        if all.contains(pairs) {
            let k = choose|k: int| 0 <= k < all.len() && all[k] == pairs;
            assert(pairs == zipped(participants, lists[k]));
            assert(super::cases::rearranges(stored, lists[k]));
            assert(partners(pairs) =~= lists[k]);
        }
        if pairs.len() == participants.len() && (forall|i: int|
            0 <= i < pairs.len() ==> (#[trigger] pairs[i]).0 == participants[i]) && partners(
            pairs,
        ).to_multiset() == stored.to_multiset() {
            let q = partners(pairs);
            assert(q.take(0) =~= stored.take(0));
            q.to_multiset_ensures();
            stored.to_multiset_ensures();
            assert(participants.len() == stored.len());
            law_arrangements_are_all(stored, 0, q);
            let k = choose|k: int| 0 <= k < lists.len() && lists[k] == q;
            assert forall|i: int| 0 <= i < pairs.len() implies pairs[i] == zipped(
                participants,
                q,
            )[i] by {
                assert(q[i] == pairs[i].1);
                assert(pairs[i].0 == participants[i]);
            }
            assert(zipped(participants, q) =~= pairs);
            assert(all[k] == pairs);
        }
    } else {
        if participants == stored {
            assert(all[0] == zipped(participants, stored));
            if pairs.len() == participants.len() && (forall|i: int|
                0 <= i < pairs.len() ==> #[trigger] pairs[i] == (participants[i], participants[i])) {
                assert(pairs =~= zipped(participants, stored));
            }
        }
    }
    if all.contains(pairs) {
        let q = partners(pairs);
        if symmetry {
            let k = choose|k: int| 0 <= k < all.len() && all[k] == pairs;
            assert(super::cases::rearranges(stored, arrangements(stored, 0)[k]));
            assert(q =~= arrangements(stored, 0)[k]);
        } else {
            assert(q =~= stored);
        }
        assert forall|i: int, j: int| 0 <= i < j < pairs.len() implies (#[trigger] pairs[i]).0 != (
        #[trigger] pairs[j]).0 && pairs[i].1 != pairs[j].1 by {
            assert(pairs[i].0 == participants[i] && pairs[j].0 == participants[j]);
            assert(q[i] == pairs[i].1 && q[j] == pairs[j].1);
        }
    }
}

proof fn lemma_submap_chain(a: MatchView, b: MatchView, c: MatchView)
    requires
        a.inputs.submap_of(b.inputs),
        b.inputs.submap_of(c.inputs),
    ensures
        a.inputs.submap_of(c.inputs),
{
    lemma_submaps(a.inputs, b.inputs, c.inputs);
}

proof fn lemma_upto_forgets_nothing(
    actual: Seq<ErasedView>,
    stored: Seq<ErasedView>,
    c: MatchView,
    n: nat,
)
    ensures
        matched_upto(actual, stored, c, n).1.pairs == c.pairs,
        c.inputs.submap_of(matched_upto(actual, stored, c, n).1.inputs),
    decreases n,
{
    if n > 0 {
        let m = (n - 1) as nat;
        lemma_upto_forgets_nothing(actual, stored, c, m);
        let before = matched_upto(actual, stored, c, m);
        if before.0 && actual[n - 1].kind == stored[n - 1].kind {
            law_matching_forgets_nothing(actual[n - 1].tree, stored[n - 1].tree, before.1);
            lemma_submap_chain(c, before.1, matched_upto(actual, stored, c, n).1);
        }
    }
}

proof fn lemma_inputs_forget_nothing(
    actual: InputsView,
    stored: InputsView,
    c: MatchView,
    n: nat,
)
    ensures
        inputs_matched_upto(actual, stored, c, n).1.pairs == c.pairs,
        c.inputs.submap_of(inputs_matched_upto(actual, stored, c, n).1.inputs),
    decreases n,
{
    if n > 0 {
        let m = (n - 1) as nat;
        lemma_inputs_forget_nothing(actual, stored, c, m);
        let before = inputs_matched_upto(actual, stored, c, m);
        if before.0 {
            if let Some(t) = stored_for(before.1.pairs, actual[n - 1].0, before.1.pairs.len()) {
                if let Some(args) = value_of(stored, t, stored.len()) {
                    lemma_upto_forgets_nothing(
                        actual[n - 1].1,
                        args,
                        before.1,
                        actual[n - 1].1.len(),
                    );
                    lemma_submap_chain(c, before.1, inputs_matched_upto(actual, stored, c, n).1);
                }
            }
        }
    }
}

/// Whether the arguments `actual` are the instances of `stored`, one for one and of the
/// same types.
pub open spec fn args_instances(
    actual: Seq<ErasedView>,
    stored: Seq<ErasedView>,
    c: InstView,
) -> bool {
    actual.len() == stored.len() && forall|j: int|
        0 <= j < actual.len() ==> erased_instantiated(#[trigger] stored[j], c) == Some(actual[j])
}

proof fn lemma_args_instances(
    actual: Seq<ErasedView>,
    stored: Seq<ErasedView>,
    c: MatchView,
    found: MatchView,
    n: nat,
)
    requires
        n <= actual.len() == stored.len(),
        one_to_one(c.pairs),
        matched_upto(actual, stored, c, n).0,
        found.pairs == c.pairs,
        matched_upto(actual, stored, c, n).1.inputs.submap_of(found.inputs),
    ensures
        forall|j: int|
            0 <= j < n ==> erased_instantiated(#[trigger] stored[j], inst_after(found)) == Some(
                actual[j],
            ),
    decreases n,
{
    if n > 0 {
        let m = (n - 1) as nat;
        let before = matched_upto(actual, stored, c, m);
        lemma_upto_forgets_nothing(actual, stored, c, m);
        law_matching_forgets_nothing(actual[n - 1].tree, stored[n - 1].tree, before.1);
        lemma_submap_chain(before.1, matched_upto(actual, stored, c, n).1, found);
        lemma_args_instances(actual, stored, c, found, m);
        law_instantiation_inverts_matching(
            actual[n - 1].tree,
            stored[n - 1].tree,
            before.1,
            found,
        );
    }
}

/// Whether the inputs of a participant are the instances of those that a stored summary
/// has for its partner.
pub open spec fn input_instances(
    pairs: Seq<(ThreadId, ThreadId)>,
    input: (ThreadId, Seq<ErasedView>),
    stored: InputsView,
    c: InstView,
) -> bool {
    exists|k: int, m: int|
        0 <= k < pairs.len() && 0 <= m < stored.len() && (#[trigger] pairs[k]).0 == input.0
            && pairs[k].1 == (#[trigger] stored[m]).0 && args_instances(input.1, stored[m].1, c)
}

pub proof fn lemma_value_at<V>(values: Seq<(ThreadId, V)>, tid: ThreadId, n: nat) -> (k: int)
    requires
        n <= values.len(),
        value_of(values, tid, n) is Some,
    ensures
        0 <= k < n,
        values[k].0 == tid,
        value_of(values, tid, n) == Some(values[k].1),
    decreases n,
{
    if value_of(values, tid, (n - 1) as nat) is Some {
        lemma_value_at(values, tid, (n - 1) as nat)
    } else {
        n - 1
    }
}

proof fn lemma_partner_at(pairs: Seq<(ThreadId, ThreadId)>, actual: ThreadId, n: nat) -> (k: int)
    requires
        n <= pairs.len(),
        stored_for(pairs, actual, n) is Some,
    ensures
        0 <= k < n,
        pairs[k] == (actual, stored_for(pairs, actual, n)->0),
    decreases n,
{
    if stored_for(pairs, actual, (n - 1) as nat) is Some {
        lemma_partner_at(pairs, actual, (n - 1) as nat)
    } else {
        n - 1
    }
}

proof fn lemma_input_instances(
    actual: InputsView,
    stored: InputsView,
    c: MatchView,
    found: MatchView,
    n: nat,
)
    requires
        n <= actual.len(),
        one_to_one(c.pairs),
        inputs_matched_upto(actual, stored, c, n).0,
        found.pairs == c.pairs,
        inputs_matched_upto(actual, stored, c, n).1.inputs.submap_of(found.inputs),
    ensures
        forall|i: int|
            0 <= i < n ==> input_instances(
                c.pairs,
                #[trigger] actual[i],
                stored,
                inst_after(found),
            ),
    decreases n,
{
    if n > 0 {
        let m = (n - 1) as nat;
        let before = inputs_matched_upto(actual, stored, c, m);
        lemma_inputs_forget_nothing(actual, stored, c, m);
        let t = stored_for(c.pairs, actual[n - 1].0, c.pairs.len())->0;
        let args = value_of(stored, t, stored.len())->0;
        lemma_upto_forgets_nothing(actual[n - 1].1, args, before.1, actual[n - 1].1.len());
        lemma_submap_chain(before.1, inputs_matched_upto(actual, stored, c, n).1, found);
        lemma_input_instances(actual, stored, c, found, m);
        lemma_args_instances(actual[n - 1].1, args, before.1, found, actual[n - 1].1.len());
        let k = lemma_partner_at(c.pairs, actual[n - 1].0, c.pairs.len());
        let at = lemma_value_at(stored, t, stored.len());
        assert(c.pairs[k].1 == stored[at].0);
        assert(args_instances(actual[n - 1].1, stored[at].1, inst_after(found)));
    }
}

/// A call matches a summary only if each participant supplies what the summary has for its
/// partner, with the inputs of the summary standing for the same expressions throughout.
pub proof fn law_matching_calls_supply_the_stored_inputs(
    case: CaseView,
    inputs: InputsView,
    pairs: Seq<(ThreadId, ThreadId)>,
)
    requires
        one_to_one(pairs),
        case_matched(case, inputs, pairs).0,
    ensures
        inputs.len() == case.inputs.len(),
        case_matched(case, inputs, pairs).1.pairs == pairs,
        forall|i: int|
            0 <= i < inputs.len() ==> input_instances(
                pairs,
                #[trigger] inputs[i],
                case.inputs,
                inst_after(case_matched(case, inputs, pairs).1),
            ),
{
    let c = MatchView { pairs, inputs: Map::empty() };
    lemma_inputs_forget_nothing(inputs, case.inputs, c, inputs.len());
    lemma_input_instances(
        inputs,
        case.inputs,
        c,
        case_matched(case, inputs, pairs).1,
        inputs.len(),
    );
}

/// The first summary that gives something for a call decides: what is known of the call is
/// what that summary gives, and nothing is known exactly if no summary gives anything.
pub proof fn law_the_first_summary_that_fits_decides(
    cases: Seq<CaseView>,
    participants: Seq<ThreadId>,
    inputs: InputsView,
    symmetry: bool,
    n: nat,
)
    requires
        n <= cases.len(),
    ensures
        ({
            let nothing = Ok::<Option<Seq<OutcomeView>>, SummaryFault>(None);
            let known = first_fit(cases, participants, inputs, symmetry, n);
            &&& known == nothing ==> forall|k: int|
                0 <= k < n ==> case_outcomes(#[trigger] cases[k], participants, inputs, symmetry)
                    == nothing
            &&& known != nothing ==> exists|k: int|
                0 <= k < n && case_outcomes(#[trigger] cases[k], participants, inputs, symmetry)
                    == known && forall|j: int|
                    0 <= j < k ==> case_outcomes(
                        #[trigger] cases[j],
                        participants,
                        inputs,
                        symmetry,
                    ) == nothing
        }),
    decreases n,
{
    let nothing = Ok::<Option<Seq<OutcomeView>>, SummaryFault>(None);
    if n > 0 {
        let m = (n - 1) as nat;
        law_the_first_summary_that_fits_decides(cases, participants, inputs, symmetry, m);
        if first_fit(cases, participants, inputs, symmetry, m) == nothing {
            assert(case_outcomes(cases[n - 1], participants, inputs, symmetry) == first_fit(
                cases,
                participants,
                inputs,
                symmetry,
                n,
            ));
        }
    }
}

proof fn lemma_value_of_none<V>(values: Seq<(ThreadId, V)>, tid: ThreadId, n: nat)
    requires
        n <= values.len(),
        value_of(values, tid, n) is None,
    ensures
        forall|k: int| 0 <= k < n ==> (#[trigger] values[k]).0 != tid,
    decreases n,
{
    if n > 0 {
        lemma_value_of_none(values, tid, (n - 1) as nat);
    }
}

proof fn lemma_value_found<V>(values: Seq<(ThreadId, V)>, k: int, n: nat)
    requires
        0 <= k < n <= values.len(),
        values_ascend(values),
    ensures
        value_of(values, values[k].0, n) == Some(values[k].1),
    decreases n,
{
    if k < n - 1 {
        lemma_value_found(values, k, (n - 1) as nat);
    } else if value_of(values, values[k].0, (n - 1) as nat) is Some {
        let j = lemma_value_at(values, values[k].0, (n - 1) as nat);
        assert(values[j].0.id < values[k].0.id);
    }
}

/// A value that is put in its place is found there, the others are found as before, and
/// all stay in the order of the threads.
pub proof fn law_values_are_found_where_they_were_put<V>(
    values: Seq<(ThreadId, V)>,
    tid: ThreadId,
    v: V,
    other: ThreadId,
)
    requires
        values_ascend(values),
        value_of(values, tid, values.len()) is None,
    ensures
        ({
            let after = with_value(values, tid, v);
            &&& after.len() == values.len() + 1
            &&& values_ascend(after)
            &&& value_of(after, tid, after.len()) == Some(v)
            &&& other != tid ==> value_of(after, other, after.len()) == value_of(
                values,
                other,
                values.len(),
            )
        }),
{
    let after = with_value(values, tid, v);
    law_values_stay_in_order(values, tid, v);
    lemma_rank(values, tid, values.len());
    let r = rank(values, tid, values.len()) as int;
    assert(after[r] == (tid, v));
    lemma_value_found(after, r, after.len());
    if other != tid {
        if value_of(values, other, values.len()) is Some {
            let k = lemma_value_at(values, other, values.len());
            let p = if k < r {
                k
            } else {
                k + 1
            };
            assert(after[p] == values[k]);
            lemma_value_found(after, p, after.len());
        } else if value_of(after, other, after.len()) is Some {
            let p = lemma_value_at(after, other, after.len());
            let k = if p < r {
                p
            } else {
                p - 1
            };
            assert(after[p] == values[k]);
            lemma_value_of_none(values, other, values.len());
        }
    }
}

/// What a summary says that its participants return goes to the threads that they stand
/// for: as many return, in the order of the threads, and each what its stored value stands
/// for.
pub proof fn law_returns_go_to_their_threads(values: ReturnsView, c: InstView, n: nat)
    requires
        n <= values.len(),
    ensures
        returns_instantiated(values, c, n) matches Some(r) ==> r.len() == n && values_ascend(r)
            && forall|i: int|
            0 <= i < n ==> erased_instantiated((#[trigger] values[i]).1, c) is Some && value_of(
                r,
                renamed(c.pairs, values[i].0),
                r.len(),
            ) == erased_instantiated(values[i].1, c),
    decreases n,
{
    if n > 0 && returns_instantiated(values, c, n) is Some {
        let m = (n - 1) as nat;
        law_returns_go_to_their_threads(values, c, m);
        let before = returns_instantiated(values, c, m)->0;
        let after = returns_instantiated(values, c, n)->0;
        let t = renamed(c.pairs, values[n - 1].0);
        let v = erased_instantiated(values[n - 1].1, c)->0;
        law_values_are_found_where_they_were_put(before, t, v, t);
        assert forall|i: int| 0 <= i < n implies erased_instantiated(
            (#[trigger] values[i]).1,
            c,
        ) is Some && value_of(after, renamed(c.pairs, values[i].0), after.len())
            == erased_instantiated(values[i].1, c) by {
            if i < m {
                let u = renamed(c.pairs, values[i].0);
                law_values_are_found_where_they_were_put(before, t, v, u);
            }
        }
    }
}

/// An outcome for a call is of the kind of the stored one: blocked where that is blocked,
/// given up where that was given up, and otherwise with what each participant returns.
pub proof fn law_outcomes_keep_their_kind(o: OutcomeView, c: InstView)
    ensures
        outcome_instantiated(o, c) matches Some(x) ==> {
            &&& x.condition is Always <==> o.condition is Always
            &&& o.result is Blocked <==> x.result is Blocked
            &&& o.result is AssumptionFailed <==> x.result is AssumptionFailed
            &&& o.result matches ResultView::Returned(values) ==> (x.result
                matches ResultView::Returned(r) && r.len() == values.len() && forall|i: int|
                0 <= i < values.len() ==> value_of(
                    r,
                    renamed(c.pairs, (#[trigger] values[i]).0),
                    r.len(),
                ) == erased_instantiated(values[i].1, c))
        },
{
    if let ResultView::Returned(values) = o.result {
        law_returns_go_to_their_threads(values, c, values.len());
    }
}

} // verus!
