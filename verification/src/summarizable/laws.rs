//! What holds of stored summaries as a whole.

use super::cases::{
    arrangements, candidate_bijections, case_matched, case_outcomes, law_arrangements_are_all,
    outcomes_added, outcomes_under, zipped, CaseView, SummaryFault,
};
use super::erased::{abstracted_args, matched_upto, ErasedView};
use super::outcome::{
    abstracted_inputs, inputs_matched_upto, outcome_instantiated, value_of, values_ascend,
    InputsView, OutcomeView,
};
use super::runtime::{first_fit, known_outcomes, RuntimeView};
use super::symmetry::{
    abstracted, abstracted_fields, actual_for, inst_after, matched, matched_fields, stored_for,
    InstView, MatchView,
};
use super::value::TreeView;
use crate::event::ThreadId;
use crate::symbolic::expr::{ExprView, SymVarId, SymVarKind};
use vstd::prelude::*;

verus! {

/// Whether all that is known stands for inputs with numbers below `next`.
spec fn inputs_below(inputs: Map<SymVarId, ExprView>, next: usize) -> bool {
    forall|id: SymVarId| #[trigger]
        inputs.contains_key(id) ==> (id.0 matches SymVarKind::SummaryInput(i) && i < next)
}

/// Numbering goes up.
proof fn lemma_numbers_go_up(t: TreeView, next: usize)
    ensures
        next <= abstracted(t, next).1,
    decreases t, 0nat,
{
    if let TreeView::Node(k, fields) = t {
        lemma_field_numbers_go_up(fields, next, fields.len());
    }
}

proof fn lemma_field_numbers_go_up(fields: Seq<TreeView>, next: usize, n: nat)
    requires
        n <= fields.len(),
    ensures
        next <= abstracted_fields(fields, next, n).1,
        abstracted_fields(fields, next, n).0.len() == n,
    decreases fields, n,
{
    if n > 0 {
        lemma_field_numbers_go_up(fields, next, (n - 1) as nat);
        lemma_numbers_go_up(
            fields[n - 1],
            abstracted_fields(fields, next, (n - 1) as nat).1,
        );
    }
}

/// Under the identity every thread corresponds to itself.
proof fn lemma_identity(threads: Seq<ThreadId>, t: ThreadId, n: nat)
    requires
        n <= threads.len(),
    ensures
        stored_for(zipped(threads, threads), t, n) == actual_for(zipped(threads, threads), t, n),
        stored_for(zipped(threads, threads), t, n) matches Some(s) ==> s == t,
        (exists|i: int| 0 <= i < n && threads[i] == t) ==> stored_for(
            zipped(threads, threads),
            t,
            n,
        ) is Some,
    decreases n,
{
    if n > 0 {
        lemma_identity(threads, t, (n - 1) as nat);
        if exists|i: int| 0 <= i < n && threads[i] == t {
            let i = choose|i: int| 0 <= i < n && threads[i] == t;
            if i < n - 1 {
                assert(exists|i: int| 0 <= i < n - 1 && threads[i] == t);
            }
        }
    }
}

/// A value matches what is stored for it.
proof fn lemma_matches_itself(t: TreeView, next: usize, c: MatchView, threads: Seq<ThreadId>)
    requires
        c.pairs == zipped(threads, threads),
        inputs_below(c.inputs, next),
        abstracted(t, next).1 < usize::MAX,
    ensures
        matched(t, abstracted(t, next).0, c).0,
        matched(t, abstracted(t, next).0, c).1.pairs == c.pairs,
        inputs_below(matched(t, abstracted(t, next).0, c).1.inputs, abstracted(t, next).1),
    decreases t, 0nat,
{
    match t {
        TreeView::Thread(a) => {
            lemma_identity(threads, a, threads.len());
        },
        TreeView::Node(k, fields) => {
            lemma_field_numbers_go_up(fields, next, fields.len());
            lemma_fields_match_themselves(fields, next, c, threads, fields.len());
            let ys = abstracted_fields(fields, next, fields.len()).0;
            assert(ys.take(fields.len() as int) =~= ys);
            assert(abstracted(t, next).0 == TreeView::Node(k, ys));
            assert(matched_fields(fields, ys, c, fields.len()).0);
        },
        _ => {},
    }
}

proof fn lemma_fields_match_themselves(
    fields: Seq<TreeView>,
    next: usize,
    c: MatchView,
    threads: Seq<ThreadId>,
    n: nat,
)
    requires
        n <= fields.len(),
        c.pairs == zipped(threads, threads),
        inputs_below(c.inputs, next),
        abstracted_fields(fields, next, n).1 < usize::MAX,
    ensures
        forall|ys: Seq<TreeView>|
            n <= ys.len() && ys.take(n as int) == abstracted_fields(fields, next, n).0 ==> {
                let m = #[trigger] matched_fields(fields, ys, c, n);
                m.0 && m.1.pairs == c.pairs && inputs_below(
                    m.1.inputs,
                    abstracted_fields(fields, next, n).1,
                )
            },
    decreases fields, n,
{
    if n > 0 {
        let m = (n - 1) as nat;
        let before = abstracted_fields(fields, next, m);
        lemma_numbers_go_up(fields[n - 1], before.1);
        lemma_field_numbers_go_up(fields, next, m);
        lemma_fields_match_themselves(fields, next, c, threads, m);
        assert forall|ys: Seq<TreeView>|
            n <= ys.len() && ys.take(n as int) == abstracted_fields(fields, next, n).0 implies {
            let r = #[trigger] matched_fields(fields, ys, c, n);
            r.0 && r.1.pairs == c.pairs && inputs_below(
                r.1.inputs,
                abstracted_fields(fields, next, n).1,
            )
        } by {
            let all = abstracted_fields(fields, next, n).0;
            assert(ys.take(m as int) =~= before.0) by {
                assert(ys.take(n as int).take(m as int) =~= ys.take(m as int));
                assert(all.take(m as int) =~= before.0);
            }
            assert(ys[n - 1] == all[n - 1]) by {
                assert(ys.take(n as int)[n - 1] == ys[n - 1]);
            }
            let r = matched_fields(fields, ys, c, m);
            assert(r.0);
            lemma_matches_itself(fields[n - 1], before.1, r.1, threads);
        }
    }
}

/// Arguments match what is stored for them.
proof fn lemma_args_match_themselves(
    args: Seq<ErasedView>,
    next: usize,
    c: MatchView,
    threads: Seq<ThreadId>,
    stored: Seq<ErasedView>,
    n: nat,
)
    requires
        n <= args.len() == stored.len(),
        stored == abstracted_args(args, next, args.len()).0,
        c.pairs == zipped(threads, threads),
        inputs_below(c.inputs, next),
        abstracted_args(args, next, n).1 < usize::MAX,
    ensures
        matched_upto(args, stored, c, n).0,
        matched_upto(args, stored, c, n).1.pairs == c.pairs,
        inputs_below(matched_upto(args, stored, c, n).1.inputs, abstracted_args(args, next, n).1),
    decreases n,
{
    if n > 0 {
        let m = (n - 1) as nat;
        let before = abstracted_args(args, next, m);
        lemma_numbers_go_up(args[n - 1].tree, before.1);
        lemma_args_match_themselves(args, next, c, threads, stored, m);
        lemma_args_prefix(args, next, n, args.len());
        lemma_matches_itself(
            args[n - 1].tree,
            before.1,
            matched_upto(args, stored, c, m).1,
            threads,
        );
    }
}

/// What numbering makes of an argument does not depend on those after it.
proof fn lemma_args_prefix(args: Seq<ErasedView>, next: usize, m: nat, n: nat)
    requires
        0 < m <= n <= args.len(),
    ensures
        abstracted_args(args, next, n).0.len() == n,
        abstracted_args(args, next, m).0.len() == m,
        abstracted_args(args, next, n).0[m - 1] == abstracted_args(args, next, m).0[m - 1],
        next <= abstracted_args(args, next, m).1 <= abstracted_args(args, next, n).1,
    decreases n,
{
    lemma_args_len(args, next, m);
    lemma_args_len(args, next, n);
    if m < n {
        lemma_args_prefix(args, next, m, (n - 1) as nat);
        lemma_numbers_go_up(args[n - 1].tree, abstracted_args(args, next, (n - 1) as nat).1);
    }
}

proof fn lemma_args_len(args: Seq<ErasedView>, next: usize, n: nat)
    ensures
        abstracted_args(args, next, n).0.len() == n,
        next <= abstracted_args(args, next, n).1,
    decreases n,
{
    if n > 0 {
        lemma_args_len(args, next, (n - 1) as nat);
        lemma_numbers_go_up(args[n - 1].tree, abstracted_args(args, next, (n - 1) as nat).1);
    }
}

/// The arguments that are stored for the participants.
proof fn lemma_stored_inputs(inputs: InputsView, m: nat, n: nat)
    requires
        0 < m <= n <= inputs.len(),
    ensures
        abstracted_inputs(inputs, n).0.len() == n,
        abstracted_inputs(inputs, n).0[m - 1] == (
            inputs[m - 1].0,
            abstracted_args(
                inputs[m - 1].1,
                abstracted_inputs(inputs, (m - 1) as nat).1,
                inputs[m - 1].1.len(),
            ).0,
        ),
        abstracted_inputs(inputs, m).1 <= abstracted_inputs(inputs, n).1,
    decreases n,
{
    lemma_inputs_len(inputs, (n - 1) as nat);
    lemma_args_len(
        inputs[n - 1].1,
        abstracted_inputs(inputs, (n - 1) as nat).1,
        inputs[n - 1].1.len(),
    );
    if m < n {
        lemma_stored_inputs(inputs, m, (n - 1) as nat);
    }
}

proof fn lemma_inputs_len(inputs: InputsView, n: nat)
    ensures
        abstracted_inputs(inputs, n).0.len() == n,
    decreases n,
{
    if n > 0 {
        lemma_inputs_len(inputs, (n - 1) as nat);
    }
}

/// The value of a thread that is listed once.
proof fn lemma_value_at<V>(values: Seq<(ThreadId, V)>, k: int, n: nat)
    requires
        0 <= k < n <= values.len(),
        forall|i: int, j: int|
            0 <= i < j < values.len() ==> (#[trigger] values[i]).0 != (#[trigger] values[j]).0,
    ensures
        value_of(values, values[k].0, n) == Some(values[k].1),
    decreases n,
{
    if k < n - 1 {
        lemma_value_at(values, k, (n - 1) as nat);
    } else {
        lemma_no_value(values, values[k].0, (n - 1) as nat);
    }
}

proof fn lemma_no_value<V>(values: Seq<(ThreadId, V)>, tid: ThreadId, n: nat)
    requires
        n <= values.len(),
        forall|i: int| 0 <= i < n ==> (#[trigger] values[i]).0 != tid,
    ensures
        value_of(values, tid, n) is None,
    decreases n,
{
    if n > 0 {
        lemma_no_value(values, tid, (n - 1) as nat);
    }
}

/// The arguments of a call match what is stored for them.
proof fn lemma_inputs_match_themselves(
    inputs: InputsView,
    stored: InputsView,
    threads: Seq<ThreadId>,
    n: nat,
)
    requires
        n <= inputs.len(),
        stored == abstracted_inputs(inputs, inputs.len()).0,
        abstracted_inputs(inputs, inputs.len()).1 < usize::MAX,
        values_ascend(inputs),
        forall|i: int| 0 <= i < inputs.len() ==> threads.contains((#[trigger] inputs[i]).0),
    ensures
        ({
            let c = MatchView { pairs: zipped(threads, threads), inputs: Map::empty() };
            let m = inputs_matched_upto(inputs, stored, c, n);
            m.0 && m.1.pairs == c.pairs && inputs_below(
                m.1.inputs,
                abstracted_inputs(inputs, n).1,
            )
        }),
    decreases n,
{
    if n > 0 {
        let m = (n - 1) as nat;
        let c = MatchView { pairs: zipped(threads, threads), inputs: Map::empty() };
        lemma_inputs_match_themselves(inputs, stored, threads, m);
        lemma_stored_inputs(inputs, n, inputs.len());
        let before = inputs_matched_upto(inputs, stored, c, m);
        let (tid, args) = inputs[n - 1];
        let next = abstracted_inputs(inputs, m).1;
        assert(threads.contains(inputs[n - 1].0));
        lemma_identity(threads, tid, threads.len());
        assert forall|i: int, j: int| 0 <= i < j < stored.len() implies (#[trigger] stored[i]).0 != (
        #[trigger] stored[j]).0 by {
            lemma_stored_inputs(inputs, (i + 1) as nat, inputs.len());
            lemma_stored_inputs(inputs, (j + 1) as nat, inputs.len());
            assert(inputs[i].0.id < inputs[j].0.id);
        }
        lemma_value_at(stored, n - 1, stored.len());
        lemma_args_len(args, next, args.len());
        lemma_args_match_themselves(
            args,
            next,
            before.1,
            threads,
            abstracted_args(args, next, args.len()).0,
            args.len(),
        );
    }
}

/// Outcomes that are added are there.
proof fn lemma_added_are_there(
    list: Seq<OutcomeView>,
    outcomes: Seq<OutcomeView>,
    c: InstView,
    n: nat,
)
    ensures
        outcomes_added(list, outcomes, c, n) matches Ok(after) ==> after.len() >= list.len() && (n
            > 0 ==> after.len() > 0),
    decreases n,
{
    if n > 0 {
        lemma_added_are_there(list, outcomes, c, (n - 1) as nat);
        if let Ok(before) = outcomes_added(list, outcomes, c, (n - 1) as nat) {
            if let Some(o) = outcome_instantiated(outcomes[n - 1], c) {
                lemma_absorber(before, o, before.len());
            }
        }
    }
}

proof fn lemma_absorber(outcomes: Seq<OutcomeView>, incoming: OutcomeView, n: nat)
    requires
        n <= outcomes.len(),
    ensures
        super::outcome::absorber(outcomes, incoming, n) matches Some(i) ==> 0 <= i < n,
    decreases n,
{
    if n > 0 {
        lemma_absorber(outcomes, incoming, (n - 1) as nat);
    }
}

/// A summary gives outcomes, or fails, where one of the bijections matches.
proof fn lemma_outcomes_under(
    case: CaseView,
    inputs: InputsView,
    bijections: Seq<Seq<(ThreadId, ThreadId)>>,
    k: int,
    n: nat,
)
    requires
        0 <= k < n <= bijections.len(),
        case.outcomes.len() > 0,
        case_matched(case, inputs, bijections[k]).0,
    ensures
        outcomes_under(case, inputs, bijections, n) matches Ok(list) ==> list.len() > 0,
    decreases n,
{
    let m = case_matched(case, inputs, bijections[n - 1]);
    if let Ok(before) = outcomes_under(case, inputs, bijections, (n - 1) as nat) {
        lemma_added_are_there(before, case.outcomes, inst_after(m.1), case.outcomes.len());
    }
    if k < n - 1 {
        lemma_outcomes_under(case, inputs, bijections, k, (n - 1) as nat);
    }
}

/// Where one of the summaries fits, the search does not come back with nothing.
proof fn lemma_first_fit(
    cases: Seq<CaseView>,
    participants: Seq<ThreadId>,
    inputs: InputsView,
    symmetry: bool,
    k: int,
    n: nat,
)
    requires
        0 <= k < n <= cases.len(),
        case_outcomes(cases[k], participants, inputs, symmetry) != Ok::<
            Option<Seq<OutcomeView>>,
            SummaryFault,
        >(None),
    ensures
        first_fit(cases, participants, inputs, symmetry, n) != Ok::<
            Option<Seq<OutcomeView>>,
            SummaryFault,
        >(None),
    decreases n,
{
    if k < n - 1 {
        lemma_first_fit(cases, participants, inputs, symmetry, k, (n - 1) as nat);
    }
}

/// Where no bijection matches, there are no outcomes.
proof fn lemma_nothing_under(
    case: CaseView,
    inputs: InputsView,
    bijections: Seq<Seq<(ThreadId, ThreadId)>>,
    n: nat,
)
    requires
        n <= bijections.len(),
        forall|k: int| 0 <= k < n ==> !case_matched(case, inputs, #[trigger] bijections[k]).0,
    ensures
        outcomes_under(case, inputs, bijections, n) == Ok::<Seq<OutcomeView>, SummaryFault>(
            Seq::empty(),
        ),
    decreases n,
{
    if n > 0 {
        lemma_nothing_under(case, inputs, bijections, (n - 1) as nat);
        assert(!case_matched(case, inputs, bijections[n - 1]).0);
    }
}

/// Whether a summary matches a call under one of the correspondences that are tried.
pub open spec fn some_match(
    case: CaseView,
    participants: Seq<ThreadId>,
    inputs: InputsView,
    symmetry: bool,
) -> bool {
    exists|k: int|
        0 <= k < candidate_bijections(case, participants, symmetry).len() && case_matched(
            case,
            inputs,
            #[trigger] candidate_bijections(case, participants, symmetry)[k],
        ).0
}

/// A summary that has outcomes is used for a call exactly where it matches the call under
/// one of the correspondences of their participants.
pub proof fn law_summaries_are_used_where_they_match(
    case: CaseView,
    participants: Seq<ThreadId>,
    inputs: InputsView,
    symmetry: bool,
)
    requires
        case.outcomes.len() > 0,
    ensures
        case_outcomes(case, participants, inputs, symmetry) == Ok::<
            Option<Seq<OutcomeView>>,
            SummaryFault,
        >(None) <==> !some_match(case, participants, inputs, symmetry),
{
    let bijections = candidate_bijections(case, participants, symmetry);
    if some_match(case, participants, inputs, symmetry) {
        let k = choose|k: int|
            0 <= k < bijections.len() && case_matched(case, inputs, #[trigger] bijections[k]).0;
        lemma_outcomes_under(case, inputs, bijections, k, bijections.len());
    } else {
        assert forall|k: int| 0 <= k < bijections.len() implies !case_matched(
            case,
            inputs,
            #[trigger] bijections[k],
        ).0 by {}
        lemma_nothing_under(case, inputs, bijections, bijections.len());
    }
}

/// Where none of the summaries fits, the search comes back with nothing.
proof fn lemma_no_fit(
    cases: Seq<CaseView>,
    participants: Seq<ThreadId>,
    inputs: InputsView,
    symmetry: bool,
    n: nat,
)
    requires
        n <= cases.len(),
        forall|k: int|
            0 <= k < n ==> case_outcomes(#[trigger] cases[k], participants, inputs, symmetry) == Ok::<
                Option<Seq<OutcomeView>>,
                SummaryFault,
            >(None),
    ensures
        first_fit(cases, participants, inputs, symmetry, n) == Ok::<
            Option<Seq<OutcomeView>>,
            SummaryFault,
        >(None),
    decreases n,
{
    if n > 0 {
        lemma_no_fit(cases, participants, inputs, symmetry, (n - 1) as nat);
    }
}

/// A call is explored exactly where none of the summaries of its function, all of which
/// have outcomes, matches it.
pub proof fn law_calls_are_explored_where_no_summary_matches(
    v: RuntimeView,
    function: Seq<char>,
    participants: Seq<ThreadId>,
    inputs: InputsView,
)
    requires
        v.summaries.contains_key(function),
        forall|k: int|
            0 <= k < v.summaries[function].len() ==> (
            #[trigger] v.summaries[function][k]).outcomes.len() > 0,
    ensures
        known_outcomes(v, function, participants, inputs) == Ok::<
            Option<Seq<OutcomeView>>,
            SummaryFault,
        >(None) <==> forall|k: int|
            0 <= k < v.summaries[function].len() ==> !some_match(
                #[trigger] v.summaries[function][k],
                participants,
                inputs,
                v.symmetry,
            ),
{
    let cases = v.summaries[function];
    assert forall|k: int| 0 <= k < cases.len() implies (case_outcomes(
        #[trigger] cases[k],
        participants,
        inputs,
        v.symmetry,
    ) == Ok::<Option<Seq<OutcomeView>>, SummaryFault>(None) <==> !some_match(
        cases[k],
        participants,
        inputs,
        v.symmetry,
    )) by {
        law_summaries_are_used_where_they_match(cases[k], participants, inputs, v.symmetry);
    }
    if forall|k: int|
        0 <= k < cases.len() ==> !some_match(
            #[trigger] cases[k],
            participants,
            inputs,
            v.symmetry,
        ) {
        lemma_no_fit(cases, participants, inputs, v.symmetry, cases.len());
    } else {
        let k = choose|k: int|
            0 <= k < cases.len() && some_match(
                #[trigger] cases[k],
                participants,
                inputs,
                v.symmetry,
            );
        lemma_first_fit(cases, participants, inputs, v.symmetry, k, cases.len());
    }
}

/// A call is summarized once: where the outcomes that were found for a call are stored
/// with its inputs, a call with the same participants and the same inputs is not explored
/// again.
pub proof fn law_stored_summaries_are_found_again(
    v: RuntimeView,
    function: Seq<char>,
    participants: Seq<ThreadId>,
    inputs: InputsView,
    outcomes: Seq<OutcomeView>,
)
    requires
        values_ascend(inputs),
        forall|i: int| 0 <= i < inputs.len() ==> participants.contains((#[trigger] inputs[i]).0),
        abstracted_inputs(inputs, inputs.len()).1 < usize::MAX,
        outcomes.len() > 0,
        v.summaries.contains_key(function),
        v.summaries[function].contains(
            CaseView {
                participants,
                inputs: abstracted_inputs(inputs, inputs.len()).0,
                outcomes,
            },
        ),
    ensures
        known_outcomes(v, function, participants, inputs) != Ok::<
            Option<Seq<OutcomeView>>,
            SummaryFault,
        >(None),
{
    let stored = abstracted_inputs(inputs, inputs.len()).0;
    let case = CaseView { participants, inputs: stored, outcomes };
    let cases = v.summaries[function];
    let k = choose|k: int| 0 <= k < cases.len() && cases[k] == case;
    let identity = zipped(participants, participants);
    lemma_inputs_len(inputs, inputs.len());
    lemma_inputs_match_themselves(inputs, stored, participants, inputs.len());
    assert(case_matched(case, inputs, identity).0);
    let bijections = candidate_bijections(case, participants, v.symmetry);
    if v.symmetry {
        law_arrangements_are_all(participants, 0, participants);
        let all = arrangements(participants, 0);
        let i = choose|i: int| 0 <= i < all.len() && all[i] == participants;
        assert(bijections[i] == identity);
        lemma_outcomes_under(case, inputs, bijections, i, bijections.len());
    } else {
        assert(bijections[0] == identity);
        lemma_outcomes_under(case, inputs, bijections, 0, bijections.len());
    }
    assert(case_outcomes(case, participants, inputs, v.symmetry) != Ok::<
        Option<Seq<OutcomeView>>,
        SummaryFault,
    >(None));
    lemma_first_fit(cases, participants, inputs, v.symmetry, k, cases.len());
}

} // verus!
