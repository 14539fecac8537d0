//! Stored summaries, and how they are found again.

use super::outcome::{
    inputs_matched, insert_summary_outcome, outcome_instantiated, outcomes_view, with_outcome,
    InputsView, OutcomeView, ParticipantArguments, SummaryOutcome,
};
use super::symmetry::{inst_after, one_to_one, InstView, MatchContext, MatchView, ParticipantBijection};
use crate::event::ThreadId;
use vstd::prelude::*;

verus! {

/// `s` with two elements exchanged.
pub open spec fn exchanged(s: Seq<ThreadId>, i: int, j: int) -> Seq<ThreadId> {
    s.update(i, s[j]).update(j, s[i])
}

/// The arrangements of `s` that keep the first `at` elements in place.
pub open spec fn arrangements(s: Seq<ThreadId>, at: nat) -> Seq<Seq<ThreadId>>
    decreases s.len() - at, s.len() + 2,
{
    if at >= s.len() {
        seq![s]
    } else {
        arrangements_with(s, at, s.len())
    }
}

/// The arrangements of `s` that keep the first `at` elements in place and put one of the
/// elements before `n` behind them.
pub open spec fn arrangements_with(s: Seq<ThreadId>, at: nat, n: nat) -> Seq<Seq<ThreadId>>
    decreases s.len() - at, n + 1,
{
    if n <= at || n > s.len() {
        Seq::empty()
    } else {
        proof {
            assert(exchanged(s, at as int, n - 1).len() == s.len());
        }
        arrangements_with(s, at, (n - 1) as nat) + arrangements(
            exchanged(s, at as int, n - 1),
            at + 1,
        )
    }
}

/// An exchange keeps the elements.
proof fn lemma_exchange(s: Seq<ThreadId>, i: int, j: int)
    requires
        0 <= i < s.len(),
        0 <= j < s.len(),
    ensures
        exchanged(s, i, j).len() == s.len(),
        exchanged(s, i, j).to_multiset() == s.to_multiset(),
        s.no_duplicates() ==> exchanged(s, i, j).no_duplicates(),
        exchanged(exchanged(s, i, j), i, j) == s,
{
    broadcast use vstd::seq_lib::group_to_multiset_ensures;

    let t = exchanged(s, i, j);
    assert(t.to_multiset() =~= s.to_multiset());
    if s.no_duplicates() {
        assert forall|a: int, b: int|
            0 <= a < t.len() && 0 <= b < t.len() && a != b implies t[a] != t[b] by {
            let x = if a == i {
                j
            } else if a == j {
                i
            } else {
                a
            };
            let y = if b == i {
                j
            } else if b == j {
                i
            } else {
                b
            };
            assert(t[a] == s[x]);
            assert(t[b] == s[y]);
        }
    }
    assert(exchanged(t, i, j) =~= s);
}

/// Whether `t` has the elements of `s`.
pub open spec fn rearranges(s: Seq<ThreadId>, t: Seq<ThreadId>) -> bool {
    &&& t.to_multiset() == s.to_multiset()
    &&& t.len() == s.len()
    &&& s.no_duplicates() ==> t.no_duplicates()
}

/// Every arrangement has the elements of the list.
pub proof fn law_arrangements_keep_the_elements(s: Seq<ThreadId>, at: nat)
    ensures
        forall|k: int|
            0 <= k < arrangements(s, at).len() ==> rearranges(s, #[trigger] arrangements(s, at)[k]),
    decreases s.len() - at, s.len() + 2,
{
    if at < s.len() {
        lemma_arrangements_keep(s, at, s.len());
        assert(arrangements(s, at) == arrangements_with(s, at, s.len()));
    } else {
        assert(arrangements(s, at) =~= seq![s]);
        assert forall|k: int| 0 <= k < arrangements(s, at).len() implies rearranges(
            s,
            #[trigger] arrangements(s, at)[k],
        ) by {
            assert(arrangements(s, at)[k] == s);
        }
    }
}

proof fn lemma_arrangements_keep(s: Seq<ThreadId>, at: nat, n: nat)
    requires
        at < s.len(),
        n <= s.len(),
    ensures
        forall|k: int|
            0 <= k < arrangements_with(s, at, n).len() ==> rearranges(
                s,
                #[trigger] arrangements_with(s, at, n)[k],
            ),
    decreases s.len() - at, n + 1,
{
    if n > at {
        lemma_arrangements_keep(s, at, (n - 1) as nat);
        lemma_exchange(s, at as int, n - 1);
        law_arrangements_keep_the_elements(exchanged(s, at as int, n - 1), at + 1);
        let left = arrangements_with(s, at, (n - 1) as nat);
        let right = arrangements(exchanged(s, at as int, n - 1), at + 1);
        let all = arrangements_with(s, at, n);
        assert forall|k: int| 0 <= k < all.len() implies rearranges(s, #[trigger] all[k]) by {
            if k < left.len() {
                assert(all[k] == left[k]);
            } else {
                assert(all[k] == right[k - left.len()]);
            }
        }
    }
}

/// Every list with the elements of `s` that agrees with it up to `at` is one of the
/// arrangements.
pub proof fn law_arrangements_are_all(s: Seq<ThreadId>, at: nat, q: Seq<ThreadId>)
    requires
        at <= s.len(),
        q.to_multiset() == s.to_multiset(),
        q.take(at as int) == s.take(at as int),
    ensures
        arrangements(s, at).contains(q),
    decreases s.len() - at,
{
    broadcast use vstd::seq_lib::group_to_multiset_ensures;

    q.to_multiset_ensures();
    s.to_multiset_ensures();
    if at >= s.len() {
        assert(q.take(at as int) =~= q);
        assert(s.take(at as int) =~= s);
        assert(arrangements(s, at)[0] == q);
    } else {
        let x = q[at as int];
        let rest = s.skip(at as int);
        assert(rest.to_multiset().count(x) > 0) by {
            broadcast use vstd::multiset::group_multiset_axioms;

            let front = s.take(at as int);
            let other = q.skip(at as int);
            assert(s =~= front + rest);
            assert(q =~= front + other);
            vstd::seq_lib::lemma_multiset_commutative(front, rest);
            vstd::seq_lib::lemma_multiset_commutative(front, other);
            assert(other[0] == x);
            assert(other.contains(x));
            other.to_multiset_ensures();
            assert(other.to_multiset().count(x) > 0);
            assert(s.to_multiset() == front.to_multiset().add(rest.to_multiset()));
            assert(q.to_multiset() == front.to_multiset().add(other.to_multiset()));
            assert(s.to_multiset().count(x) == front.to_multiset().count(x)
                + rest.to_multiset().count(x));
            assert(q.to_multiset().count(x) == front.to_multiset().count(x)
                + other.to_multiset().count(x));
        }
        s.skip(at as int).to_multiset_ensures();
        assert(s.skip(at as int).contains(x));
        let k = s.skip(at as int).index_of(x);
        let j = at + k;
        assert(s[j] == x);
        lemma_exchange(s, at as int, j);
        let t = exchanged(s, at as int, j);
        let next = at as int + 1;
        assert(t.take(next) =~= q.take(next)) by {
            assert forall|i: int| 0 <= i < next implies t.take(next)[i] == q.take(next)[i] by {
                if i < at {
                    assert(q.take(at as int)[i] == s.take(at as int)[i]);
                }
            }
        }
        law_arrangements_are_all(t, at + 1, q);
        lemma_part(s, at, (j + 1) as nat, s.len(), q);
    }
}

proof fn lemma_part(s: Seq<ThreadId>, at: nat, m: nat, n: nat, q: Seq<ThreadId>)
    requires
        at < m <= n <= s.len(),
        arrangements(exchanged(s, at as int, m - 1), at + 1).contains(q),
    ensures
        arrangements_with(s, at, n).contains(q),
    decreases n,
{
    let left = arrangements_with(s, at, (n - 1) as nat);
    let right = arrangements(exchanged(s, at as int, n - 1), at + 1);
    let all = arrangements_with(s, at, n);
    assert(all == left + right);
    if m == n {
        let k = right.index_of(q);
        assert(all[left.len() + k] == q);
    } else {
        lemma_part(s, at, m, (n - 1) as nat, q);
        let k = left.index_of(q);
        assert(all[k] == q);
    }
}

/// The views of lists of threads.
pub open spec fn lists_view(lists: Seq<Vec<ThreadId>>) -> Seq<Seq<ThreadId>> {
    Seq::new(lists.len(), |i: int| lists[i]@)
}

fn exchange(values: &mut Vec<ThreadId>, i: usize, j: usize)
    requires
        i < old(values)@.len(),
        j < old(values)@.len(),
    ensures
        final(values)@ == exchanged(old(values)@, i as int, j as int),
{
    let a = values[i];
    let b = values[j];
    values.set(i, b);
    values.set(j, a);
}

fn copy_threads(list: &Vec<ThreadId>) -> (r: Vec<ThreadId>)
    ensures
        r@ == list@,
{
    let mut r: Vec<ThreadId> = Vec::new();
    let mut i: usize = 0;
    while i < list.len()
        invariant
            i <= list@.len(),
            r@ == list@.take(i as int),
        decreases list.len() - i,
    {
        r.push(list[i]);
        i += 1;
    }
    assert(r@ =~= list@);
    r
}

fn visit(values: &mut Vec<ThreadId>, at: usize, output: &mut Vec<Vec<ThreadId>>)
    requires
        at <= old(values)@.len(),
    ensures
        final(values)@ == old(values)@,
        lists_view(final(output)@) == lists_view(old(output)@) + arrangements(
            old(values)@,
            at as nat,
        ),
    decreases old(values)@.len() - at,
{
    let ghost s = values@;
    let ghost start = lists_view(output@);
    if at == values.len() {
        output.push(copy_threads(values));
        assert(lists_view(output@) =~= start + seq![s]);
        return;
    }
    let mut selected: usize = at;
    assert(start + arrangements_with(s, at as nat, at as nat) =~= start);
    while selected < values.len()
        invariant
            at <= selected <= values@.len(),
            at < values@.len(),
            values@ == s,
            s == old(values)@,
            lists_view(output@) == start + arrangements_with(s, at as nat, selected as nat),
        decreases values.len() - selected,
    {
        proof {
            lemma_exchange(s, at as int, selected as int);
        }
        exchange(values, at, selected);
        visit(values, at + 1, output);
        exchange(values, at, selected);
        proof {
            let t = exchanged(s, at as int, selected as int);
            assert(lists_view(output@) =~= start + arrangements_with(
                s,
                at as nat,
                (selected + 1) as nat,
            ));
        }
        selected += 1;
    }
}

/// All arrangements of a list.
pub fn permutations(values: &Vec<ThreadId>) -> (r: Vec<Vec<ThreadId>>)
    ensures
        lists_view(r@) == arrangements(values@, 0),
{
    let mut values = copy_threads(values);
    let mut output: Vec<Vec<ThreadId>> = Vec::new();
    visit(&mut values, 0, &mut output);
    assert(lists_view(output@) =~= arrangements(values@, 0));
    output
}

/// Two lists of equal length as a list of pairs.
pub open spec fn zipped(a: Seq<ThreadId>, b: Seq<ThreadId>) -> Seq<(ThreadId, ThreadId)> {
    Seq::new(a.len(), |i: int| (a[i], b[i]))
}

/// The bijections from the participants of a call to those of a summary.
pub open spec fn all_bijections(actual: Seq<ThreadId>, stored: Seq<ThreadId>) -> Seq<
    Seq<(ThreadId, ThreadId)>,
> {
    if actual.len() != stored.len() {
        Seq::empty()
    } else {
        Seq::new(
            arrangements(stored, 0).len(),
            |k: int| zipped(actual, arrangements(stored, 0)[k]),
        )
    }
}

/// The views of a list of bijections.
pub open spec fn bijections_view(list: Seq<ParticipantBijection>) -> Seq<
    Seq<(ThreadId, ThreadId)>,
> {
    Seq::new(list.len(), |i: int| list[i]@)
}

fn zip(a: &Vec<ThreadId>, b: &Vec<ThreadId>) -> (r: Vec<(ThreadId, ThreadId)>)
    requires
        a@.len() == b@.len(),
        a@.no_duplicates(),
        b@.no_duplicates(),
    ensures
        r@ == zipped(a@, b@),
        one_to_one(r@),
{
    let mut r: Vec<(ThreadId, ThreadId)> = Vec::new();
    let mut i: usize = 0;
    while i < a.len()
        invariant
            i <= a@.len() == b@.len(),
            r@.len() == i,
            forall|k: int| 0 <= k < i ==> #[trigger] r@[k] == (a@[k], b@[k]),
        decreases a.len() - i,
    {
        r.push((a[i], b[i]));
        i += 1;
    }
    assert(r@ =~= zipped(a@, b@));
    r
}

/// The bijections from the participants of a call to those of a summary.
pub fn participant_bijections(actual: &Vec<ThreadId>, representatives: &Vec<ThreadId>) -> (r: Vec<
    ParticipantBijection,
>)
    requires
        actual@.no_duplicates(),
        representatives@.no_duplicates(),
    ensures
        bijections_view(r@) == all_bijections(actual@, representatives@),
{
    let mut r: Vec<ParticipantBijection> = Vec::new();
    if actual.len() != representatives.len() {
        assert(bijections_view(r@) =~= all_bijections(actual@, representatives@));
        return r;
    }
    let arranged = permutations(representatives);
    let ghost all = arrangements(representatives@, 0);
    proof {
        law_arrangements_keep_the_elements(representatives@, 0);
    }
    let mut i: usize = 0;
    while i < arranged.len()
        invariant
            i <= arranged@.len(),
            actual@.no_duplicates(),
            lists_view(arranged@) == all,
            forall|k: int|
                0 <= k < all.len() ==> (#[trigger] all[k]).len() == actual@.len()
                    && all[k].no_duplicates(),
            r@.len() == i,
            forall|k: int| 0 <= k < i ==> (#[trigger] r@[k])@ == zipped(actual@, all[k]),
        decreases arranged.len() - i,
    {
        assert(all[i as int] == arranged@[i as int]@);
        r.push(ParticipantBijection::from_pairs(zip(actual, &arranged[i])));
        i += 1;
    }
    assert(lists_view(arranged@).len() == arranged@.len());
    assert(bijections_view(r@) =~= all_bijections(actual@, representatives@));
    r
}

/// A summary that was stored: for these participants and inputs, the outcomes.
pub struct SummaryCase {
    pub participants: Vec<ThreadId>,
    pub inputs: ParticipantArguments,
    pub outcomes: Vec<SummaryOutcome>,
}

/// A stored summary as the contracts see it.
pub struct CaseView {
    pub participants: Seq<ThreadId>,
    pub inputs: InputsView,
    pub outcomes: Seq<OutcomeView>,
}

impl View for SummaryCase {
    type V = CaseView;

    open spec fn view(&self) -> CaseView {
        CaseView {
            participants: self.participants@,
            inputs: self.inputs@,
            outcomes: outcomes_view(self.outcomes@),
        }
    }
}

/// Why a stored summary cannot be applied.
#[derive(Clone, Copy, Debug, PartialEq, Eq, Structural)]
pub enum SummaryFault {
    /// A value of the summary has no instance in the call.
    NoInstance,
}

/// The first `n` outcomes of a summary, added to a list for the call at hand.
pub open spec fn outcomes_added(
    list: Seq<OutcomeView>,
    outcomes: Seq<OutcomeView>,
    c: InstView,
    n: nat,
) -> Result<Seq<OutcomeView>, SummaryFault>
    decreases n,
{
    if n == 0 {
        Ok(list)
    } else {
        match outcomes_added(list, outcomes, c, (n - 1) as nat) {
            Err(f) => Err(f),
            Ok(before) => match outcome_instantiated(outcomes[n - 1], c) {
                None => Err(SummaryFault::NoInstance),
                Some(o) => Ok(with_outcome(before, o)),
            },
        }
    }
}

/// The comparison of a call with a summary under one bijection.
pub open spec fn case_matched(
    case: CaseView,
    inputs: InputsView,
    pairs: Seq<(ThreadId, ThreadId)>,
) -> (bool, MatchView) {
    inputs_matched(inputs, case.inputs, MatchView { pairs, inputs: Map::empty() })
}

/// The outcomes of a summary under the first `n` bijections.
pub open spec fn outcomes_under(
    case: CaseView,
    inputs: InputsView,
    bijections: Seq<Seq<(ThreadId, ThreadId)>>,
    n: nat,
) -> Result<Seq<OutcomeView>, SummaryFault>
    decreases n,
{
    if n == 0 {
        Ok(Seq::empty())
    } else {
        match outcomes_under(case, inputs, bijections, (n - 1) as nat) {
            Err(f) => Err(f),
            Ok(before) => {
                let m = case_matched(case, inputs, bijections[n - 1]);
                if m.0 {
                    outcomes_added(before, case.outcomes, inst_after(m.1), case.outcomes.len())
                } else {
                    Ok(before)
                }
            },
        }
    }
}

/// The bijections under which a summary is compared with a call.
pub open spec fn candidate_bijections(
    case: CaseView,
    participants: Seq<ThreadId>,
    symmetry: bool,
) -> Seq<Seq<(ThreadId, ThreadId)>> {
    if symmetry {
        all_bijections(participants, case.participants)
    } else if participants == case.participants {
        seq![zipped(participants, case.participants)]
    } else {
        Seq::empty()
    }
}

/// The outcomes of a call that a summary gives: none where the summary is not for it.
pub open spec fn case_outcomes(
    case: CaseView,
    participants: Seq<ThreadId>,
    inputs: InputsView,
    symmetry: bool,
) -> Result<Option<Seq<OutcomeView>>, SummaryFault> {
    let bijections = candidate_bijections(case, participants, symmetry);
    match outcomes_under(case, inputs, bijections, bijections.len()) {
        Err(f) => Err(f),
        Ok(list) => if list.len() == 0 {
            Ok(None)
        } else {
            Ok(Some(list))
        },
    }
}

/// Whether `r` is the list of outcomes `v`.
pub open spec fn is_outcomes(
    r: Result<Option<Vec<SummaryOutcome>>, SummaryFault>,
    v: Result<Option<Seq<OutcomeView>>, SummaryFault>,
) -> bool {
    match v {
        Err(f) => r == Err::<Option<Vec<SummaryOutcome>>, SummaryFault>(f),
        Ok(None) => r matches Ok(o) && o is None,
        Ok(Some(list)) => r matches Ok(Some(o)) && outcomes_view(o@) == list,
    }
}

fn threads_same(a: &Vec<ThreadId>, b: &Vec<ThreadId>) -> (r: bool)
    ensures
        r == (a@ == b@),
{
    if a.len() != b.len() {
        return false;
    }
    let mut i: usize = 0;
    while i < a.len()
        invariant
            i <= a@.len() == b@.len(),
            forall|k: int| 0 <= k < i ==> a@[k] == b@[k],
        decreases a.len() - i,
    {
        if a[i] != b[i] {
            return false;
        }
        i += 1;
    }
    assert(a@ =~= b@);
    true
}

proof fn lemma_added_fail(
    list: Seq<OutcomeView>,
    outcomes: Seq<OutcomeView>,
    c: InstView,
    m: nat,
    n: nat,
)
    requires
        m <= n,
        outcomes_added(list, outcomes, c, m) is Err,
    ensures
        outcomes_added(list, outcomes, c, n) == outcomes_added(list, outcomes, c, m),
    decreases n,
{
    if m < n {
        lemma_added_fail(list, outcomes, c, m, (n - 1) as nat);
    }
}

proof fn lemma_under_fail(
    case: CaseView,
    inputs: InputsView,
    bijections: Seq<Seq<(ThreadId, ThreadId)>>,
    m: nat,
    n: nat,
)
    requires
        m <= n,
        outcomes_under(case, inputs, bijections, m) is Err,
    ensures
        outcomes_under(case, inputs, bijections, n) == outcomes_under(case, inputs, bijections, m),
    decreases n,
{
    if m < n {
        lemma_under_fail(case, inputs, bijections, m, (n - 1) as nat);
    }
}

impl SummaryCase {
    /// Adds the outcomes of the summary under one bijection to a list.
    fn add_outcomes(&self, list: &mut Vec<SummaryOutcome>, context: MatchContext) -> (r: Result<
        (),
        SummaryFault,
    >)
        ensures
            match outcomes_added(
                outcomes_view(old(list)@),
                self@.outcomes,
                inst_after(context@),
                self@.outcomes.len(),
            ) {
                Err(f) => r == Err::<(), SummaryFault>(f),
                Ok(new) => r is Ok && outcomes_view(final(list)@) == new,
            },
    {
        let ghost start = outcomes_view(list@);
        let ghost views = self@.outcomes;
        let ghost c = inst_after(context@);
        let inst = context.into_instantiation();
        let mut i: usize = 0;
        while i < self.outcomes.len()
            invariant
                i <= self.outcomes@.len(),
                views == outcomes_view(self.outcomes@),
                views == self@.outcomes,
                start == outcomes_view(old(list)@),
                c == inst_after(context@),
                inst@ == c,
                outcomes_added(start, views, c, i as nat) == Ok::<Seq<OutcomeView>, SummaryFault>(
                    outcomes_view(list@),
                ),
            decreases self.outcomes.len() - i,
        {
            assert(views[i as int] == self.outcomes@[i as int]@);
            match self.outcomes[i].instantiate(&inst) {
                None => {
                    proof {
                        lemma_added_fail(start, views, c, (i + 1) as nat, views.len());
                    }
                    return Err(SummaryFault::NoInstance);
                },
                Some(o) => insert_summary_outcome(list, o),
            }
            i += 1;
        }
        Ok(())
    }

    /// The outcomes of a call that the summary gives.
    pub fn instantiate_for(
        &self,
        actual_participants: &Vec<ThreadId>,
        actual_inputs: &ParticipantArguments,
        symmetry: bool,
    ) -> (r: Result<Option<Vec<SummaryOutcome>>, SummaryFault>)
        requires
            actual_participants@.no_duplicates(),
            self@.participants.no_duplicates(),
        ensures
            is_outcomes(
                r,
                case_outcomes(self@, actual_participants@, actual_inputs@, symmetry),
            ),
    {
        let ghost candidates = candidate_bijections(self@, actual_participants@, symmetry);
        let bijections = if symmetry {
            participant_bijections(actual_participants, &self.participants)
        } else {
            let mut one: Vec<ParticipantBijection> = Vec::new();
            if threads_same(actual_participants, &self.participants) {
                one.push(
                    ParticipantBijection::from_pairs(
                        zip(actual_participants, &self.participants),
                    ),
                );
            }
            assert(bijections_view(one@) =~= candidates);
            one
        };
        let mut outcomes: Vec<SummaryOutcome> = Vec::new();
        assert(outcomes_view(outcomes@) =~= Seq::<OutcomeView>::empty());
        let mut i: usize = 0;
        while i < bijections.len()
            invariant
                i <= bijections@.len(),
                bijections_view(bijections@) == candidates,
                candidates == candidate_bijections(self@, actual_participants@, symmetry),
                outcomes_under(self@, actual_inputs@, candidates, i as nat) == Ok::<
                    Seq<OutcomeView>,
                    SummaryFault,
                >(outcomes_view(outcomes@)),
            decreases bijections.len() - i,
        {
            assert(candidates[i as int] == bijections@[i as int]@);
            let mut context = MatchContext::new(bijections[i].copy());
            if actual_inputs.matches_stored_inputs(&self.inputs, &mut context) {
                match self.add_outcomes(&mut outcomes, context) {
                    Ok(_) => {},
                    Err(f) => {
                        proof {
                            lemma_under_fail(
                                self@,
                                actual_inputs@,
                                candidates,
                                (i + 1) as nat,
                                candidates.len(),
                            );
                        }
                        return Err(f);
                    },
                }
            }
            i += 1;
        }
        if outcomes.len() == 0 {
            Ok(None)
        } else {
            Ok(Some(outcomes))
        }
    }
}

} // verus!
