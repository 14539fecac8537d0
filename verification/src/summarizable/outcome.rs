//! What a collective call can come to.

use super::erased::{
    abstracted_args, erased_instantiated, erased_normalized, matched_args, ErasedSummarizableVal,
    ErasedView, SummarizableArguments,
};
use super::symmetry::{
    identity_pairs, Bindings, InputAbstraction, InstView, InstantiationContext, MatchContext,
    MatchView, NormView, OutputNormalization, renamed, stored_for,
};
use crate::event::ThreadId;
use crate::symbolic::expr::{
    all_allowed, binary_view, copy_sorts, rewritten, sorts_view, BinOp, ExprView, SortView,
    SymExpr, SymSort, SymVarId, SymVarKind,
};
use vstd::prelude::*;
use vstd::string::*;

verus! {

/// Values of participants, in the order of the threads.
pub struct ParticipantValues<T>(pub Vec<(ThreadId, T)>);

/// The views of values of participants.
pub open spec fn values_view<T: View>(values: Seq<(ThreadId, T)>) -> Seq<(ThreadId, T::V)> {
    Seq::new(values.len(), |i: int| (values[i].0, values[i].1@))
}

impl<T: View> View for ParticipantValues<T> {
    type V = Seq<(ThreadId, T::V)>;

    open spec fn view(&self) -> Seq<(ThreadId, T::V)> {
        values_view(self.0@)
    }
}

/// The value of `tid` among the first `n`.
pub open spec fn value_of<V>(values: Seq<(ThreadId, V)>, tid: ThreadId, n: nat) -> Option<V>
    decreases n,
{
    if n == 0 {
        None
    } else {
        match value_of(values, tid, (n - 1) as nat) {
            Some(v) => Some(v),
            None => if values[n - 1].0 == tid {
                Some(values[n - 1].1)
            } else {
                None
            },
        }
    }
}

/// How many of the first `n` values belong to lower threads.
pub open spec fn rank<V>(values: Seq<(ThreadId, V)>, tid: ThreadId, n: nat) -> nat
    decreases n,
{
    if n == 0 {
        0
    } else {
        rank(values, tid, (n - 1) as nat) + (if values[n - 1].0.id < tid.id {
            1nat
        } else {
            0nat
        })
    }
}

/// `values` with one more value, in its place.
pub open spec fn with_value<V>(values: Seq<(ThreadId, V)>, tid: ThreadId, v: V) -> Seq<
    (ThreadId, V),
> {
    values.insert(rank(values, tid, values.len()) as int, (tid, v))
}

/// Whether the values are in the order of their threads.
pub open spec fn values_ascend<V>(values: Seq<(ThreadId, V)>) -> bool {
    forall|i: int, j: int|
        0 <= i < j < values.len() ==> (#[trigger] values[i]).0.id < (#[trigger] values[j]).0.id
}

pub proof fn lemma_rank<V>(values: Seq<(ThreadId, V)>, tid: ThreadId, n: nat)
    requires
        n <= values.len(),
        values_ascend(values),
    ensures
        rank(values, tid, n) <= n,
        forall|k: int| 0 <= k < rank(values, tid, n) ==> (#[trigger] values[k]).0.id < tid.id,
        forall|k: int| rank(values, tid, n) <= k < n ==> (#[trigger] values[k]).0.id >= tid.id,
    decreases n,
{
    if n > 0 {
        lemma_rank(values, tid, (n - 1) as nat);
        let s = rank(values, tid, (n - 1) as nat) as int;
        if values[n - 1].0.id < tid.id && s < n - 1 {
            assert(values[s].0.id < values[n - 1].0.id);
        }
    }
}

pub proof fn lemma_no_value<V>(values: Seq<(ThreadId, V)>, tid: ThreadId, n: nat)
    requires
        n <= values.len(),
    ensures
        value_of(values, tid, n) is None == (forall|k: int|
            0 <= k < n ==> (#[trigger] values[k]).0 != tid),
    decreases n,
{
    if n > 0 {
        lemma_no_value(values, tid, (n - 1) as nat);
        if value_of(values, tid, (n - 1) as nat) is Some {
            let k = choose|k: int| 0 <= k < n - 1 && (#[trigger] values[k]).0 == tid;
            assert(values[k].0 == tid);
        }
    }
}

pub proof fn lemma_still_no_value<V>(
    values: Seq<(ThreadId, V)>,
    tid: ThreadId,
    v: V,
    other: ThreadId,
)
    requires
        values_ascend(values),
        value_of(values, other, values.len()) is None,
        other != tid,
    ensures
        with_value(values, tid, v).len() == values.len() + 1,
        value_of(with_value(values, tid, v), other, values.len() + 1) is None,
{
    lemma_rank(values, tid, values.len());
    lemma_no_value(values, other, values.len());
    let at = rank(values, tid, values.len()) as int;
    let all = with_value(values, tid, v);
    assert forall|j: int| 0 <= j < all.len() implies (#[trigger] all[j]).0 != other by {
        if j < at {
            assert(all[j] == values[j]);
        } else if j > at {
            assert(all[j] == values[j - 1]);
        }
    }
    lemma_no_value(all, other, all.len());
}

/// A new value finds its place among ascending values.
pub proof fn law_values_stay_in_order<V>(values: Seq<(ThreadId, V)>, tid: ThreadId, v: V)
    requires
        values_ascend(values),
        value_of(values, tid, values.len()) is None,
    ensures
        values_ascend(with_value(values, tid, v)),
{
    lemma_rank(values, tid, values.len());
    lemma_no_value(values, tid, values.len());
    let at = rank(values, tid, values.len()) as int;
    let all = with_value(values, tid, v);
    assert forall|i: int, j: int| 0 <= i < j < all.len() implies (#[trigger] all[i]).0.id < (
    #[trigger] all[j]).0.id by {
        let x = if i < at {
            i
        } else {
            i - 1
        };
        let y = if j < at {
            j
        } else {
            j - 1
        };
        if i != at {
            assert(all[i] == values[x]);
        }
        if j != at {
            assert(all[j] == values[y]);
        }
        if i != at && j != at {
            assert(values[x].0.id < values[y].0.id);
        }
    }
}

impl<T: View> ParticipantValues<T> {
    /// The value of a participant.
    pub fn value_for(&self, tid: ThreadId) -> (r: Option<&T>)
        ensures
            match r {
                Some(v) => Some(v@) == value_of(self@, tid, self@.len()),
                None => value_of(self@, tid, self@.len()) is None,
            },
    {
        let ghost views = self@;
        let mut i: usize = 0;
        while i < self.0.len()
            invariant
                i <= self.0@.len(),
                views == values_view(self.0@),
                value_of(views, tid, i as nat) is None,
            decreases self.0.len() - i,
        {
            assert(views[i as int] == (self.0@[i as int].0, self.0@[i as int].1@));
            if self.0[i].0 == tid {
                proof {
                    lemma_value_stays(views, tid, (i + 1) as nat, views.len());
                }
                return Some(&self.0[i].1);
            }
            i += 1;
        }
        None
    }

    /// Adds the value of a participant that has none yet.
    pub fn insert(&mut self, tid: ThreadId, value: T)
        requires
            values_ascend(old(self)@),
            value_of(old(self)@, tid, old(self)@.len()) is None,
        ensures
            final(self)@ == with_value(old(self)@, tid, value@),
            values_ascend(final(self)@),
    {
        let ghost views = self@;
        let mut at: usize = 0;
        while at < self.0.len() && self.0[at].0.id < tid.id
            invariant
                at <= self.0@.len(),
                views == values_view(self.0@),
                values_ascend(views),
                forall|k: int| 0 <= k < at ==> (#[trigger] views[k]).0.id < tid.id,
            decreases self.0.len() - at,
        {
            assert(views[at as int].0 == self.0@[at as int].0);
            at += 1;
        }
        proof {
            lemma_rank(views, tid, views.len());
            let r = rank(views, tid, views.len()) as int;
            if r < at {
                assert(views[r].0.id < tid.id);
            }
            if at < r {
                assert(views[at as int].0 == self.0@[at as int].0);
                assert(views[at as int].0.id < tid.id);
            }
            law_values_stay_in_order(views, tid, value@);
        }
        let ghost v = value@;
        self.0.insert(at, (tid, value));
        assert(self@ =~= with_value(views, tid, v));
    }
}

proof fn lemma_value_stays<V>(values: Seq<(ThreadId, V)>, tid: ThreadId, m: nat, n: nat)
    requires
        m <= n,
        value_of(values, tid, m) is Some,
    ensures
        value_of(values, tid, n) == value_of(values, tid, m),
    decreases n,
{
    if m < n {
        lemma_value_stays(values, tid, m, (n - 1) as nat);
    }
}

/// The arguments of the participants.
pub type ParticipantArguments = ParticipantValues<SummarizableArguments>;

/// What the participants return.
pub type ParticipantReturns = ParticipantValues<ErasedSummarizableVal>;

/// Arguments of participants as the contracts see them.
pub type InputsView = Seq<(ThreadId, Seq<ErasedView>)>;

/// Returns of participants as the contracts see them.
pub type ReturnsView = Seq<(ThreadId, ErasedView)>;

/// The arguments of the first `n` participants with their symbolic expressions numbered
/// as inputs, and the number after them.
pub open spec fn abstracted_inputs(inputs: InputsView, n: nat) -> (InputsView, usize)
    decreases n,
{
    if n == 0 {
        (Seq::empty(), 0)
    } else {
        let before = abstracted_inputs(inputs, (n - 1) as nat);
        let last = abstracted_args(inputs[n - 1].1, before.1, inputs[n - 1].1.len());
        (before.0.push((inputs[n - 1].0, last.0)), last.1)
    }
}

/// Compares the arguments of the first `n` participants with those of the summary's
/// participants that they correspond to, up to the first that do not match.
pub open spec fn inputs_matched_upto(
    actual: InputsView,
    stored: InputsView,
    c: MatchView,
    n: nat,
) -> (bool, MatchView)
    decreases n,
{
    if n == 0 {
        (true, c)
    } else {
        let before = inputs_matched_upto(actual, stored, c, (n - 1) as nat);
        if !before.0 {
            before
        } else {
            match stored_for(before.1.pairs, actual[n - 1].0, before.1.pairs.len()) {
                None => (false, before.1),
                Some(t) => match value_of(stored, t, stored.len()) {
                    None => (false, before.1),
                    Some(args) => matched_args(actual[n - 1].1, args, before.1),
                },
            }
        }
    }
}

/// Compares the arguments of a call with those of a stored summary.
pub open spec fn inputs_matched(actual: InputsView, stored: InputsView, c: MatchView) -> (
    bool,
    MatchView,
) {
    if actual.len() == stored.len() {
        inputs_matched_upto(actual, stored, c, actual.len())
    } else {
        (false, c)
    }
}

impl ParticipantValues<SummarizableArguments> {
    /// The arguments with symbolic expressions replaced by inputs.
    pub fn abstract_inputs(&self) -> (r: Self)
        ensures
            r@ == abstracted_inputs(self@, self@.len()).0,
    {
        let ghost views = self@;
        let mut context = InputAbstraction::new();
        let mut values: Vec<(ThreadId, SummarizableArguments)> = Vec::new();
        let mut i: usize = 0;
        assert(values_view(values@) =~= abstracted_inputs(views, 0).0);
        while i < self.0.len()
            invariant
                i <= self.0@.len(),
                views == values_view(self.0@),
                values_view(values@) == abstracted_inputs(views, i as nat).0,
                context@ == abstracted_inputs(views, i as nat).1,
            decreases self.0.len() - i,
        {
            assert(views[i as int] == (self.0@[i as int].0, self.0@[i as int].1@));
            let ghost before = values@;
            let args = self.0[i].1.abstract_input(&mut context);
            values.push((self.0[i].0, args));
            assert(values_view(values@) =~= values_view(before).push(
                (views[i as int].0, args@),
            ));
            i += 1;
        }
        ParticipantValues(values)
    }

    /// Whether the arguments match those of a stored summary.
    pub fn matches_stored_inputs(&self, stored: &Self, context: &mut MatchContext) -> (b: bool)
        ensures
            b == inputs_matched(self@, stored@, old(context)@).0,
            final(context)@ == inputs_matched(self@, stored@, old(context)@).1,
    {
        if self.0.len() != stored.0.len() {
            return false;
        }
        let ghost views = self@;
        let ghost start = context@;
        let mut ok = true;
        let mut i: usize = 0;
        while i < self.0.len()
            invariant
                i <= self.0@.len(),
                views == values_view(self.0@),
                ok == inputs_matched_upto(views, stored@, start, i as nat).0,
                context@ == inputs_matched_upto(views, stored@, start, i as nat).1,
            decreases self.0.len() - i,
        {
            assert(views[i as int] == (self.0@[i as int].0, self.0@[i as int].1@));
            if ok {
                ok = match context.participants().representative_for(self.0[i].0) {
                    None => false,
                    Some(t) => match stored.value_for(t) {
                        None => false,
                        Some(args) => self.0[i].1.matches_stored_input(args, context),
                    },
                };
            }
            i += 1;
        }
        ok
    }

    /// Whether two lists of arguments are the same.
    pub fn same(&self, other: &Self) -> (b: bool)
        ensures
            b == (self@ == other@),
    {
        if self.0.len() != other.0.len() {
            assert(self@.len() != other@.len());
            return false;
        }
        let mut i: usize = 0;
        while i < self.0.len()
            invariant
                i <= self.0@.len() == other.0@.len(),
                forall|k: int|
                    0 <= k < i ==> (#[trigger] self.0@[k]).0 == other.0@[k].0 && self.0@[k].1@
                        == other.0@[k].1@,
            decreases self.0.len() - i,
        {
            if self.0[i].0 != other.0[i].0 || !self.0[i].1.same(&other.0[i].1) {
                assert(self@[i as int] != other@[i as int]);
                return false;
            }
            i += 1;
        }
        assert(self@ =~= other@);
        true
    }

    pub fn copy(&self) -> (r: Self)
        ensures
            r@ == self@,
    {
        let mut values: Vec<(ThreadId, SummarizableArguments)> = Vec::new();
        let mut i: usize = 0;
        while i < self.0.len()
            invariant
                i <= self.0@.len(),
                values@.len() == i,
                forall|k: int|
                    0 <= k < i ==> (#[trigger] values@[k]).0 == self.0@[k].0 && values@[k].1@
                        == self.0@[k].1@,
            decreases self.0.len() - i,
        {
            values.push((self.0[i].0, self.0[i].1.clone()));
            i += 1;
        }
        let r = ParticipantValues(values);
        assert(r@ =~= self@);
        r
    }
}

/// The first `n` returns of a summary, for the call at hand: in the order of the threads
/// that they belong to. None where a value has no instance or two belong to one thread.
pub open spec fn returns_instantiated(values: ReturnsView, c: InstView, n: nat) -> Option<
    ReturnsView,
>
    decreases n,
{
    if n == 0 {
        Some(Seq::empty())
    } else {
        match (
            returns_instantiated(values, c, (n - 1) as nat),
            erased_instantiated(values[n - 1].1, c),
        ) {
            (Some(before), Some(v)) => {
                let t = renamed(c.pairs, values[n - 1].0);
                if value_of(before, t, before.len()) is Some {
                    None
                } else {
                    Some(with_value(before, t, v))
                }
            },
            _ => None,
        }
    }
}

/// Returns as a summary stores them.
pub open spec fn returns_normalized(values: ReturnsView, c: NormView) -> Option<ReturnsView> {
    if forall|i: int|
        0 <= i < values.len() ==> erased_normalized((#[trigger] values[i]).1, c) is Some {
        Some(
            Seq::new(
                values.len(),
                |i: int| (values[i].0, erased_normalized(values[i].1, c)->0),
            ),
        )
    } else {
        None
    }
}

impl ParticipantValues<ErasedSummarizableVal> {
    pub fn instantiate(&self, context: &InstantiationContext) -> (r: Option<Self>)
        ensures
            match returns_instantiated(self@, context@, self@.len()) {
                None => r is None,
                Some(v) => r matches Some(p) && p@ == v,
            },
    {
        let ghost views = self@;
        let mut actual: ParticipantReturns = ParticipantValues(Vec::new());
        assert(actual@ =~= Seq::<(ThreadId, ErasedView)>::empty());
        let mut i: usize = 0;
        while i < self.0.len()
            invariant
                i <= self.0@.len(),
                views == values_view(self.0@),
                views == self@,
                values_ascend(actual@),
                returns_instantiated(views, context@, i as nat) == Some(actual@),
            decreases self.0.len() - i,
        {
            assert(views[i as int] == (self.0@[i as int].0, self.0@[i as int].1@));
            let t = context.participants().instantiate_id(self.0[i].0);
            let v = match self.0[i].1.instantiate(context) {
                Some(v) => v,
                None => {
                    proof {
                        lemma_returns_fail(views, context@, (i + 1) as nat, views.len());
                    }
                    return None;
                },
            };
            if actual.value_for(t).is_some() {
                proof {
                    lemma_returns_fail(views, context@, (i + 1) as nat, views.len());
                }
                return None;
            }
            actual.insert(t, v);
            i += 1;
        }
        Some(actual)
    }

    pub fn normalize_summary_output(&self, context: &OutputNormalization) -> (r: Option<Self>)
        ensures
            match returns_normalized(self@, context@) {
                None => r is None,
                Some(v) => r matches Some(p) && p@ == v,
            },
    {
        let ghost views = self@;
        let mut values: Vec<(ThreadId, ErasedSummarizableVal)> = Vec::new();
        let mut i: usize = 0;
        while i < self.0.len()
            invariant
                i <= self.0@.len(),
                views == values_view(self.0@),
                views == self@,
                values@.len() == i,
                forall|k: int|
                    0 <= k < i ==> erased_normalized((#[trigger] views[k]).1, context@) is Some,
                forall|k: int|
                    0 <= k < i ==> (#[trigger] values@[k]).0 == views[k].0 && Some(values@[k].1@)
                        == erased_normalized(views[k].1, context@),
            decreases self.0.len() - i,
        {
            assert(views[i as int] == (self.0@[i as int].0, self.0@[i as int].1@));
            match self.0[i].1.normalize_summary_output(context) {
                Some(v) => values.push((self.0[i].0, v)),
                None => {
                    assert(erased_normalized(views[i as int].1, context@) is None);
                    return None;
                },
            }
            i += 1;
        }
        let r = ParticipantValues(values);
        assert(r@ =~= returns_normalized(self@, context@)->0);
        Some(r)
    }

    /// Whether two lists of returns are the same.
    pub fn same(&self, other: &Self) -> (b: bool)
        ensures
            b == (self@ == other@),
    {
        if self.0.len() != other.0.len() {
            assert(self@.len() != other@.len());
            return false;
        }
        let mut i: usize = 0;
        while i < self.0.len()
            invariant
                i <= self.0@.len() == other.0@.len(),
                forall|k: int|
                    0 <= k < i ==> (#[trigger] self.0@[k]).0 == other.0@[k].0 && self.0@[k].1@
                        == other.0@[k].1@,
            decreases self.0.len() - i,
        {
            if self.0[i].0 != other.0[i].0 || !self.0[i].1.same(&other.0[i].1) {
                assert(self@[i as int] != other@[i as int]);
                return false;
            }
            i += 1;
        }
        assert(self@ =~= other@);
        true
    }

    pub fn copy(&self) -> (r: Self)
        ensures
            r@ == self@,
    {
        let mut values: Vec<(ThreadId, ErasedSummarizableVal)> = Vec::new();
        let mut i: usize = 0;
        while i < self.0.len()
            invariant
                i <= self.0@.len(),
                values@.len() == i,
                forall|k: int|
                    0 <= k < i ==> (#[trigger] values@[k]).0 == self.0@[k].0 && values@[k].1@
                        == self.0@[k].1@,
            decreases self.0.len() - i,
        {
            values.push((self.0[i].0, self.0[i].1.clone()));
            i += 1;
        }
        let r = ParticipantValues(values);
        assert(r@ =~= self@);
        r
    }
}

proof fn lemma_returns_fail(values: ReturnsView, c: InstView, m: nat, n: nat)
    requires
        m <= n,
        returns_instantiated(values, c, m) is None,
    ensures
        returns_instantiated(values, c, n) is None,
    decreases n,
{
    if m < n {
        lemma_returns_fail(values, c, m, (n - 1) as nat);
    }
}

/// When an outcome is possible.
pub enum SummaryCondition {
    Always,
    /// Where `guard` holds of the inputs and of locals of the given sorts.
    Symbolic { guard: SymExpr, local_sorts: Vec<SymSort> },
}

/// Such a condition as the contracts see it.
pub enum CondView {
    Always,
    Symbolic { guard: ExprView, local_sorts: Seq<SortView> },
}

impl View for SummaryCondition {
    type V = CondView;

    open spec fn view(&self) -> CondView {
        match *self {
            SummaryCondition::Always => CondView::Always,
            SummaryCondition::Symbolic { guard, local_sorts } => CondView::Symbolic {
                guard: guard@,
                local_sorts: sorts_view(local_sorts@),
            },
        }
    }
}

/// What a call comes to.
pub enum SummaryResult {
    Returned(ParticipantReturns),
    Blocked,
    AssumptionFailed,
}

/// Such a result as the contracts see it.
pub enum ResultView {
    Returned(ReturnsView),
    Blocked,
    AssumptionFailed,
}

impl View for SummaryResult {
    type V = ResultView;

    open spec fn view(&self) -> ResultView {
        match *self {
            SummaryResult::Returned(values) => ResultView::Returned(values@),
            SummaryResult::Blocked => ResultView::Blocked,
            SummaryResult::AssumptionFailed => ResultView::AssumptionFailed,
        }
    }
}

/// One outcome of a call that all participants can tell from the others.
pub struct SummaryOutcome {
    pub condition: SummaryCondition,
    pub result: SummaryResult,
}

/// An outcome as the contracts see it.
pub struct OutcomeView {
    pub condition: CondView,
    pub result: ResultView,
}

impl View for SummaryOutcome {
    type V = OutcomeView;

    open spec fn view(&self) -> OutcomeView {
        OutcomeView { condition: self.condition@, result: self.result@ }
    }
}

/// The views of a list of outcomes.
pub open spec fn outcomes_view(outcomes: Seq<SummaryOutcome>) -> Seq<OutcomeView> {
    Seq::new(outcomes.len(), |i: int| outcomes[i]@)
}

/// A condition of a summary, for the call at hand.
pub open spec fn cond_instantiated(cond: CondView, c: InstView) -> Option<CondView> {
    match cond {
        CondView::Always => Some(CondView::Always),
        CondView::Symbolic { guard, local_sorts } => if all_allowed(guard, c) {
            Some(CondView::Symbolic { guard: rewritten(guard, c), local_sorts })
        } else {
            None
        },
    }
}

/// An outcome of a summary, for the call at hand.
pub open spec fn outcome_instantiated(o: OutcomeView, c: InstView) -> Option<OutcomeView> {
    match cond_instantiated(o.condition, c) {
        None => None,
        Some(condition) => match o.result {
            ResultView::Returned(values) => match returns_instantiated(values, c, values.len()) {
                None => None,
                Some(v) => Some(OutcomeView { condition, result: ResultView::Returned(v) }),
            },
            r => Some(OutcomeView { condition, result: r }),
        },
    }
}

/// The first `n` values, as those of a summary's locals.
pub open spec fn local_values(fresh: Seq<ExprView>, n: nat) -> Map<SymVarId, ExprView>
    decreases n,
{
    if n == 0 {
        Map::empty()
    } else {
        local_values(fresh, (n - 1) as nat).insert(
            SymVarId(SymVarKind::SummaryLocal((n - 1) as usize)),
            fresh[n - 1],
        )
    }
}

/// An outcome with values of the execution in place of its locals.
pub open spec fn materialized(
    o: OutcomeView,
    participants: Seq<ThreadId>,
    fresh: Seq<ExprView>,
    allow_parent_inputs: bool,
) -> Option<OutcomeView> {
    match o.condition {
        CondView::Always => Some(o),
        CondView::Symbolic { .. } => outcome_instantiated(
            o,
            InstView {
                pairs: identity_pairs(participants),
                values: local_values(fresh, fresh.len()),
                allow_unbound_locals: false,
                allow_execution_values: true,
                allow_unbound_inputs: allow_parent_inputs,
            },
        ),
    }
}

impl SummaryCondition {
    pub fn copy(&self) -> (r: Self)
        ensures
            r@ == self@,
    {
        match self {
            SummaryCondition::Always => SummaryCondition::Always,
            SummaryCondition::Symbolic { guard, local_sorts } => SummaryCondition::Symbolic {
                guard: guard.clone(),
                local_sorts: copy_sorts(local_sorts),
            },
        }
    }
}

impl SummaryResult {
    pub fn copy(&self) -> (r: Self)
        ensures
            r@ == self@,
    {
        match self {
            SummaryResult::Returned(values) => SummaryResult::Returned(values.copy()),
            SummaryResult::Blocked => SummaryResult::Blocked,
            SummaryResult::AssumptionFailed => SummaryResult::AssumptionFailed,
        }
    }

    /// Whether two results are the same.
    pub fn same(&self, other: &Self) -> (b: bool)
        ensures
            b == (self@ == other@),
    {
        match (self, other) {
            (SummaryResult::Returned(a), SummaryResult::Returned(b)) => a.same(b),
            (SummaryResult::Blocked, SummaryResult::Blocked) => true,
            (SummaryResult::AssumptionFailed, SummaryResult::AssumptionFailed) => true,
            _ => false,
        }
    }
}

impl Clone for SummaryOutcome {
    fn clone(&self) -> (r: Self)
        ensures
            r@ == self@,
    {
        SummaryOutcome { condition: self.condition.copy(), result: self.result.copy() }
    }
}

impl SummaryOutcome {
    /// An outcome that is always possible.
    pub fn ordinary(result: SummaryResult) -> (o: Self)
        ensures
            o@ == (OutcomeView { condition: CondView::Always, result: result@ }),
    {
        SummaryOutcome { condition: SummaryCondition::Always, result }
    }

    /// The outcome for the call at hand; none where a value has no instance.
    pub fn instantiate(&self, context: &InstantiationContext) -> (r: Option<Self>)
        ensures
            match outcome_instantiated(self@, context@) {
                None => r is None,
                Some(v) => r matches Some(o) && o@ == v,
            },
    {
        let condition = match &self.condition {
            SummaryCondition::Always => SummaryCondition::Always,
            SummaryCondition::Symbolic { guard, local_sorts } => match context.instantiate_symbolic(
                guard,
            ) {
                None => return None,
                Some(guard) => SummaryCondition::Symbolic {
                    guard,
                    local_sorts: copy_sorts(local_sorts),
                },
            },
        };
        let result = match &self.result {
            SummaryResult::Returned(values) => match values.instantiate(context) {
                None => return None,
                Some(v) => SummaryResult::Returned(v),
            },
            SummaryResult::Blocked => SummaryResult::Blocked,
            SummaryResult::AssumptionFailed => SummaryResult::AssumptionFailed,
        };
        Some(SummaryOutcome { condition, result })
    }

    /// The sorts of the locals that need values of the execution.
    pub fn local_sorts(&self) -> (r: Vec<SymSort>)
        ensures
            sorts_view(r@) == (match self@.condition {
                CondView::Always => Seq::empty(),
                CondView::Symbolic { guard, local_sorts } => local_sorts,
            }),
    {
        match &self.condition {
            SummaryCondition::Always => {
                let r: Vec<SymSort> = Vec::new();
                assert(sorts_view(r@) =~= Seq::<SortView>::empty());
                r
            },
            SummaryCondition::Symbolic { local_sorts, .. } => copy_sorts(local_sorts),
        }
    }

    /// Puts values of the execution in place of the locals.
    pub fn materialize(
        self,
        participants: &Vec<ThreadId>,
        fresh: Vec<SymExpr>,
        allow_parent_inputs: bool,
    ) -> (r: Option<Self>)
        requires
            participants@.no_duplicates(),
        ensures
            match materialized(
                self@,
                participants@,
                crate::symbolic::expr::exprs_view(fresh@),
                allow_parent_inputs,
            ) {
                None => r is None,
                Some(v) => r matches Some(o) && o@ == v,
            },
    {
        match self.condition {
            SummaryCondition::Always => return Some(self),
            SummaryCondition::Symbolic { .. } => {},
        }
        let ghost views = crate::symbolic::expr::exprs_view(fresh@);
        let mut values = Bindings::new();
        let mut i: usize = 0;
        while i < fresh.len()
            invariant
                i <= fresh@.len(),
                views == crate::symbolic::expr::exprs_view(fresh@),
                values@ == local_values(views, i as nat),
            decreases fresh.len() - i,
        {
            assert(views[i as int] == fresh@[i as int]@);
            values.insert(SymVarId::summary_local(i), fresh[i].clone());
            i += 1;
        }
        let context = InstantiationContext::for_materialization(
            participants,
            values,
            allow_parent_inputs,
        );
        self.instantiate(&context)
    }

    pub fn is_assumption_failed(&self) -> (b: bool)
        ensures
            b == (self@.result is AssumptionFailed),
    {
        match self.result {
            SummaryResult::AssumptionFailed => true,
            _ => false,
        }
    }

    /// The condition of the outcome, where it has one.
    pub fn guard(&self) -> (r: Option<&SymExpr>)
        ensures
            match self@.condition {
                CondView::Always => r is None,
                CondView::Symbolic { guard, local_sorts } => r matches Some(g) && g@ == guard,
            },
    {
        match &self.condition {
            SummaryCondition::Always => None,
            SummaryCondition::Symbolic { guard, .. } => Some(guard),
        }
    }
}

/// Whether an outcome that is listed takes in another one.
pub open spec fn absorbs(existing: OutcomeView, incoming: OutcomeView) -> bool {
    existing.result == incoming.result && (match (existing.condition, incoming.condition) {
        (
            CondView::Symbolic { local_sorts: a, .. },
            CondView::Symbolic { local_sorts: b, .. },
        ) => a == b,
        _ => true,
    })
}

/// The condition under which one of two outcomes with the same result is possible.
pub open spec fn either(existing: CondView, incoming: CondView) -> CondView {
    match (existing, incoming) {
        (
            CondView::Symbolic { guard: a, local_sorts },
            CondView::Symbolic { guard: b, .. },
        ) => CondView::Symbolic { guard: binary_view(BinOp::Or, a, b), local_sorts },
        _ => CondView::Always,
    }
}

/// The first of the first `n` outcomes that takes in `incoming`.
pub open spec fn absorber(outcomes: Seq<OutcomeView>, incoming: OutcomeView, n: nat) -> Option<int>
    decreases n,
{
    if n == 0 {
        None
    } else {
        match absorber(outcomes, incoming, (n - 1) as nat) {
            Some(i) => Some(i),
            None => if absorbs(outcomes[n - 1], incoming) {
                Some(n - 1)
            } else {
                None
            },
        }
    }
}

/// A list of outcomes with one more.
pub open spec fn with_outcome(outcomes: Seq<OutcomeView>, incoming: OutcomeView) -> Seq<
    OutcomeView,
> {
    match absorber(outcomes, incoming, outcomes.len()) {
        Some(i) => outcomes.update(
            i,
            OutcomeView {
                condition: either(outcomes[i].condition, incoming.condition),
                ..outcomes[i]
            },
        ),
        None => outcomes.push(incoming),
    }
}

fn sorts_same(a: &Vec<SymSort>, b: &Vec<SymSort>) -> (r: bool)
    ensures
        r == (sorts_view(a@) == sorts_view(b@)),
{
    if a.len() != b.len() {
        assert(sorts_view(a@).len() != sorts_view(b@).len());
        return false;
    }
    let mut i: usize = 0;
    while i < a.len()
        invariant
            i <= a@.len() == b@.len(),
            forall|k: int| 0 <= k < i ==> (#[trigger] a@[k])@ == b@[k]@,
        decreases a.len() - i,
    {
        if !a[i].same(&b[i]) {
            assert(sorts_view(a@)[i as int] != sorts_view(b@)[i as int]);
            return false;
        }
        i += 1;
    }
    assert(sorts_view(a@) =~= sorts_view(b@));
    true
}

fn merge_conditions(existing: &SummaryCondition, incoming: &SummaryCondition) -> (r: Option<
    SummaryCondition,
>)
    ensures
        match (existing@, incoming@) {
            (
                CondView::Symbolic { local_sorts: a, .. },
                CondView::Symbolic { local_sorts: b, .. },
            ) => r is Some == (a == b),
            _ => r is Some,
        },
        r matches Some(c) ==> c@ == either(existing@, incoming@),
{
    match (existing, incoming) {
        (
            SummaryCondition::Symbolic { guard: a, local_sorts: left },
            SummaryCondition::Symbolic { guard: b, local_sorts: right },
        ) => {
            if sorts_same(left, right) {
                Some(
                    SummaryCondition::Symbolic {
                        guard: a.clone().or(b.clone()),
                        local_sorts: copy_sorts(left),
                    },
                )
            } else {
                None
            }
        },
        _ => Some(SummaryCondition::Always),
    }
}

proof fn lemma_absorber_stays(
    outcomes: Seq<OutcomeView>,
    incoming: OutcomeView,
    m: nat,
    n: nat,
)
    requires
        m <= n,
        absorber(outcomes, incoming, m) is Some,
    ensures
        absorber(outcomes, incoming, n) == absorber(outcomes, incoming, m),
    decreases n,
{
    if m < n {
        lemma_absorber_stays(outcomes, incoming, m, (n - 1) as nat);
    }
}

/// Adds an outcome to a list, to one with the same result where that is possible.
pub fn insert_summary_outcome(outcomes: &mut Vec<SummaryOutcome>, incoming: SummaryOutcome)
    ensures
        outcomes_view(final(outcomes)@) == with_outcome(outcomes_view(old(outcomes)@), incoming@),
{
    let ghost views = outcomes_view(outcomes@);
    let ghost new = incoming@;
    let mut i: usize = 0;
    while i < outcomes.len()
        invariant
            i <= outcomes@.len(),
            views == outcomes_view(outcomes@),
            views == outcomes_view(old(outcomes)@),
            new == incoming@,
            absorber(views, new, i as nat) is None,
        decreases outcomes.len() - i,
    {
        assert(views[i as int] == outcomes@[i as int]@);
        if outcomes[i].result.same(&incoming.result) {
            match merge_conditions(&outcomes[i].condition, &incoming.condition) {
                Some(condition) => {
                    proof {
                        lemma_absorber_stays(views, new, (i + 1) as nat, views.len());
                    }
                    let merged = SummaryOutcome { condition, result: outcomes[i].result.copy() };
                    let ghost m = merged@;
                    outcomes.set(i, merged);
                    assert(outcomes_view(outcomes@) =~= views.update(i as int, m));
                    return;
                },
                None => {},
            }
        }
        i += 1;
    }
    outcomes.push(incoming);
    assert(outcomes_view(outcomes@) =~= views.push(new));
}

/// Adding an outcome that is always possible a second time changes nothing.
pub proof fn law_known_outcomes_change_nothing(outcomes: Seq<OutcomeView>, incoming: OutcomeView)
    requires
        incoming.condition is Always,
    ensures
        with_outcome(with_outcome(outcomes, incoming), incoming) == with_outcome(
            outcomes,
            incoming,
        ),
{
    let once = with_outcome(outcomes, incoming);
    match absorber(outcomes, incoming, outcomes.len()) {
        Some(i) => {
            lemma_absorber(outcomes, incoming, outcomes.len());
            lemma_same_absorber(outcomes, once, incoming, i, outcomes.len());
            assert(once.update(i, once[i]) =~= once);
        },
        None => {
            lemma_no_absorber(outcomes, once, incoming, outcomes.len());
            assert(once[outcomes.len() as int] == incoming);
            assert(absorber(once, incoming, once.len()) == Some(outcomes.len() as int));
            assert(once.update(outcomes.len() as int, incoming) =~= once);
        },
    }
}

proof fn lemma_absorber(outcomes: Seq<OutcomeView>, incoming: OutcomeView, n: nat)
    requires
        n <= outcomes.len(),
    ensures
        absorber(outcomes, incoming, n) matches Some(i) ==> 0 <= i < n && absorbs(
            outcomes[i],
            incoming,
        ),
    decreases n,
{
    if n > 0 {
        lemma_absorber(outcomes, incoming, (n - 1) as nat);
    }
}

proof fn lemma_same_absorber(
    outcomes: Seq<OutcomeView>,
    once: Seq<OutcomeView>,
    incoming: OutcomeView,
    at: int,
    n: nat,
)
    requires
        n <= outcomes.len(),
        incoming.condition is Always,
        absorber(outcomes, incoming, outcomes.len()) == Some(at),
        0 <= at < outcomes.len(),
        absorbs(outcomes[at], incoming),
        once == outcomes.update(at, OutcomeView { condition: CondView::Always, ..outcomes[at] }),
    ensures
        absorber(once, incoming, n) == absorber(outcomes, incoming, n),
    decreases n,
{
    if n > 0 {
        lemma_same_absorber(outcomes, once, incoming, at, (n - 1) as nat);
    }
}

proof fn lemma_no_absorber(
    outcomes: Seq<OutcomeView>,
    once: Seq<OutcomeView>,
    incoming: OutcomeView,
    n: nat,
)
    requires
        n <= outcomes.len(),
        absorber(outcomes, incoming, n) is None,
        once == outcomes.push(incoming),
    ensures
        absorber(once, incoming, n) is None,
    decreases n,
{
    if n > 0 {
        lemma_no_absorber(outcomes, once, incoming, (n - 1) as nat);
        assert(once[n - 1] == outcomes[n - 1]);
    }
}

} // verus!
