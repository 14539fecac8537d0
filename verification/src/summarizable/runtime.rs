//! The summaries that are known, and the calls of the current execution.

use super::cases::{
    case_outcomes, is_outcomes, CaseView, SummaryCase, SummaryFault,
};
use super::erased::{ErasedSummarizableVal, ErasedView, SummarizableArguments};
use super::outcome::{
    abstracted_inputs, law_values_stay_in_order, lemma_still_no_value, outcomes_view, value_of,
    values_ascend, with_value, InputsView, OutcomeView, ParticipantArguments, ParticipantReturns,
    ParticipantValues, ReturnsView, SummaryOutcome,
};
use super::participants::{
    groups_view, CallView, PartView, ParticipationMode, Participants, SummarizableCallHandle,
    SummarizableCallId, SummarizableFunctionId, SummarizationOptions,
};
use super::rendezvous::{
    check_group, group_fault, members, offers_view, GroupFault, OfferIdView, OfferView,
    ParticipationOffer, ParticipationOfferId,
};
use crate::assoc::{Assoc, SameAs};
use crate::event::{Event, ThreadId};
use crate::loc::thread_in;
use vstd::prelude::*;

verus! {

/// Whether a call explores the body of its function or applies a summary.
pub enum CallMode {
    ExploringBody,
    ApplyingSummary { outcomes: Vec<SummaryOutcome>, selection: Option<(SummaryOutcome, Event)> },
}

/// Such a mode as the contracts see it.
pub enum ModeView {
    ExploringBody,
    ApplyingSummary { outcomes: Seq<OutcomeView>, selection: Option<(OutcomeView, Event)> },
}

/// The view of a selected outcome, where there is one.
pub open spec fn selection_view(s: Option<(SummaryOutcome, Event)>) -> Option<
    (OutcomeView, Event),
> {
    match s {
        Some((o, e)) => Some((o@, e)),
        None => None,
    }
}

impl View for CallMode {
    type V = ModeView;

    open spec fn view(&self) -> ModeView {
        match *self {
            CallMode::ExploringBody => ModeView::ExploringBody,
            CallMode::ApplyingSummary { outcomes, selection } => ModeView::ApplyingSummary {
                outcomes: outcomes_view(outcomes@),
                selection: selection_view(selection),
            },
        }
    }
}

/// A collective call of the current execution.
pub struct SummarizableCallState {
    participants: Vec<ThreadId>,
    arguments: ParticipantArguments,
    selector: ThreadId,
    arrived_participants: Vec<ThreadId>,
    waiting_participants: Vec<ThreadId>,
    returns_by_participant: ParticipantReturns,
    body_arguments: Option<ParticipantArguments>,
    mode: Option<CallMode>,
}

/// A call as the contracts see it.
#[verifier::ext_equal]
pub struct StateView {
    pub participants: Seq<ThreadId>,
    pub arguments: InputsView,
    pub selector: ThreadId,
    pub arrived: Seq<ThreadId>,
    pub waiting: Seq<ThreadId>,
    pub returned: ReturnsView,
    pub body_arguments: Option<InputsView>,
    pub mode: Option<ModeView>,
}

/// The view of arguments, where there are some.
pub open spec fn inputs_view(a: Option<ParticipantArguments>) -> Option<InputsView> {
    match a {
        Some(v) => Some(v@),
        None => None,
    }
}

/// The view of a mode, where there is one.
pub open spec fn mode_view(m: Option<CallMode>) -> Option<ModeView> {
    match m {
        Some(v) => Some(v@),
        None => None,
    }
}

impl View for SummarizableCallState {
    type V = StateView;

    closed spec fn view(&self) -> StateView {
        StateView {
            participants: self.participants@,
            arguments: self.arguments@,
            selector: self.selector,
            arrived: self.arrived_participants@,
            waiting: self.waiting_participants@,
            returned: self.returns_by_participant@,
            body_arguments: inputs_view(self.body_arguments),
            mode: mode_view(self.mode),
        }
    }
}

/// The summaries of one function.
pub struct CaseList {
    cases: Vec<SummaryCase>,
}

/// The views of a list of summaries.
pub open spec fn cases_view(cases: Seq<SummaryCase>) -> Seq<CaseView> {
    Seq::new(cases.len(), |i: int| cases[i]@)
}

impl View for CaseList {
    type V = Seq<CaseView>;

    closed spec fn view(&self) -> Seq<CaseView> {
        cases_view(self.cases@)
    }
}

/// Under which the offers of a thread for a function are counted.
pub struct OfferKey {
    pub participant: ThreadId,
    pub function: SummarizableFunctionId,
}

impl View for OfferKey {
    type V = (ThreadId, Seq<char>);

    open spec fn view(&self) -> (ThreadId, Seq<char>) {
        (self.participant, self.function@)
    }
}

impl SameAs for OfferKey {
    fn same(&self, other: &Self) -> (b: bool) {
        self.participant == other.participant && self.function.same(&other.function)
    }
}

/// Function summaries, and the calls of the current execution.
pub struct SummarizationRuntime {
    options: SummarizationOptions,
    summaries: Assoc<SummarizableFunctionId, CaseList>,
    next_call_index: Assoc<SummarizableFunctionId, u64>,
    next_offer_occurrence: Assoc<OfferKey, u64>,
    call_states: Assoc<SummarizableCallId, SummarizableCallState>,
}

/// The runtime as the contracts see it.
#[verifier::ext_equal]
pub struct RuntimeView {
    pub symmetry: bool,
    pub summaries: Map<Seq<char>, Seq<CaseView>>,
    pub next_call_index: Map<Seq<char>, u64>,
    pub next_offer_occurrence: Map<(ThreadId, Seq<char>), u64>,
    pub call_states: Map<CallView, StateView>,
}

impl View for SummarizationRuntime {
    type V = RuntimeView;

    closed spec fn view(&self) -> RuntimeView {
        RuntimeView {
            symmetry: self.options.symmetry,
            summaries: self.summaries@,
            next_call_index: self.next_call_index@,
            next_offer_occurrence: self.next_offer_occurrence@,
            call_states: self.call_states@,
        }
    }
}

/// Holds of every call: nobody takes part twice, and returns are in the order of the
/// threads.
pub open spec fn state_ok(s: StateView) -> bool {
    s.participants.no_duplicates() && values_ascend(s.returned)
}

/// Whether nobody takes part twice in one of the summaries.
pub open spec fn cases_ok(cases: Seq<CaseView>) -> bool {
    forall|i: int| 0 <= i < cases.len() ==> (#[trigger] cases[i]).participants.no_duplicates()
}

/// Holds of every runtime that the methods below build.
pub open spec fn runtime_ok(v: RuntimeView) -> bool {
    &&& forall|f: Seq<char>| #[trigger]
        v.summaries.contains_key(f) ==> cases_ok(v.summaries[f])
    &&& forall|c: CallView| #[trigger]
        v.call_states.contains_key(c) ==> state_ok(v.call_states[c])
}

/// Why a request about a call is refused.
#[derive(Clone, Copy, Debug, PartialEq, Eq, Structural)]
pub enum CallFault {
    /// There is no such call.
    MissingCall,
    /// The thread takes no part in the call.
    NotParticipant,
    /// A nested call joins a resolver that takes no part in the call around it.
    ResolverOutsideParent,
    /// A nested call wants a participant that takes no part in the call around it.
    ParticipantOutsideParent,
    /// The call has no arguments of the participant.
    MissingArguments,
    /// A participant changed its arguments after its offer.
    ArgumentsChanged,
    /// The call differs from the one that is explored.
    ExplorationChanged,
    /// A call without a summary comes before the one that is explored.
    Unsummarized,
    /// A summary does not fit.
    Summary(SummaryFault),
    /// Not all participants have arrived.
    Incomplete,
    /// The call explores the body of its function.
    ExploringBody,
    /// An outcome was selected before.
    AlreadySelected,
    /// No outcome was selected.
    NotSelected,
    /// There is no outcome with this index.
    OutOfBounds,
    /// A participant returned twice.
    ReturnedTwice,
    /// The group is not closed.
    Group(GroupFault),
    /// An offer is for another function.
    FunctionMismatch,
    /// The identity of the call is in use.
    CallReused,
    /// There is a summary for this case.
    CaseExists,
}

/// One more, up to the largest number.
pub open spec fn one_more(n: u64) -> u64 {
    if n < u64::MAX {
        (n + 1) as u64
    } else {
        n
    }
}

/// The count under a key, which begins at zero.
pub open spec fn count_of<K>(m: Map<K, u64>, key: K) -> u64 {
    if m.contains_key(key) {
        m[key]
    } else {
        0
    }
}

/// Why the demands of a nested call are refused.
pub open spec fn nested_fault(
    v: RuntimeView,
    parent: Option<CallView>,
    caller: ThreadId,
    p: PartView,
) -> Option<CallFault> {
    match parent {
        None => None,
        Some(c) => if !v.call_states.contains_key(c) {
            Some(CallFault::MissingCall)
        } else {
            let around = v.call_states[c].participants;
            if !around.contains(caller) {
                Some(CallFault::NotParticipant)
            } else if p.mode matches ParticipationMode::Join(r) && !around.contains(r) {
                Some(CallFault::ResolverOutsideParent)
            } else if !within(p.required, around) || exists|k: int|
                0 <= k < p.exactly_one.len() && !within(#[trigger] p.exactly_one[k], around) {
                Some(CallFault::ParticipantOutsideParent)
            } else {
                None
            }
        },
    }
}

/// Whether all of `list` are in `group`.
pub open spec fn within(list: Seq<ThreadId>, group: Seq<ThreadId>) -> bool {
    forall|k: int| 0 <= k < list.len() ==> group.contains(#[trigger] list[k])
}

fn all_within(list: &Vec<ThreadId>, group: &Vec<ThreadId>) -> (b: bool)
    ensures
        b == within(list@, group@),
{
    let mut i: usize = 0;
    while i < list.len()
        invariant
            i <= list@.len(),
            forall|k: int| 0 <= k < i ==> group@.contains(#[trigger] list@[k]),
        decreases list.len() - i,
    {
        if !thread_in(group, list[i]) {
            return false;
        }
        i += 1;
    }
    true
}

/// The outcomes that the first of the first `n` summaries that fits gives for a call.
pub open spec fn first_fit(
    cases: Seq<CaseView>,
    participants: Seq<ThreadId>,
    inputs: InputsView,
    symmetry: bool,
    n: nat,
) -> Result<Option<Seq<OutcomeView>>, SummaryFault>
    decreases n,
{
    if n == 0 {
        Ok(None)
    } else {
        match first_fit(cases, participants, inputs, symmetry, (n - 1) as nat) {
            Ok(None) => case_outcomes(cases[n - 1], participants, inputs, symmetry),
            r => r,
        }
    }
}

/// The outcomes that the known summaries give for a call.
pub open spec fn known_outcomes(
    v: RuntimeView,
    function: Seq<char>,
    participants: Seq<ThreadId>,
    inputs: InputsView,
) -> Result<Option<Seq<OutcomeView>>, SummaryFault> {
    if v.summaries.contains_key(function) {
        let cases = v.summaries[function];
        first_fit(cases, participants, inputs, v.symmetry, cases.len())
    } else {
        Ok(None)
    }
}

/// The arguments of the first `n` offers, in the order of the threads.
pub open spec fn offered_arguments(offers: Seq<OfferView>, n: nat) -> InputsView
    decreases n,
{
    if n == 0 {
        Seq::empty()
    } else {
        with_value(
            offered_arguments(offers, (n - 1) as nat),
            offers[n - 1].id.participant,
            offers[n - 1].arguments,
        )
    }
}

/// The threads that values belong to.
pub open spec fn keys_of<V>(values: Seq<(ThreadId, V)>) -> Seq<ThreadId> {
    Seq::new(values.len(), |i: int| values[i].0)
}

/// A call that nobody has arrived at.
pub open spec fn new_state(arguments: InputsView) -> StateView {
    StateView {
        participants: keys_of(arguments),
        arguments,
        selector: keys_of(arguments)[0],
        arrived: Seq::empty(),
        waiting: Seq::empty(),
        returned: Seq::empty(),
        body_arguments: None,
        mode: None,
    }
}

/// Why a group does not become a call.
pub open spec fn commit_fault(
    v: RuntimeView,
    function: Seq<char>,
    offers: Seq<OfferView>,
) -> Option<CallFault> {
    match group_fault(offers) {
        Some(f) => Some(CallFault::Group(f)),
        None => if exists|i: int|
            0 <= i < offers.len() && (#[trigger] offers[i]).function != function {
            Some(CallFault::FunctionMismatch)
        } else if v.call_states.contains_key(
            CallView { function, call_index: count_of(v.next_call_index, function) },
        ) {
            Some(CallFault::CallReused)
        } else {
            None
        },
    }
}

/// The runtime after a group became a call.
pub open spec fn committed(
    v: RuntimeView,
    function: Seq<char>,
    offers: Seq<OfferView>,
) -> RuntimeView {
    let index = count_of(v.next_call_index, function);
    RuntimeView {
        next_call_index: v.next_call_index.insert(function, one_more(index)),
        call_states: v.call_states.insert(
            CallView { function, call_index: index },
            new_state(offered_arguments(offers, offers.len())),
        ),
        ..v
    }
}

proof fn lemma_offered(offers: Seq<OfferView>, n: nat)
    requires
        n <= offers.len(),
        members(offers).no_duplicates(),
    ensures
        values_ascend(offered_arguments(offers, n)),
        offered_arguments(offers, n).len() == n,
        forall|k: int|
            n <= k < offers.len() ==> value_of(
                offered_arguments(offers, n),
                (#[trigger] offers[k]).id.participant,
                n,
            ) is None,
    decreases n,
{
    if n > 0 {
        let before = offered_arguments(offers, (n - 1) as nat);
        let o = offers[n - 1];
        lemma_offered(offers, (n - 1) as nat);
        super::outcome::lemma_rank(before, o.id.participant, before.len());
        law_values_stay_in_order(before, o.id.participant, o.arguments);
        assert forall|k: int| n <= k < offers.len() implies value_of(
            offered_arguments(offers, n),
            (#[trigger] offers[k]).id.participant,
            n,
        ) is None by {
            assert(members(offers)[k] == offers[k].id.participant);
            assert(members(offers)[n - 1] == o.id.participant);
            lemma_still_no_value(before, o.id.participant, o.arguments, offers[k].id.participant);
        }
    }
}

proof fn lemma_keys<V>(values: Seq<(ThreadId, V)>)
    requires
        values_ascend(values),
    ensures
        keys_of(values).no_duplicates(),
{
    let keys = keys_of(values);
    assert forall|i: int, j: int|
        0 <= i < keys.len() && 0 <= j < keys.len() && i != j implies keys[i] != keys[j] by {
        if i < j {
            assert(values[i].0.id < values[j].0.id);
        } else {
            assert(values[j].0.id < values[i].0.id);
        }
    }
}

impl SummarizableCallState {
    fn new(arguments: ParticipantArguments) -> (s: Self)
        requires
            arguments@.len() > 0,
        ensures
            s@ == new_state(arguments@),
    {
        let mut participants: Vec<ThreadId> = Vec::new();
        let mut i: usize = 0;
        while i < arguments.0.len()
            invariant
                i <= arguments.0@.len(),
                participants@.len() == i,
                forall|k: int| 0 <= k < i ==> #[trigger] participants@[k] == arguments.0@[k].0,
            decreases arguments.0.len() - i,
        {
            participants.push(arguments.0[i].0);
            i += 1;
        }
        assert(participants@ =~= keys_of(arguments@));
        let selector = participants[0];
        let returned: ParticipantReturns = ParticipantValues(Vec::new());
        let s = SummarizableCallState {
            participants,
            arguments,
            selector,
            arrived_participants: Vec::new(),
            waiting_participants: Vec::new(),
            returns_by_participant: returned,
            body_arguments: None,
            mode: None,
        };
        assert(s@ =~= new_state(arguments@));
        s
    }
}

impl SummarizationRuntime {
    pub fn new(options: SummarizationOptions) -> (r: Self)
        ensures
            runtime_ok(r@),
            r@ == (RuntimeView {
                symmetry: options.symmetry,
                summaries: Map::empty(),
                next_call_index: Map::empty(),
                next_offer_occurrence: Map::empty(),
                call_states: Map::empty(),
            }),
    {
        SummarizationRuntime {
            options,
            summaries: Assoc::new(),
            next_call_index: Assoc::new(),
            next_offer_occurrence: Assoc::new(),
            call_states: Assoc::new(),
        }
    }

    /// Forgets the calls of the last execution; summaries stay.
    pub fn begin_execution(&mut self)
        requires
            runtime_ok(old(self)@),
        ensures
            runtime_ok(final(self)@),
            final(self)@ == (RuntimeView {
                next_call_index: Map::empty(),
                next_offer_occurrence: Map::empty(),
                call_states: Map::empty(),
                ..old(self)@
            }),
    {
        self.next_call_index.clear();
        self.next_offer_occurrence.clear();
        self.call_states.clear();
    }

    /// The identity of the next offer of a thread for a function.
    pub fn allocate_offer_id(
        &mut self,
        participant: ThreadId,
        function: SummarizableFunctionId,
    ) -> (id: ParticipationOfferId)
        requires
            runtime_ok(old(self)@),
        ensures
            runtime_ok(final(self)@),
            id@ == (OfferIdView {
                function: function@,
                participant,
                occurrence: count_of(old(self)@.next_offer_occurrence, (participant, function@)),
            }),
            final(self)@ == (RuntimeView {
                next_offer_occurrence: old(self)@.next_offer_occurrence.insert(
                    (participant, function@),
                    one_more(id@.occurrence),
                ),
                ..old(self)@
            }),
    {
        let key = OfferKey { participant, function: function.clone() };
        let occurrence: u64 = match self.next_offer_occurrence.get(&key) {
            Some(c) => *c,
            None => 0,
        };
        let next: u64 = if occurrence < u64::MAX {
            occurrence + 1
        } else {
            occurrence
        };
        self.next_offer_occurrence.insert(key, next);
        assert(self@.summaries == old(self)@.summaries);
        assert(self@.call_states == old(self)@.call_states);
        ParticipationOfferId { function, participant, occurrence }
    }

    /// Why the demands of a nested call are refused.
    pub fn validate_nested_specification(
        &self,
        parent: &Option<SummarizableCallId>,
        caller: ThreadId,
        specification: &Participants,
    ) -> (r: Option<CallFault>)
        ensures
            r == nested_fault(
                self@,
                super::rendezvous::parent_view(*parent),
                caller,
                specification@,
            ),
    {
        let call = match parent {
            None => return None,
            Some(c) => c,
        };
        let state = match self.call_states.get(call) {
            None => return Some(CallFault::MissingCall),
            Some(s) => s,
        };
        if !thread_in(&state.participants, caller) {
            return Some(CallFault::NotParticipant);
        }
        match specification.mode() {
            ParticipationMode::Join(resolver) => {
                if !thread_in(&state.participants, resolver) {
                    return Some(CallFault::ResolverOutsideParent);
                }
            },
            ParticipationMode::Resolve => {},
        }
        if !all_within(specification.required(), &state.participants) {
            return Some(CallFault::ParticipantOutsideParent);
        }
        let lists = specification.exactly_one();
        let ghost views = groups_view(lists@);
        let ghost around = state.participants@;
        let mut i: usize = 0;
        while i < lists.len()
            invariant
                i <= lists@.len(),
                views == groups_view(lists@),
                views == specification@.exactly_one,
                around == state.participants@,
                around == state@.participants,
                state@ == self@.call_states[call@],
                self@.call_states.contains_key(call@),
                *parent == Some(*call),
                around.contains(caller),
                specification@.mode matches ParticipationMode::Join(r) ==> around.contains(r),
                within(specification@.required, around),
                forall|k: int| 0 <= k < i ==> within(#[trigger] views[k], around),
            decreases lists.len() - i,
        {
            assert(views[i as int] == lists@[i as int]@);
            if !all_within(&lists[i], &state.participants) {
                assert(!within(specification@.exactly_one[i as int], around));
                return Some(CallFault::ParticipantOutsideParent);
            }
            i += 1;
        }
        None
    }

    /// The outcomes that the known summaries give for a call.
    pub fn lookup_summary_outcomes(
        &self,
        function: &SummarizableFunctionId,
        participants: &Vec<ThreadId>,
        inputs: &ParticipantArguments,
    ) -> (r: Result<Option<Vec<SummaryOutcome>>, SummaryFault>)
        requires
            runtime_ok(self@),
            participants@.no_duplicates(),
        ensures
            is_outcomes(r, known_outcomes(self@, function@, participants@, inputs@)),
    {
        let list = match self.summaries.get(function) {
            None => return Ok(None),
            Some(l) => l,
        };
        let ghost views = list@;
        let ghost symmetry = self@.symmetry;
        let mut i: usize = 0;
        while i < list.cases.len()
            invariant
                i <= list.cases@.len(),
                views == cases_view(list.cases@),
                cases_ok(views),
                participants@.no_duplicates(),
                symmetry == self.options.symmetry,
                symmetry == self@.symmetry,
                self@.summaries.contains_key(function@),
                views == self@.summaries[function@],
                first_fit(views, participants@, inputs@, symmetry, i as nat) == Ok::<
                    Option<Seq<OutcomeView>>,
                    SummaryFault,
                >(None),
            decreases list.cases.len() - i,
        {
            assert(views[i as int] == list.cases@[i as int]@);
            let r = list.cases[i].instantiate_for(participants, inputs, self.options.symmetry);
            match r {
                Ok(None) => {},
                other => {
                    proof {
                        lemma_fit_stays(
                            views,
                            participants@,
                            inputs@,
                            symmetry,
                            (i + 1) as nat,
                            views.len(),
                        );
                    }
                    return other;
                },
            }
            i += 1;
        }
        Ok(None)
    }

    /// Stores what the exploration of a call found out.
    pub fn store_summary_case(
        &mut self,
        function: SummarizableFunctionId,
        participants: Vec<ThreadId>,
        inputs: ParticipantArguments,
        outcomes: Vec<SummaryOutcome>,
    ) -> (r: Option<CallFault>)
        requires
            runtime_ok(old(self)@),
            participants@.no_duplicates(),
        ensures
            runtime_ok(final(self)@),
            match known_outcomes(old(self)@, function@, participants@, inputs@) {
                Err(f) => r == Some(CallFault::Summary(f)) && final(self)@ == old(self)@,
                Ok(Some(_)) => r == Some(CallFault::CaseExists) && final(self)@ == old(self)@,
                Ok(None) => r is None && final(self)@ == (RuntimeView {
                    summaries: old(self)@.summaries.insert(
                        function@,
                        stored_cases(old(self)@, function@).push(
                            CaseView {
                                participants: participants@,
                                inputs: inputs@,
                                outcomes: outcomes_view(outcomes@),
                            },
                        ),
                    ),
                    ..old(self)@
                }),
            },
    {
        match self.lookup_summary_outcomes(&function, &participants, &inputs) {
            Err(f) => return Some(CallFault::Summary(f)),
            Ok(Some(_)) => return Some(CallFault::CaseExists),
            Ok(None) => {},
        }
        let ghost before = stored_cases(self@, function@);
        let mut list = match self.summaries.take(&function) {
            Some(l) => l,
            None => CaseList { cases: Vec::new() },
        };
        assert(list@ =~= before);
        let case = SummaryCase { participants, inputs, outcomes };
        let ghost new = case@;
        list.cases.push(case);
        assert(list@ =~= before.push(new));
        assert(cases_ok(list@)) by {
            assert forall|i: int| 0 <= i < list@.len() implies (
            #[trigger] list@[i]).participants.no_duplicates() by {
                if i < before.len() {
                    assert(list@[i] == before[i]);
                }
            }
        }
        let ghost all = list@;
        self.summaries.insert(function, list);
        assert(self@.summaries =~= old(self)@.summaries.insert(function@, all));
        None
    }

    /// Makes a closed group a call.
    pub fn commit_group(
        &mut self,
        function: SummarizableFunctionId,
        offers: &Vec<ParticipationOffer>,
    ) -> (r: Result<SummarizableCallId, CallFault>)
        requires
            runtime_ok(old(self)@),
        ensures
            runtime_ok(final(self)@),
            match commit_fault(old(self)@, function@, offers_view(offers@)) {
                Some(f) => r == Err::<SummarizableCallId, CallFault>(f) && final(self)@
                    == old(self)@,
                None => r matches Ok(c) && c@ == (CallView {
                    function: function@,
                    call_index: count_of(old(self)@.next_call_index, function@),
                }) && final(self)@ == committed(old(self)@, function@, offers_view(offers@)),
            },
    {
        let ghost views = offers_view(offers@);
        match check_group(offers) {
            Some(f) => return Err(CallFault::Group(f)),
            None => {},
        }
        let mut i: usize = 0;
        while i < offers.len()
            invariant
                i <= offers@.len(),
                views == offers_view(offers@),
                self@ == old(self)@,
                runtime_ok(self@),
                group_fault(views) is None,
                forall|k: int| 0 <= k < i ==> (#[trigger] views[k]).function == function@,
            decreases offers.len() - i,
        {
            assert(views[i as int] == offers@[i as int]@);
            if !offers[i].function.same(&function) {
                assert(views[i as int].function != function@);
                return Err(CallFault::FunctionMismatch);
            }
            i += 1;
        }
        let call_index: u64 = match self.next_call_index.get(&function) {
            Some(c) => *c,
            None => 0,
        };
        let call = SummarizableCallId { function: function.clone(), call_index };
        if self.call_states.contains_key(&call) {
            return Err(CallFault::CallReused);
        }
        let mut arguments: ParticipantArguments = ParticipantValues(Vec::new());
        assert(arguments@ =~= offered_arguments(views, 0));
        let mut k: usize = 0;
        while k < offers.len()
            invariant
                k <= offers@.len(),
                views == offers_view(offers@),
                members(views).no_duplicates(),
                arguments@ == offered_arguments(views, k as nat),
            decreases offers.len() - k,
        {
            assert(views[k as int] == offers@[k as int]@);
            proof {
                lemma_offered(views, k as nat);
            }
            arguments.insert(offers[k].id.participant, offers[k].arguments.clone());
            k += 1;
        }
        proof {
            lemma_offered(views, views.len());
            lemma_keys(arguments@);
        }
        let next: u64 = if call_index < u64::MAX {
            call_index + 1
        } else {
            call_index
        };
        self.next_call_index.insert(function, next);
        self.call_states.insert(call.clone(), SummarizableCallState::new(arguments));
        assert(self@ =~= committed(old(self)@, call@.function, views));
        Ok(call)
    }
}

/// The call that an execution is meant to explore.
pub struct Exploration {
    pub call: SummarizableCallId,
    pub participants: Vec<ThreadId>,
    pub actual_inputs: ParticipantArguments,
    pub summary_inputs: ParticipantArguments,
}

/// Such a call as the contracts see it.
pub struct ExplorationView {
    pub call: CallView,
    pub participants: Seq<ThreadId>,
    pub actual_inputs: InputsView,
    pub summary_inputs: InputsView,
}

impl View for Exploration {
    type V = ExplorationView;

    open spec fn view(&self) -> ExplorationView {
        ExplorationView {
            call: self.call@,
            participants: self.participants@,
            actual_inputs: self.actual_inputs@,
            summary_inputs: self.summary_inputs@,
        }
    }
}

/// The view of an exploration, where there is one.
pub open spec fn exploration_view(e: Option<&Exploration>) -> Option<ExplorationView> {
    match e {
        Some(x) => Some(x@),
        None => None,
    }
}

/// A call for which there is no summary.
pub struct SummaryMiss {
    pub participants: Vec<ThreadId>,
    pub actual_inputs: ParticipantArguments,
    pub summary_inputs: ParticipantArguments,
}

/// Such a call as the contracts see it.
pub struct MissView {
    pub participants: Seq<ThreadId>,
    pub actual_inputs: InputsView,
    pub summary_inputs: InputsView,
}

impl View for SummaryMiss {
    type V = MissView;

    open spec fn view(&self) -> MissView {
        MissView {
            participants: self.participants@,
            actual_inputs: self.actual_inputs@,
            summary_inputs: self.summary_inputs@,
        }
    }
}

/// The view of a missing summary, where there is one.
pub open spec fn miss_view(m: Option<SummaryMiss>) -> Option<MissView> {
    match m {
        Some(x) => Some(x@),
        None => None,
    }
}

/// What a participant that has arrived does.
pub enum EntryAction {
    WaitForParticipants,
    ExecuteBody { handle: SummarizableCallHandle, arguments: SummarizableArguments },
    SelectSummaryOutcome { handle: SummarizableCallHandle },
    ApplySummary(SummarizableCallHandle),
}

/// Such an action as the contracts see it.
pub enum ActionView {
    WaitForParticipants,
    ExecuteBody { call: CallView, arguments: Seq<ErasedView> },
    SelectSummaryOutcome { call: CallView },
    ApplySummary(CallView),
}

impl View for EntryAction {
    type V = ActionView;

    open spec fn view(&self) -> ActionView {
        match *self {
            EntryAction::WaitForParticipants => ActionView::WaitForParticipants,
            EntryAction::ExecuteBody { handle, arguments } => ActionView::ExecuteBody {
                call: handle.call@,
                arguments: arguments@,
            },
            EntryAction::SelectSummaryOutcome { handle } => ActionView::SelectSummaryOutcome {
                call: handle.call@,
            },
            EntryAction::ApplySummary(handle) => ActionView::ApplySummary(handle.call@),
        }
    }
}

/// `list` with `t`, where it does not hold it yet.
pub open spec fn joined(list: Seq<ThreadId>, t: ThreadId) -> Seq<ThreadId> {
    if list.contains(t) {
        list
    } else {
        list.push(t)
    }
}

/// How a call that all participants have arrived at goes on.
pub struct Opening {
    pub mode: ModeView,
    pub body_arguments: Option<InputsView>,
    pub miss: Option<MissView>,
}

/// How a call that all participants have arrived at goes on: it explores the body where
/// that is asked for or no summary is known, and applies a summary otherwise.
pub open spec fn opening(
    v: RuntimeView,
    call: CallView,
    s: StateView,
    expected: Option<ExplorationView>,
) -> Result<Opening, CallFault> {
    let known = known_outcomes(v, call.function, s.participants, s.arguments);
    match expected {
        Some(x) => if x.call == call {
            if x.participants != s.participants || x.actual_inputs != s.arguments {
                Err(CallFault::ExplorationChanged)
            } else {
                Ok(
                    Opening {
                        mode: ModeView::ExploringBody,
                        body_arguments: Some(x.summary_inputs),
                        miss: None,
                    },
                )
            }
        } else {
            match known {
                Err(f) => Err(CallFault::Summary(f)),
                Ok(None) => Err(CallFault::Unsummarized),
                Ok(Some(outcomes)) => Ok(applying(outcomes)),
            }
        },
        None => match known {
            Err(f) => Err(CallFault::Summary(f)),
            Ok(Some(outcomes)) => Ok(applying(outcomes)),
            Ok(None) => {
                let summary_inputs = abstracted_inputs(s.arguments, s.arguments.len()).0;
                Ok(
                    Opening {
                        mode: ModeView::ExploringBody,
                        body_arguments: Some(summary_inputs),
                        miss: Some(
                            MissView {
                                participants: s.participants,
                                actual_inputs: s.arguments,
                                summary_inputs,
                            },
                        ),
                    },
                )
            },
        },
    }
}

/// A call that applies a summary.
pub open spec fn applying(outcomes: Seq<OutcomeView>) -> Opening {
    Opening {
        mode: ModeView::ApplyingSummary { outcomes, selection: None },
        body_arguments: None,
        miss: None,
    }
}

/// What `tid` does at a call, once it has arrived.
pub open spec fn action_at(s: StateView, tid: ThreadId, call: CallView) -> Result<
    ActionView,
    CallFault,
> {
    match s.mode {
        None => Ok(ActionView::WaitForParticipants),
        Some(ModeView::ExploringBody) => match s.body_arguments {
            None => Err(CallFault::MissingArguments),
            Some(inputs) => match value_of(inputs, tid, inputs.len()) {
                None => Err(CallFault::MissingArguments),
                Some(arguments) => Ok(ActionView::ExecuteBody { call, arguments }),
            },
        },
        Some(ModeView::ApplyingSummary { outcomes, selection }) => if selection is Some {
            Ok(ActionView::ApplySummary(call))
        } else if tid == s.selector {
            Ok(ActionView::SelectSummaryOutcome { call })
        } else {
            Ok(ActionView::WaitForParticipants)
        },
    }
}

/// What an arrival comes to.
pub struct Arrival {
    pub state: StateView,
    pub action: ActionView,
    pub wake: Seq<ThreadId>,
    pub miss: Option<MissView>,
}

/// What the arrival of `tid` at a call comes to. The last participant to arrive opens the
/// call and wakes those that wait.
pub open spec fn arrival(
    v: RuntimeView,
    tid: ThreadId,
    call: CallView,
    arguments: Seq<ErasedView>,
    expected: Option<ExplorationView>,
) -> Result<Arrival, CallFault> {
    if !v.call_states.contains_key(call) {
        Err(CallFault::MissingCall)
    } else {
        let s = v.call_states[call];
        let offered = value_of(s.arguments, tid, s.arguments.len());
        if !s.participants.contains(tid) {
            Err(CallFault::NotParticipant)
        } else if offered is None {
            Err(CallFault::MissingArguments)
        } else if offered != Some(arguments) {
            Err(CallFault::ArgumentsChanged)
        } else {
            let here = StateView { arrived: joined(s.arrived, tid), ..s };
            if here.mode is None && here.arrived.len() == here.participants.len() {
                match opening(v, call, here, expected) {
                    Err(f) => Err(f),
                    Ok(o) => entered(
                        StateView {
                            body_arguments: o.body_arguments,
                            mode: Some(o.mode),
                            waiting: Seq::empty(),
                            ..here
                        },
                        tid,
                        call,
                        here.waiting,
                        o.miss,
                    ),
                }
            } else {
                entered(here, tid, call, Seq::empty(), None)
            }
        }
    }
}

/// An arrival at a call in state `s`.
pub open spec fn entered(
    s: StateView,
    tid: ThreadId,
    call: CallView,
    wake: Seq<ThreadId>,
    miss: Option<MissView>,
) -> Result<Arrival, CallFault> {
    match action_at(s, tid, call) {
        Err(f) => Err(f),
        Ok(action) => Ok(
            Arrival {
                state: if action is WaitForParticipants {
                    StateView { waiting: joined(s.waiting, tid), ..s }
                } else {
                    s
                },
                action,
                wake,
                miss,
            },
        ),
    }
}

fn join_threads(list: &mut Vec<ThreadId>, t: ThreadId)
    ensures
        final(list)@ == joined(old(list)@, t),
{
    if !thread_in(list, t) {
        list.push(t);
    }
}

fn copy_threads(list: &Vec<ThreadId>) -> (r: Vec<ThreadId>)
    ensures
        r@ == list@,
{
    let mut r: Vec<ThreadId> = Vec::new();
    let mut i: usize = 0;
    while i < list.len()
        invariant
            i <= list@.len(),
            r@ == list@.take(i as int),
        decreases list.len() - i,
    {
        r.push(list[i]);
        i += 1;
    }
    assert(r@ =~= list@);
    r
}

fn threads_same(a: &Vec<ThreadId>, b: &Vec<ThreadId>) -> (r: bool)
    ensures
        r == (a@ == b@),
{
    if a.len() != b.len() {
        return false;
    }
    let mut i: usize = 0;
    while i < a.len()
        invariant
            i <= a@.len() == b@.len(),
            forall|k: int| 0 <= k < i ==> a@[k] == b@[k],
        decreases a.len() - i,
    {
        if a[i] != b[i] {
            return false;
        }
        i += 1;
    }
    assert(a@ =~= b@);
    true
}

fn copy_outcomes(list: &Vec<SummaryOutcome>) -> (r: Vec<SummaryOutcome>)
    ensures
        outcomes_view(r@) == outcomes_view(list@),
{
    let mut r: Vec<SummaryOutcome> = Vec::new();
    let mut i: usize = 0;
    while i < list.len()
        invariant
            i <= list@.len(),
            r@.len() == i,
            forall|k: int| 0 <= k < i ==> (#[trigger] r@[k])@ == list@[k]@,
        decreases list.len() - i,
    {
        r.push(list[i].clone());
        i += 1;
    }
    assert(outcomes_view(r@) =~= outcomes_view(list@));
    r
}

/// How a call goes on, as it is carried out.
struct Opened {
    mode: CallMode,
    body_arguments: Option<ParticipantArguments>,
    miss: Option<SummaryMiss>,
}

impl SummarizableCallState {
    /// What `tid` does at the call.
    fn action(&self, tid: ThreadId, call: &SummarizableCallId) -> (r: Result<
        EntryAction,
        CallFault,
    >)
        ensures
            match action_at(self@, tid, call@) {
                Err(f) => r == Err::<EntryAction, CallFault>(f),
                Ok(a) => r matches Ok(x) && x@ == a,
            },
    {
        match &self.mode {
            None => Ok(EntryAction::WaitForParticipants),
            Some(CallMode::ExploringBody) => match &self.body_arguments {
                None => Err(CallFault::MissingArguments),
                Some(inputs) => match inputs.value_for(tid) {
                    None => Err(CallFault::MissingArguments),
                    Some(arguments) => Ok(
                        EntryAction::ExecuteBody {
                            handle: SummarizableCallHandle { call: call.clone() },
                            arguments: arguments.clone(),
                        },
                    ),
                },
            },
            Some(CallMode::ApplyingSummary { selection, .. }) => if selection.is_some() {
                Ok(EntryAction::ApplySummary(SummarizableCallHandle { call: call.clone() }))
            } else if tid == self.selector {
                Ok(
                    EntryAction::SelectSummaryOutcome {
                        handle: SummarizableCallHandle { call: call.clone() },
                    },
                )
            } else {
                Ok(EntryAction::WaitForParticipants)
            },
        }
    }

    fn copy(&self) -> (r: Self)
        ensures
            r@ == self@,
    {
        SummarizableCallState {
            participants: copy_threads(&self.participants),
            arguments: self.arguments.copy(),
            selector: self.selector,
            arrived_participants: copy_threads(&self.arrived_participants),
            waiting_participants: copy_threads(&self.waiting_participants),
            returns_by_participant: self.returns_by_participant.copy(),
            body_arguments: match &self.body_arguments {
                Some(a) => Some(a.copy()),
                None => None,
            },
            mode: match &self.mode {
                None => None,
                Some(CallMode::ExploringBody) => Some(CallMode::ExploringBody),
                Some(CallMode::ApplyingSummary { outcomes, selection }) => Some(
                    CallMode::ApplyingSummary {
                        outcomes: copy_outcomes(outcomes),
                        selection: match selection {
                            Some((o, e)) => Some((o.clone(), *e)),
                            None => None,
                        },
                    },
                ),
            },
        }
    }
}

impl SummarizationRuntime {
    /// How a call that all participants have arrived at goes on.
    fn open_call(
        &self,
        call: &SummarizableCallId,
        state: &SummarizableCallState,
        expected: Option<&Exploration>,
    ) -> (r: Result<Opened, CallFault>)
        requires
            runtime_ok(self@),
            state@.participants.no_duplicates(),
        ensures
            match opening(self@, call@, state@, exploration_view(expected)) {
                Err(f) => r == Err::<Opened, CallFault>(f),
                Ok(o) => r matches Ok(x) && x.mode@ == o.mode && inputs_view(x.body_arguments)
                    == o.body_arguments && miss_view(x.miss) == o.miss,
            },
    {
        match expected {
            Some(x) => {
                if x.call.same(call) {
                    if !threads_same(&x.participants, &state.participants)
                        || !x.actual_inputs.same(&state.arguments) {
                        return Err(CallFault::ExplorationChanged);
                    }
                    return Ok(
                        Opened {
                            mode: CallMode::ExploringBody,
                            body_arguments: Some(x.summary_inputs.copy()),
                            miss: None,
                        },
                    );
                }
            },
            None => {},
        }
        let known = self.lookup_summary_outcomes(
            &call.function,
            &state.participants,
            &state.arguments,
        );
        match known {
            Err(f) => Err(CallFault::Summary(f)),
            Ok(Some(outcomes)) => Ok(
                Opened {
                    mode: CallMode::ApplyingSummary { outcomes, selection: None },
                    body_arguments: None,
                    miss: None,
                },
            ),
            Ok(None) => {
                if expected.is_some() {
                    return Err(CallFault::Unsummarized);
                }
                let summary_inputs = state.arguments.abstract_inputs();
                let miss = SummaryMiss {
                    participants: copy_threads(&state.participants),
                    actual_inputs: state.arguments.copy(),
                    summary_inputs: summary_inputs.copy(),
                };
                Ok(
                    Opened {
                        mode: CallMode::ExploringBody,
                        body_arguments: Some(summary_inputs),
                        miss: Some(miss),
                    },
                )
            },
        }
    }

    /// Lets a participant arrive at a call.
    pub fn arrive_at_resolved_entry(
        &mut self,
        tid: ThreadId,
        call: &SummarizableCallId,
        arguments: &SummarizableArguments,
        expected: Option<&Exploration>,
    ) -> (r: Result<(EntryAction, Vec<ThreadId>, Option<SummaryMiss>), CallFault>)
        requires
            runtime_ok(old(self)@),
        ensures
            runtime_ok(final(self)@),
            match arrival(old(self)@, tid, call@, arguments@, exploration_view(expected)) {
                Err(f) => r == Err::<
                    (EntryAction, Vec<ThreadId>, Option<SummaryMiss>),
                    CallFault,
                >(f) && final(self)@ == old(self)@,
                Ok(a) => r matches Ok(x) && x.0@ == a.action && x.1@ == a.wake && miss_view(x.2)
                    == a.miss && final(self)@ == (RuntimeView {
                    call_states: old(self)@.call_states.insert(call@, a.state),
                    ..old(self)@
                }),
            },
    {
        let ghost before = self@;
        let mut state = match self.call_states.get(call) {
            None => return Err(CallFault::MissingCall),
            Some(s) => s.copy(),
        };
        let ghost s = state@;
        assert(state_ok(s));
        if !thread_in(&state.participants, tid) {
            return Err(CallFault::NotParticipant);
        }
        match state.arguments.value_for(tid) {
            None => return Err(CallFault::MissingArguments),
            Some(offered) => {
                if !offered.same(arguments) {
                    return Err(CallFault::ArgumentsChanged);
                }
            },
        }
        join_threads(&mut state.arrived_participants, tid);
        let ghost here = StateView { arrived: joined(s.arrived, tid), ..s };
        assert(state@ =~= here);
        let mut wake: Vec<ThreadId> = Vec::new();
        let mut miss: Option<SummaryMiss> = None;
        if state.mode.is_none() && state.arrived_participants.len() == state.participants.len() {
            let opened = match self.open_call(call, &state, expected) {
                Err(f) => return Err(f),
                Ok(o) => o,
            };
            state.body_arguments = opened.body_arguments;
            state.mode = Some(opened.mode);
            miss = opened.miss;
            let mut none: Vec<ThreadId> = Vec::new();
            std::mem::swap(&mut none, &mut state.waiting_participants);
            wake = none;
        }
        let ghost now = state@;
        let action = match state.action(tid, call) {
            Err(f) => return Err(f),
            Ok(a) => a,
        };
        match action {
            EntryAction::WaitForParticipants => join_threads(&mut state.waiting_participants, tid),
            _ => {},
        }
        proof {
            let a = arrival(before, tid, call@, arguments@, exploration_view(expected));
            assert(a is Ok);
            assert(state@ =~= a->Ok_0.state);
        }
        self.call_states.insert(call.clone(), state);
        assert(self@.call_states =~= before.call_states.insert(call@, state@));
        Ok((action, wake, miss))
    }
}

/// The outcomes of a call that applies a summary, and the selected one.
pub open spec fn choices(v: RuntimeView, call: CallView) -> Result<
    (Seq<OutcomeView>, Option<(OutcomeView, Event)>),
    CallFault,
> {
    if !v.call_states.contains_key(call) {
        Err(CallFault::MissingCall)
    } else {
        match v.call_states[call].mode {
            None => Err(CallFault::Incomplete),
            Some(ModeView::ExploringBody) => Err(CallFault::ExploringBody),
            Some(ModeView::ApplyingSummary { outcomes, selection }) => Ok((outcomes, selection)),
        }
    }
}

/// The outcomes of a call of which none is selected yet.
pub open spec fn open_choices(v: RuntimeView, call: CallView) -> Result<
    Seq<OutcomeView>,
    CallFault,
> {
    match choices(v, call) {
        Err(f) => Err(f),
        Ok((outcomes, selection)) => if selection is Some {
            Err(CallFault::AlreadySelected)
        } else {
            Ok(outcomes)
        },
    }
}

/// The runtime with a call in another state.
pub open spec fn with_state(v: RuntimeView, call: CallView, s: StateView) -> RuntimeView {
    RuntimeView { call_states: v.call_states.insert(call, s), ..v }
}

/// Why a return is refused.
pub open spec fn return_fault(v: RuntimeView, tid: ThreadId, call: CallView) -> Option<CallFault> {
    if !v.call_states.contains_key(call) {
        Some(CallFault::MissingCall)
    } else {
        let s = v.call_states[call];
        if !s.participants.contains(tid) {
            Some(CallFault::NotParticipant)
        } else if value_of(s.returned, tid, s.returned.len()) is Some {
            Some(CallFault::ReturnedTwice)
        } else {
            None
        }
    }
}

impl SummarizableCallState {
    fn choices(&self) -> (r: Result<
        (&Vec<SummaryOutcome>, &Option<(SummaryOutcome, Event)>),
        CallFault,
    >)
        ensures
            match self@.mode {
                None => r == Err::<
                    (&Vec<SummaryOutcome>, &Option<(SummaryOutcome, Event)>),
                    CallFault,
                >(CallFault::Incomplete),
                Some(ModeView::ExploringBody) => r == Err::<
                    (&Vec<SummaryOutcome>, &Option<(SummaryOutcome, Event)>),
                    CallFault,
                >(CallFault::ExploringBody),
                Some(ModeView::ApplyingSummary { outcomes, selection }) => r matches Ok(x)
                    && outcomes_view(x.0@) == outcomes && selection_view(*x.1) == selection,
            },
    {
        match &self.mode {
            None => Err(CallFault::Incomplete),
            Some(CallMode::ExploringBody) => Err(CallFault::ExploringBody),
            Some(CallMode::ApplyingSummary { outcomes, selection }) => Ok((outcomes, selection)),
        }
    }
}

impl SummarizationRuntime {
    /// The outcomes of a call that applies a summary.
    pub fn summary_outcomes(&self, handle: &SummarizableCallHandle) -> (r: Result<
        Vec<SummaryOutcome>,
        CallFault,
    >)
        ensures
            match choices(self@, handle.call@) {
                Err(f) => r == Err::<Vec<SummaryOutcome>, CallFault>(f),
                Ok((outcomes, _)) => r matches Ok(x) && outcomes_view(x@) == outcomes,
            },
    {
        match self.call_states.get(&handle.call) {
            None => Err(CallFault::MissingCall),
            Some(s) => match s.choices() {
                Err(f) => Err(f),
                Ok((outcomes, _)) => Ok(copy_outcomes(outcomes)),
            },
        }
    }

    /// Replaces the outcomes of a call of which none is selected yet.
    pub fn replace_summary_outcomes(
        &mut self,
        handle: &SummarizableCallHandle,
        replacement: Vec<SummaryOutcome>,
    ) -> (r: Option<CallFault>)
        requires
            runtime_ok(old(self)@),
        ensures
            runtime_ok(final(self)@),
            match open_choices(old(self)@, handle.call@) {
                Err(f) => r == Some(f) && final(self)@ == old(self)@,
                Ok(_) => r is None && final(self)@ == with_state(
                    old(self)@,
                    handle.call@,
                    StateView {
                        mode: Some(
                            ModeView::ApplyingSummary {
                                outcomes: outcomes_view(replacement@),
                                selection: None,
                            },
                        ),
                        ..old(self)@.call_states[handle.call@]
                    },
                ),
            },
    {
        let mut state = match self.call_states.get(&handle.call) {
            None => return Some(CallFault::MissingCall),
            Some(s) => s.copy(),
        };
        match state.choices() {
            Err(f) => return Some(f),
            Ok((_, selection)) => {
                if selection.is_some() {
                    return Some(CallFault::AlreadySelected);
                }
            },
        }
        let ghost before = self@;
        let ghost new = outcomes_view(replacement@);
        state.mode = Some(CallMode::ApplyingSummary { outcomes: replacement, selection: None });
        assert(state_ok(state@));
        assert(state@ =~= (StateView {
            mode: Some(ModeView::ApplyingSummary { outcomes: new, selection: None }),
            ..before.call_states[handle.call@]
        }));
        self.call_states.insert(handle.call.clone(), state);
        assert(self@ =~= with_state(before, handle.call@, state@));
        None
    }

    /// The participants of a call, and one of its outcomes.
    pub fn selected_summary_outcome_template(
        &self,
        handle: &SummarizableCallHandle,
        index: usize,
    ) -> (r: Result<(Vec<ThreadId>, SummaryOutcome), CallFault>)
        ensures
            match open_choices(self@, handle.call@) {
                Err(f) => r == Err::<(Vec<ThreadId>, SummaryOutcome), CallFault>(f),
                Ok(outcomes) => if index < outcomes.len() {
                    r matches Ok(x) && x.0@ == self@.call_states[handle.call@].participants
                        && x.1@ == outcomes[index as int]
                } else {
                    r == Err::<(Vec<ThreadId>, SummaryOutcome), CallFault>(CallFault::OutOfBounds)
                },
            },
    {
        match self.call_states.get(&handle.call) {
            None => Err(CallFault::MissingCall),
            Some(s) => match s.choices() {
                Err(f) => Err(f),
                Ok((outcomes, selection)) => {
                    if selection.is_some() {
                        Err(CallFault::AlreadySelected)
                    } else if index < outcomes.len() {
                        assert(outcomes_view(outcomes@)[index as int] == outcomes@[index as int]@);
                        Ok((copy_threads(&s.participants), outcomes[index].clone()))
                    } else {
                        assert(outcomes_view(outcomes@).len() == outcomes@.len());
                        Err(CallFault::OutOfBounds)
                    }
                },
            },
        }
    }

    /// Selects an outcome for all participants; returns those that waited for it.
    pub fn commit_summary_selection(
        &mut self,
        handle: &SummarizableCallHandle,
        outcome: SummaryOutcome,
        choice: Event,
    ) -> (r: Result<Vec<ThreadId>, CallFault>)
        requires
            runtime_ok(old(self)@),
        ensures
            runtime_ok(final(self)@),
            match open_choices(old(self)@, handle.call@) {
                Err(f) => r == Err::<Vec<ThreadId>, CallFault>(f) && final(self)@ == old(self)@,
                Ok(outcomes) => r matches Ok(wake) && wake@
                    == old(self)@.call_states[handle.call@].waiting && final(self)@ == with_state(
                    old(self)@,
                    handle.call@,
                    StateView {
                        mode: Some(
                            ModeView::ApplyingSummary {
                                outcomes,
                                selection: Some((outcome@, choice)),
                            },
                        ),
                        waiting: Seq::empty(),
                        ..old(self)@.call_states[handle.call@]
                    },
                ),
            },
    {
        let mut state = match self.call_states.get(&handle.call) {
            None => return Err(CallFault::MissingCall),
            Some(s) => s.copy(),
        };
        let outcomes = match state.choices() {
            Err(f) => return Err(f),
            Ok((outcomes, selection)) => {
                if selection.is_some() {
                    return Err(CallFault::AlreadySelected);
                }
                copy_outcomes(outcomes)
            },
        };
        let ghost before = self@;
        let ghost s = state@;
        let ghost o = outcome@;
        let ghost list = outcomes_view(outcomes@);
        state.mode = Some(
            CallMode::ApplyingSummary { outcomes, selection: Some((outcome, choice)) },
        );
        let mut wake: Vec<ThreadId> = Vec::new();
        std::mem::swap(&mut wake, &mut state.waiting_participants);
        assert(state_ok(s));
        assert(state@ =~= (StateView {
            mode: Some(
                ModeView::ApplyingSummary { outcomes: list, selection: Some((o, choice)) },
            ),
            waiting: Seq::empty(),
            ..s
        }));
        self.call_states.insert(handle.call.clone(), state);
        assert(self@ =~= with_state(before, handle.call@, state@));
        Ok(wake)
    }

    /// The outcome that was selected for a call.
    pub fn selected_summary_outcome(&self, handle: &SummarizableCallHandle) -> (r: Result<
        (SummaryOutcome, Event),
        CallFault,
    >)
        ensures
            match choices(self@, handle.call@) {
                Err(f) => r == Err::<(SummaryOutcome, Event), CallFault>(f),
                Ok((_, None)) => r == Err::<(SummaryOutcome, Event), CallFault>(
                    CallFault::NotSelected,
                ),
                Ok((_, Some(x))) => r matches Ok(y) && y.0@ == x.0 && y.1 == x.1,
            },
    {
        match self.call_states.get(&handle.call) {
            None => Err(CallFault::MissingCall),
            Some(s) => match s.choices() {
                Err(f) => Err(f),
                Ok((_, selection)) => match selection {
                    None => Err(CallFault::NotSelected),
                    Some((o, e)) => Ok((o.clone(), *e)),
                },
            },
        }
    }

    /// Records what a participant returned from the body; says whether all have returned.
    pub fn record_body_return(
        &mut self,
        tid: ThreadId,
        handle: &SummarizableCallHandle,
        value: ErasedSummarizableVal,
    ) -> (r: Result<bool, CallFault>)
        requires
            runtime_ok(old(self)@),
        ensures
            runtime_ok(final(self)@),
            match return_fault(old(self)@, tid, handle.call@) {
                Some(f) => r == Err::<bool, CallFault>(f) && final(self)@ == old(self)@,
                None => {
                    let s = old(self)@.call_states[handle.call@];
                    &&& r == Ok::<bool, CallFault>(s.returned.len() + 1 == s.participants.len())
                    &&& final(self)@ == with_state(
                        old(self)@,
                        handle.call@,
                        StateView { returned: with_value(s.returned, tid, value@), ..s },
                    )
                },
            },
    {
        let mut state = match self.call_states.get(&handle.call) {
            None => return Err(CallFault::MissingCall),
            Some(s) => s.copy(),
        };
        let ghost before = self@;
        let ghost s = state@;
        assert(state_ok(s));
        if !thread_in(&state.participants, tid) {
            return Err(CallFault::NotParticipant);
        }
        if state.returns_by_participant.value_for(tid).is_some() {
            return Err(CallFault::ReturnedTwice);
        }
        let ghost v = value@;
        proof {
            super::outcome::lemma_rank(s.returned, tid, s.returned.len());
        }
        state.returns_by_participant.insert(tid, value);
        assert(state@ =~= (StateView { returned: with_value(s.returned, tid, v), ..s }));
        assert(state@.returned.len() == state.returns_by_participant.0@.len());
        let all = state.returns_by_participant.0.len() == state.participants.len();
        self.call_states.insert(handle.call.clone(), state);
        assert(self@ =~= with_state(before, handle.call@, state@));
        Ok(all)
    }

    /// What the participants returned from the body, once all have returned.
    pub fn completed_body_returns(&self, call: &SummarizableCallId) -> (r: Option<
        ParticipantReturns,
    >)
        ensures
            r is Some == (self@.call_states.contains_key(call@) && self@.call_states[call@].returned.len()
                == self@.call_states[call@].participants.len()),
            r matches Some(x) ==> x@ == self@.call_states[call@].returned,
    {
        match self.call_states.get(call) {
            None => None,
            Some(s) => {
                assert(s@.returned.len() == s.returns_by_participant.0@.len());
                if s.returns_by_participant.0.len() == s.participants.len() {
                    Some(s.returns_by_participant.copy())
                } else {
                    None
                }
            },
        }
    }
}

impl Default for SummarizationRuntime {
    fn default() -> (r: Self)
        ensures
            runtime_ok(r@),
            !r@.symmetry,
            r@.summaries == Map::<Seq<char>, Seq<CaseView>>::empty(),
            r@.next_call_index == Map::<Seq<char>, u64>::empty(),
            r@.next_offer_occurrence == Map::<(ThreadId, Seq<char>), u64>::empty(),
            r@.call_states == Map::<CallView, StateView>::empty(),
    {
        SummarizationRuntime::new(SummarizationOptions::default())
    }
}

/// The summaries of a function.
pub open spec fn stored_cases(v: RuntimeView, function: Seq<char>) -> Seq<CaseView> {
    if v.summaries.contains_key(function) {
        v.summaries[function]
    } else {
        Seq::empty()
    }
}

proof fn lemma_fit_stays(
    cases: Seq<CaseView>,
    participants: Seq<ThreadId>,
    inputs: InputsView,
    symmetry: bool,
    m: nat,
    n: nat,
)
    requires
        m <= n,
        first_fit(cases, participants, inputs, symmetry, m) != Ok::<
            Option<Seq<OutcomeView>>,
            SummaryFault,
        >(None),
    ensures
        first_fit(cases, participants, inputs, symmetry, n) == first_fit(
            cases,
            participants,
            inputs,
            symmetry,
            m,
        ),
    decreases n,
{
    if m < n {
        lemma_fit_stays(cases, participants, inputs, symmetry, m, (n - 1) as nat);
    }
}

} // verus!
