//! How the participants of a collective call find each other.

use super::erased::{ErasedView, SummarizableArguments};
use super::participants::{
    groups_view, CallView, PartView, Participants, SummarizableCallId, SummarizableFunctionId,
};
use crate::assoc::SameAs;
use crate::event::ThreadId;
use crate::loc::thread_in;
use vstd::prelude::*;
use vstd::string::*;

verus! {

/// The identity of one thread's attempt to enter a summarizable function.
pub struct ParticipationOfferId {
    pub function: SummarizableFunctionId,
    pub participant: ThreadId,
    pub occurrence: u64,
}

/// Such an identity as the contracts see it.
pub struct OfferIdView {
    pub function: Seq<char>,
    pub participant: ThreadId,
    pub occurrence: u64,
}

impl View for ParticipationOfferId {
    type V = OfferIdView;

    open spec fn view(&self) -> OfferIdView {
        OfferIdView {
            function: self.function@,
            participant: self.participant,
            occurrence: self.occurrence,
        }
    }
}

impl SameAs for ParticipationOfferId {
    fn same(&self, other: &Self) -> (b: bool) {
        self.participant == other.participant && self.occurrence == other.occurrence
            && self.function.same(&other.function)
    }
}

impl Clone for ParticipationOfferId {
    fn clone(&self) -> (r: Self)
        ensures
            r@ == self@,
    {
        ParticipationOfferId {
            function: self.function.clone(),
            participant: self.participant,
            occurrence: self.occurrence,
        }
    }
}

/// The view of a call, where there is one.
pub open spec fn parent_view(parent: Option<SummarizableCallId>) -> Option<CallView> {
    match parent {
        Some(c) => Some(c@),
        None => None,
    }
}

fn same_parent(a: &Option<SummarizableCallId>, b: &Option<SummarizableCallId>) -> (r: bool)
    ensures
        r == (parent_view(*a) == parent_view(*b)),
{
    match (a, b) {
        (Some(x), Some(y)) => x.same(y),
        (None, None) => true,
        _ => false,
    }
}

fn copy_parent(a: &Option<SummarizableCallId>) -> (r: Option<SummarizableCallId>)
    ensures
        parent_view(r) == parent_view(*a),
{
    match a {
        Some(x) => Some(x.clone()),
        None => None,
    }
}

/// A thread's offer to take part in a call.
pub struct ParticipationOffer {
    pub id: ParticipationOfferId,
    pub resolver: ThreadId,
    pub function: SummarizableFunctionId,
    pub depth: usize,
    pub parent: Option<SummarizableCallId>,
    pub specification: Participants,
    pub arguments: SummarizableArguments,
}

/// An offer as the contracts see it.
pub struct OfferView {
    pub id: OfferIdView,
    pub resolver: ThreadId,
    pub function: Seq<char>,
    pub depth: usize,
    pub parent: Option<CallView>,
    pub specification: PartView,
    pub arguments: Seq<ErasedView>,
}

impl View for ParticipationOffer {
    type V = OfferView;

    open spec fn view(&self) -> OfferView {
        OfferView {
            id: self.id@,
            resolver: self.resolver,
            function: self.function@,
            depth: self.depth,
            parent: parent_view(self.parent),
            specification: self.specification@,
            arguments: self.arguments@,
        }
    }
}

impl Clone for ParticipationOffer {
    fn clone(&self) -> (r: Self)
        ensures
            r@ == self@,
    {
        ParticipationOffer {
            id: self.id.clone(),
            resolver: self.resolver,
            function: self.function.clone(),
            depth: self.depth,
            parent: copy_parent(&self.parent),
            specification: self.specification.clone(),
            arguments: self.arguments.clone(),
        }
    }
}

/// The views of a list of offers.
pub open spec fn offers_view(offers: Seq<ParticipationOffer>) -> Seq<OfferView> {
    Seq::new(offers.len(), |i: int| offers[i]@)
}

/// The answer to an offer.
pub struct ParticipationGrant {
    pub offer: ParticipationOfferId,
    pub call: SummarizableCallId,
}

/// Where offers meet: one function, at one depth of one call, with one resolver.
pub struct ParticipationDomain {
    pub function: SummarizableFunctionId,
    pub depth: usize,
    pub parent: Option<SummarizableCallId>,
    pub resolver: ThreadId,
}

/// Such a meeting place as the contracts see it.
pub struct DomainView {
    pub function: Seq<char>,
    pub depth: usize,
    pub parent: Option<CallView>,
    pub resolver: ThreadId,
}

impl View for ParticipationDomain {
    type V = DomainView;

    open spec fn view(&self) -> DomainView {
        DomainView {
            function: self.function@,
            depth: self.depth,
            parent: parent_view(self.parent),
            resolver: self.resolver,
        }
    }
}

impl SameAs for ParticipationDomain {
    fn same(&self, other: &Self) -> (b: bool) {
        self.depth == other.depth && self.resolver == other.resolver && self.function.same(
            &other.function,
        ) && same_parent(&self.parent, &other.parent)
    }
}

/// A place for the messages by which a group is formed.
pub enum SummarizationRendezvousLoc {
    Offers(ParticipationDomain),
    Grant(ParticipationOfferId),
}

/// Where an offer belongs.
pub open spec fn domain_of(o: OfferView) -> DomainView {
    DomainView { function: o.function, depth: o.depth, parent: o.parent, resolver: o.resolver }
}

impl ParticipationOffer {
    /// Where the offer belongs.
    pub fn domain(&self) -> (d: ParticipationDomain)
        ensures
            d@ == domain_of(self@),
    {
        ParticipationDomain {
            function: self.function.clone(),
            depth: self.depth,
            parent: copy_parent(&self.parent),
            resolver: self.resolver,
        }
    }
}

/// Whether an offer belongs to a meeting place.
pub fn offer_domain_matches(offer: &ParticipationOffer, domain: &ParticipationDomain) -> (b: bool)
    ensures
        b == (domain_of(offer@) == domain@),
{
    offer.domain().same(domain)
}

/// What is wrong with a group.
#[derive(Clone, Copy, Debug, PartialEq, Eq, Structural)]
pub enum GroupFault {
    /// There is no offer.
    Empty,
    /// Offers of different functions, depths, parents or resolvers meet.
    CrossesBoundary,
    /// A thread takes part twice.
    RepeatedParticipant,
    /// There is not exactly one resolver.
    ResolverCount,
    /// The resolver is not the one that the offers name.
    ResolverMismatch,
    /// A required participant is missing.
    MissingRequired,
    /// None or more than one of some alternatives takes part.
    ExactlyOne,
    /// The root of the group does not resolve it.
    NotResolver,
    /// The offer is not from a thread that was waited for.
    WrongSender,
    /// No offer is waited for.
    NotWaiting,
}

/// The threads that make offers.
pub open spec fn members(offers: Seq<OfferView>) -> Seq<ThreadId> {
    Seq::new(offers.len(), |i: int| offers[i].id.participant)
}

/// How many of the first `n` threads of `list` are in the group.
pub open spec fn count_in(list: Seq<ThreadId>, group: Seq<ThreadId>, n: nat) -> nat
    decreases n,
{
    if n == 0 {
        0
    } else {
        count_in(list, group, (n - 1) as nat) + (if group.contains(list[n - 1]) {
            1nat
        } else {
            0nat
        })
    }
}

/// How many of the first `n` offers come from a resolver.
pub open spec fn resolvers(offers: Seq<OfferView>, n: nat) -> nat
    decreases n,
{
    if n == 0 {
        0
    } else {
        resolvers(offers, (n - 1) as nat) + (if offers[n - 1].specification.mode is Resolve {
            1nat
        } else {
            0nat
        })
    }
}

/// Whether all that an offer requires takes part.
pub open spec fn has_required(p: PartView, group: Seq<ThreadId>) -> bool {
    forall|k: int| 0 <= k < p.required.len() ==> group.contains(#[trigger] p.required[k])
}

/// Whether exactly one of each list of alternatives takes part.
pub open spec fn has_exactly_one(p: PartView, group: Seq<ThreadId>) -> bool {
    forall|k: int|
        0 <= k < p.exactly_one.len() ==> count_in(
            #[trigger] p.exactly_one[k],
            group,
            p.exactly_one[k].len(),
        ) == 1
}

/// What the first `n` offers miss in the group.
pub open spec fn member_fault(offers: Seq<OfferView>, n: nat) -> Option<GroupFault>
    decreases n,
{
    if n == 0 {
        None
    } else {
        match member_fault(offers, (n - 1) as nat) {
            Some(f) => Some(f),
            None => if !has_required(offers[n - 1].specification, members(offers)) {
                Some(GroupFault::MissingRequired)
            } else if !has_exactly_one(offers[n - 1].specification, members(offers)) {
                Some(GroupFault::ExactlyOne)
            } else {
                None
            },
        }
    }
}

/// What is wrong with a group; nothing where it is closed.
pub open spec fn group_fault(offers: Seq<OfferView>) -> Option<GroupFault> {
    if offers.len() == 0 {
        Some(GroupFault::Empty)
    } else if exists|i: int|
        0 <= i < offers.len() && domain_of(#[trigger] offers[i]) != domain_of(offers[0]) {
        Some(GroupFault::CrossesBoundary)
    } else if !members(offers).no_duplicates() {
        Some(GroupFault::RepeatedParticipant)
    } else if resolvers(offers, offers.len()) != 1 {
        Some(GroupFault::ResolverCount)
    } else if exists|i: int|
        0 <= i < offers.len() && (#[trigger] offers[i]).specification.mode is Resolve
            && offers[i].id.participant != offers[0].resolver {
        Some(GroupFault::ResolverMismatch)
    } else {
        member_fault(offers, offers.len())
    }
}

fn list_members(offers: &Vec<ParticipationOffer>) -> (r: Vec<ThreadId>)
    ensures
        r@ == members(offers_view(offers@)),
{
    let mut r: Vec<ThreadId> = Vec::new();
    let mut i: usize = 0;
    while i < offers.len()
        invariant
            i <= offers@.len(),
            r@.len() == i,
            forall|k: int| 0 <= k < i ==> #[trigger] r@[k] == offers@[k]@.id.participant,
        decreases offers.len() - i,
    {
        r.push(offers[i].id.participant);
        i += 1;
    }
    assert(r@ =~= members(offers_view(offers@)));
    r
}

fn count_members(list: &Vec<ThreadId>, group: &Vec<ThreadId>) -> (n: usize)
    ensures
        n == count_in(list@, group@, list@.len()),
{
    let mut n: usize = 0;
    let mut i: usize = 0;
    while i < list.len()
        invariant
            n <= i <= list@.len(),
            n == count_in(list@, group@, i as nat),
        decreases list.len() - i,
    {
        if thread_in(group, list[i]) {
            n += 1;
        }
        i += 1;
    }
    n
}

fn all_required(p: &Participants, group: &Vec<ThreadId>) -> (b: bool)
    ensures
        b == has_required(p@, group@),
{
    let required = p.required();
    let mut i: usize = 0;
    while i < required.len()
        invariant
            i <= required@.len(),
            required@ == p@.required,
            forall|k: int| 0 <= k < i ==> group@.contains(#[trigger] required@[k]),
        decreases required.len() - i,
    {
        if !thread_in(group, required[i]) {
            assert(!group@.contains(p@.required[i as int]));
            return false;
        }
        i += 1;
    }
    true
}

fn all_exactly_one(p: &Participants, group: &Vec<ThreadId>) -> (b: bool)
    ensures
        b == has_exactly_one(p@, group@),
{
    let lists = p.exactly_one();
    let ghost views = groups_view(lists@);
    let mut i: usize = 0;
    while i < lists.len()
        invariant
            i <= lists@.len(),
            views == groups_view(lists@),
            views == p@.exactly_one,
            forall|k: int|
                0 <= k < i ==> count_in(#[trigger] views[k], group@, views[k].len()) == 1,
        decreases lists.len() - i,
    {
        assert(views[i as int] == lists@[i as int]@);
        if count_members(&lists[i], group) != 1 {
            assert(count_in(
                p@.exactly_one[i as int],
                group@,
                p@.exactly_one[i as int].len(),
            ) != 1);
            return false;
        }
        i += 1;
    }
    true
}

fn repeats(list: &Vec<ThreadId>) -> (b: bool)
    ensures
        b == !list@.no_duplicates(),
{
    let mut i: usize = 0;
    while i < list.len()
        invariant
            i <= list@.len(),
            forall|a: int, b: int|
                0 <= a < i && a < b < list@.len() ==> #[trigger] list@[a] != #[trigger] list@[b],
        decreases list.len() - i,
    {
        let mut k: usize = i + 1;
        while k < list.len()
            invariant
                i < k <= list@.len(),
                forall|b: int| i < b < k ==> list@[i as int] != #[trigger] list@[b],
            decreases list.len() - k,
        {
            if list[i] == list[k] {
                return true;
            }
            k += 1;
        }
        i += 1;
    }
    false
}

/// What is wrong with a group.
pub fn check_group(offers: &Vec<ParticipationOffer>) -> (r: Option<GroupFault>)
    ensures
        r == group_fault(offers_view(offers@)),
{
    let ghost views = offers_view(offers@);
    if offers.len() == 0 {
        return Some(GroupFault::Empty);
    }
    let domain = offers[0].domain();
    assert(views[0] == offers@[0]@);
    let mut i: usize = 0;
    while i < offers.len()
        invariant
            i <= offers@.len(),
            offers@.len() > 0,
            views == offers_view(offers@),
            domain@ == domain_of(views[0]),
            forall|k: int| 0 <= k < i ==> domain_of(#[trigger] views[k]) == domain_of(views[0]),
        decreases offers.len() - i,
    {
        assert(views[i as int] == offers@[i as int]@);
        if !offer_domain_matches(&offers[i], &domain) {
            assert(domain_of(views[i as int]) != domain_of(views[0]));
            return Some(GroupFault::CrossesBoundary);
        }
        i += 1;
    }
    let group = list_members(offers);
    if repeats(&group) {
        return Some(GroupFault::RepeatedParticipant);
    }
    let mut n: usize = 0;
    let mut mismatch = false;
    let mut k: usize = 0;
    while k < offers.len()
        invariant
            n <= k <= offers@.len(),
            offers@.len() > 0,
            views == offers_view(offers@),
            domain@ == domain_of(views[0]),
            n == resolvers(views, k as nat),
            mismatch == exists|j: int|
                0 <= j < k && (#[trigger] views[j]).specification.mode is Resolve
                    && views[j].id.participant != views[0].resolver,
        decreases offers.len() - k,
    {
        assert(views[k as int] == offers@[k as int]@);
        if offers[k].specification.is_resolver() {
            n += 1;
            if offers[k].id.participant != domain.resolver {
                mismatch = true;
            }
        }
        k += 1;
    }
    if n != 1 {
        return Some(GroupFault::ResolverCount);
    }
    if mismatch {
        return Some(GroupFault::ResolverMismatch);
    }
    let mut fault: Option<GroupFault> = None;
    let mut m: usize = 0;
    while m < offers.len()
        invariant
            m <= offers@.len(),
            views == offers_view(offers@),
            group@ == members(views),
            fault == member_fault(views, m as nat),
        decreases offers.len() - m,
    {
        assert(views[m as int] == offers@[m as int]@);
        if fault.is_none() {
            if !all_required(&offers[m].specification, &group) {
                fault = Some(GroupFault::MissingRequired);
            } else if !all_exactly_one(&offers[m].specification, &group) {
                fault = Some(GroupFault::ExactlyOne);
            }
        }
        m += 1;
    }
    fault
}

/// What a resolver waits for.
pub enum ResolutionStep {
    /// An offer of this thread.
    Require(ThreadId),
    /// An offer of one of these threads.
    Choose(Vec<ThreadId>),
    /// Nothing: the group is complete.
    Complete,
}

/// Such a step as the contracts see it.
pub enum StepView {
    Require(ThreadId),
    Choose(Seq<ThreadId>),
    Complete,
}

impl View for ResolutionStep {
    type V = StepView;

    open spec fn view(&self) -> StepView {
        match *self {
            ResolutionStep::Require(t) => StepView::Require(t),
            ResolutionStep::Choose(list) => StepView::Choose(list@),
            ResolutionStep::Complete => StepView::Complete,
        }
    }
}

/// Whether more than one of some alternatives of an offer takes part.
pub open spec fn overfull(p: PartView, group: Seq<ThreadId>) -> bool {
    exists|k: int|
        0 <= k < p.exactly_one.len() && count_in(
            #[trigger] p.exactly_one[k],
            group,
            p.exactly_one[k].len(),
        ) > 1
}

/// The first of the first `n` threads of `list` that is not in the group.
pub open spec fn first_outside(list: Seq<ThreadId>, group: Seq<ThreadId>, n: nat) -> Option<
    ThreadId,
>
    decreases n,
{
    if n == 0 {
        None
    } else {
        match first_outside(list, group, (n - 1) as nat) {
            Some(t) => Some(t),
            None => if group.contains(list[n - 1]) {
                None
            } else {
                Some(list[n - 1])
            },
        }
    }
}

/// The first thread that one of the first `n` offers requires and that is missing.
pub open spec fn first_missing(offers: Seq<OfferView>, n: nat) -> Option<ThreadId>
    decreases n,
{
    if n == 0 {
        None
    } else {
        match first_missing(offers, (n - 1) as nat) {
            Some(t) => Some(t),
            None => first_outside(
                offers[n - 1].specification.required,
                members(offers),
                offers[n - 1].specification.required.len(),
            ),
        }
    }
}

/// The first of the first `n` lists of which nobody is in the group.
pub open spec fn first_empty(lists: Seq<Seq<ThreadId>>, group: Seq<ThreadId>, n: nat) -> Option<
    Seq<ThreadId>,
>
    decreases n,
{
    if n == 0 {
        None
    } else {
        match first_empty(lists, group, (n - 1) as nat) {
            Some(l) => Some(l),
            None => if count_in(lists[n - 1], group, lists[n - 1].len()) == 0 {
                Some(lists[n - 1])
            } else {
                None
            },
        }
    }
}

/// The first list of alternatives of the first `n` offers of which nobody takes part.
pub open spec fn first_open(offers: Seq<OfferView>, n: nat) -> Option<Seq<ThreadId>>
    decreases n,
{
    if n == 0 {
        None
    } else {
        match first_open(offers, (n - 1) as nat) {
            Some(l) => Some(l),
            None => first_empty(
                offers[n - 1].specification.exactly_one,
                members(offers),
                offers[n - 1].specification.exactly_one.len(),
            ),
        }
    }
}

/// What the resolver of a group waits for.
pub open spec fn next_step(offers: Seq<OfferView>) -> Result<StepView, GroupFault> {
    if exists|i: int|
        0 <= i < offers.len() && overfull((#[trigger] offers[i]).specification, members(offers)) {
        Err(GroupFault::ExactlyOne)
    } else {
        match first_missing(offers, offers.len()) {
            Some(t) => Ok(StepView::Require(t)),
            None => match first_open(offers, offers.len()) {
                Some(l) => Ok(StepView::Choose(l)),
                None => Ok(StepView::Complete),
            },
        }
    }
}

fn is_overfull(p: &Participants, group: &Vec<ThreadId>) -> (b: bool)
    ensures
        b == overfull(p@, group@),
{
    let lists = p.exactly_one();
    let ghost views = groups_view(lists@);
    let mut i: usize = 0;
    while i < lists.len()
        invariant
            i <= lists@.len(),
            views == groups_view(lists@),
            views == p@.exactly_one,
            forall|k: int|
                0 <= k < i ==> count_in(#[trigger] views[k], group@, views[k].len()) <= 1,
        decreases lists.len() - i,
    {
        assert(views[i as int] == lists@[i as int]@);
        if count_members(&lists[i], group) > 1 {
            assert(count_in(
                p@.exactly_one[i as int],
                group@,
                p@.exactly_one[i as int].len(),
            ) > 1);
            return true;
        }
        i += 1;
    }
    false
}

fn find_outside(list: &Vec<ThreadId>, group: &Vec<ThreadId>) -> (r: Option<ThreadId>)
    ensures
        r == first_outside(list@, group@, list@.len()),
{
    let mut found: Option<ThreadId> = None;
    let mut i: usize = 0;
    while i < list.len()
        invariant
            i <= list@.len(),
            found == first_outside(list@, group@, i as nat),
        decreases list.len() - i,
    {
        if found.is_none() && !thread_in(group, list[i]) {
            found = Some(list[i]);
        }
        i += 1;
    }
    found
}

/// The view of a list of threads, where there is one.
pub open spec fn list_view(l: Option<Vec<ThreadId>>) -> Option<Seq<ThreadId>> {
    match l {
        Some(v) => Some(v@),
        None => None,
    }
}

fn copy_list(list: &Vec<ThreadId>) -> (r: Vec<ThreadId>)
    ensures
        r@ == list@,
{
    let mut r: Vec<ThreadId> = Vec::new();
    let mut i: usize = 0;
    while i < list.len()
        invariant
            i <= list@.len(),
            r@ == list@.take(i as int),
        decreases list.len() - i,
    {
        r.push(list[i]);
        i += 1;
    }
    assert(r@ =~= list@);
    r
}

fn find_empty(lists: &Vec<Vec<ThreadId>>, group: &Vec<ThreadId>) -> (r: Option<Vec<ThreadId>>)
    ensures
        list_view(r) == first_empty(groups_view(lists@), group@, lists@.len()),
{
    let ghost views = groups_view(lists@);
    let mut found: Option<Vec<ThreadId>> = None;
    let mut i: usize = 0;
    while i < lists.len()
        invariant
            i <= lists@.len(),
            views == groups_view(lists@),
            list_view(found) == first_empty(views, group@, i as nat),
        decreases lists.len() - i,
    {
        assert(views[i as int] == lists@[i as int]@);
        if found.is_none() && count_members(&lists[i], group) == 0 {
            found = Some(copy_list(&lists[i]));
        }
        i += 1;
    }
    found
}

/// What the resolver of a group waits for.
pub fn next_resolution_step(selected: &Vec<ParticipationOffer>) -> (r: Result<
    ResolutionStep,
    GroupFault,
>)
    ensures
        match next_step(offers_view(selected@)) {
            Err(f) => r == Err::<ResolutionStep, GroupFault>(f),
            Ok(s) => r matches Ok(step) && step@ == s,
        },
{
    let ghost views = offers_view(selected@);
    let group = list_members(selected);
    let mut i: usize = 0;
    while i < selected.len()
        invariant
            i <= selected@.len(),
            views == offers_view(selected@),
            group@ == members(views),
            forall|k: int|
                0 <= k < i ==> !overfull((#[trigger] views[k]).specification, group@),
        decreases selected.len() - i,
    {
        assert(views[i as int] == selected@[i as int]@);
        if is_overfull(&selected[i].specification, &group) {
            assert(overfull(views[i as int].specification, members(views)));
            return Err(GroupFault::ExactlyOne);
        }
        i += 1;
    }
    let mut missing: Option<ThreadId> = None;
    let mut k: usize = 0;
    while k < selected.len()
        invariant
            k <= selected@.len(),
            views == offers_view(selected@),
            group@ == members(views),
            missing == first_missing(views, k as nat),
        decreases selected.len() - k,
    {
        assert(views[k as int] == selected@[k as int]@);
        if missing.is_none() {
            missing = find_outside(selected[k].specification.required(), &group);
        }
        k += 1;
    }
    match missing {
        Some(t) => return Ok(ResolutionStep::Require(t)),
        None => {},
    }
    let mut open: Option<Vec<ThreadId>> = None;
    let mut m: usize = 0;
    while m < selected.len()
        invariant
            m <= selected@.len(),
            views == offers_view(selected@),
            group@ == members(views),
            list_view(open) == first_open(views, m as nat),
        decreases selected.len() - m,
    {
        assert(views[m as int] == selected@[m as int]@);
        if open.is_none() {
            open = find_empty(selected[m].specification.exactly_one(), &group);
        }
        m += 1;
    }
    match open {
        Some(l) => Ok(ResolutionStep::Choose(l)),
        None => Ok(ResolutionStep::Complete),
    }
}

/// A group that its resolver is forming. The offers are in the order of their threads.
pub struct Resolution {
    selected: Vec<ParticipationOffer>,
}

impl View for Resolution {
    type V = Seq<OfferView>;

    closed spec fn view(&self) -> Seq<OfferView> {
        offers_view(self.selected@)
    }
}

/// Holds of every group that is being formed: the offers ascend by thread, belong to one
/// meeting place, and one of them is from the resolver.
pub open spec fn forming(offers: Seq<OfferView>) -> bool {
    &&& offers.len() > 0
    &&& forall|i: int, j: int|
        0 <= i < j < offers.len() ==> (#[trigger] offers[i]).id.participant.id < (
        #[trigger] offers[j]).id.participant.id
    &&& forall|i: int| 0 <= i < offers.len() ==> domain_of(#[trigger] offers[i]) == domain_of(
        offers[0],
    )
    &&& resolvers(offers, offers.len()) == 1
    &&& forall|i: int|
        0 <= i < offers.len() && (#[trigger] offers[i]).specification.mode is Resolve
            ==> offers[i].id.participant == offers[0].resolver
}

/// How many of the first `n` offers come from lower threads.
pub open spec fn slot(offers: Seq<OfferView>, t: ThreadId, n: nat) -> nat
    decreases n,
{
    if n == 0 {
        0
    } else {
        slot(offers, t, (n - 1) as nat) + (if offers[n - 1].id.participant.id < t.id {
            1nat
        } else {
            0nat
        })
    }
}

/// Whether an offer of `t` is waited for.
pub open spec fn waited_for(step: StepView, offers: Seq<OfferView>, t: ThreadId) -> bool {
    match step {
        StepView::Require(r) => t == r,
        StepView::Choose(list) => list.contains(t) && !members(offers).contains(t),
        StepView::Complete => false,
    }
}

/// Why an offer is not taken into the group.
pub open spec fn offer_fault(offers: Seq<OfferView>, o: OfferView) -> Option<GroupFault> {
    match next_step(offers) {
        Err(f) => Some(f),
        Ok(StepView::Complete) => Some(GroupFault::NotWaiting),
        Ok(step) => if !waited_for(step, offers, o.id.participant) {
            Some(GroupFault::WrongSender)
        } else if domain_of(o) != domain_of(offers[0]) {
            Some(GroupFault::CrossesBoundary)
        } else if o.specification.mode is Resolve {
            Some(GroupFault::ResolverCount)
        } else if members(offers).contains(o.id.participant) {
            Some(GroupFault::RepeatedParticipant)
        } else {
            None
        },
    }
}

/// A group with one more offer, in its place.
pub open spec fn with_offer(offers: Seq<OfferView>, o: OfferView) -> Seq<OfferView> {
    offers.insert(slot(offers, o.id.participant, offers.len()) as int, o)
}

proof fn lemma_slot(offers: Seq<OfferView>, t: ThreadId, at: nat, n: nat)
    requires
        at <= n <= offers.len(),
        forall|k: int| 0 <= k < at ==> (#[trigger] offers[k]).id.participant.id < t.id,
        forall|k: int| at <= k < n ==> (#[trigger] offers[k]).id.participant.id >= t.id,
    ensures
        slot(offers, t, n) == at,
    decreases n,
{
    if n > 0 {
        if at == n {
            lemma_slot(offers, t, (n - 1) as nat, (n - 1) as nat);
        } else {
            lemma_slot(offers, t, at, (n - 1) as nat);
        }
    }
}

proof fn lemma_resolvers_insert(offers: Seq<OfferView>, at: int, o: OfferView, n: nat)
    requires
        0 <= at <= offers.len(),
        n <= offers.len(),
        !(o.specification.mode is Resolve),
    ensures
        n <= at ==> resolvers(offers.insert(at, o), n) == resolvers(offers, n),
        n >= at ==> resolvers(offers.insert(at, o), n + 1) == resolvers(offers, n),
    decreases n,
{
    let all = offers.insert(at, o);
    if n > 0 {
        lemma_resolvers_insert(offers, at, o, (n - 1) as nat);
        if n <= at {
            assert(all[n - 1] == offers[n - 1]);
        }
        if n > at {
            assert(all[n as int] == offers[n - 1]);
        } else if n == at {
            assert(all[n as int] == o);
            assert(resolvers(all, n + 1) == resolvers(all, n));
        }
    } else if at == 0 {
        assert(all[0] == o);
        assert(resolvers(all, 1) == resolvers(all, 0));
    }
}

/// A group that is being formed stays one when an offer is taken in.
pub proof fn law_offers_keep_the_group_forming(offers: Seq<OfferView>, o: OfferView)
    requires
        forming(offers),
        offer_fault(offers, o) is None,
    ensures
        forming(with_offer(offers, o)),
{
    let t = o.id.participant;
    lemma_slot_exists(offers, t, offers.len());
    let at = slot(offers, t, offers.len()) as int;
    let all = with_offer(offers, o);
    assert(!members(offers).contains(t));
    assert forall|k: int| 0 <= k < offers.len() implies (#[trigger] offers[k]).id.participant
        != t by {
        assert(members(offers)[k] == offers[k].id.participant);
    }
    assert forall|i: int, j: int| 0 <= i < j < all.len() implies (
    #[trigger] all[i]).id.participant.id < (#[trigger] all[j]).id.participant.id by {
        let x = if i < at {
            i
        } else {
            i - 1
        };
        let y = if j < at {
            j
        } else {
            j - 1
        };
        if i != at {
            assert(all[i] == offers[x]);
        }
        if j != at {
            assert(all[j] == offers[y]);
        }
        if i != at && j != at {
            assert(offers[x].id.participant.id < offers[y].id.participant.id);
        }
    }
    assert forall|i: int| 0 <= i < all.len() implies domain_of(#[trigger] all[i]) == domain_of(
        offers[0],
    ) by {
        if i < at {
            assert(all[i] == offers[i]);
        } else if i > at {
            assert(all[i] == offers[i - 1]);
        }
    }
    assert(domain_of(all[0]) == domain_of(offers[0]));
    lemma_resolvers_insert(offers, at, o, offers.len());
    assert forall|i: int|
        0 <= i < all.len() && (#[trigger] all[i]).specification.mode is Resolve implies
        all[i].id.participant == all[0].resolver by {
        if i < at {
            assert(all[i] == offers[i]);
        } else if i > at {
            assert(all[i] == offers[i - 1]);
        }
        assert(domain_of(all[0]).resolver == all[0].resolver);
        assert(domain_of(offers[0]).resolver == offers[0].resolver);
    }
}

proof fn lemma_slot_exists(offers: Seq<OfferView>, t: ThreadId, n: nat)
    requires
        n <= offers.len(),
        forall|i: int, j: int|
            0 <= i < j < offers.len() ==> (#[trigger] offers[i]).id.participant.id < (
            #[trigger] offers[j]).id.participant.id,
    ensures
        slot(offers, t, n) <= n,
        forall|k: int|
            0 <= k < slot(offers, t, n) ==> (#[trigger] offers[k]).id.participant.id < t.id,
        forall|k: int|
            slot(offers, t, n) <= k < n ==> (#[trigger] offers[k]).id.participant.id >= t.id,
    decreases n,
{
    if n > 0 {
        lemma_slot_exists(offers, t, (n - 1) as nat);
        let s = slot(offers, t, (n - 1) as nat) as int;
        if offers[n - 1].id.participant.id < t.id && s < n - 1 {
            assert(offers[s].id.participant.id < offers[n - 1].id.participant.id);
        }
    }
}

proof fn lemma_nothing_missing(offers: Seq<OfferView>, n: nat)
    requires
        n <= offers.len(),
        first_missing(offers, n) is None,
        first_open(offers, n) is None,
        forall|i: int|
            0 <= i < offers.len() ==> !overfull(
                (#[trigger] offers[i]).specification,
                members(offers),
            ),
    ensures
        member_fault(offers, n) is None,
    decreases n,
{
    if n > 0 {
        lemma_nothing_missing(offers, (n - 1) as nat);
        let p = offers[n - 1].specification;
        let group = members(offers);
        lemma_none_outside(p.required, group, p.required.len());
        lemma_none_empty(p.exactly_one, group, p.exactly_one.len());
        assert(!overfull(p, group));
        assert forall|k: int| 0 <= k < p.exactly_one.len() implies count_in(
            #[trigger] p.exactly_one[k],
            group,
            p.exactly_one[k].len(),
        ) == 1 by {}
    }
}

proof fn lemma_none_outside(list: Seq<ThreadId>, group: Seq<ThreadId>, n: nat)
    requires
        n <= list.len(),
        first_outside(list, group, n) is None,
    ensures
        forall|k: int| 0 <= k < n ==> group.contains(#[trigger] list[k]),
    decreases n,
{
    if n > 0 {
        lemma_none_outside(list, group, (n - 1) as nat);
    }
}

proof fn lemma_none_empty(lists: Seq<Seq<ThreadId>>, group: Seq<ThreadId>, n: nat)
    requires
        n <= lists.len(),
        first_empty(lists, group, n) is None,
    ensures
        forall|k: int|
            0 <= k < n ==> count_in(#[trigger] lists[k], group, lists[k].len()) > 0,
    decreases n,
{
    if n > 0 {
        lemma_none_empty(lists, group, (n - 1) as nat);
    }
}

/// A group for which nothing is waited is closed: nothing is wrong with it.
pub proof fn law_complete_groups_are_closed(offers: Seq<OfferView>)
    requires
        forming(offers),
        next_step(offers) == Ok::<StepView, GroupFault>(StepView::Complete),
    ensures
        group_fault(offers) is None,
{
    lemma_nothing_missing(offers, offers.len());
    assert(members(offers).no_duplicates()) by {
        assert forall|i: int, j: int|
            0 <= i < members(offers).len() && 0 <= j < members(offers).len() && i
                != j implies members(offers)[i] != members(offers)[j] by {
            if i < j {
                assert(offers[i].id.participant.id < offers[j].id.participant.id);
            } else {
                assert(offers[j].id.participant.id < offers[i].id.participant.id);
            }
        }
    }
}

impl Resolution {
    /// Begins a group with the offer of its resolver.
    pub fn start(root: ParticipationOffer) -> (r: Result<Self, GroupFault>)
        ensures
            match r {
                Err(GroupFault::NotResolver) => !(root@.specification.mode is Resolve),
                Err(f) => f == GroupFault::ResolverMismatch && root@.specification.mode is Resolve
                    && root@.id.participant != root@.resolver,
                Ok(s) => root@.specification.mode is Resolve && root@.id.participant
                    == root@.resolver && s@ == seq![root@] && forming(s@),
            },
    {
        if !root.specification.is_resolver() {
            return Err(GroupFault::NotResolver);
        }
        if root.id.participant != root.resolver {
            return Err(GroupFault::ResolverMismatch);
        }
        let ghost view = root@;
        let mut selected: Vec<ParticipationOffer> = Vec::new();
        selected.push(root);
        let s = Resolution { selected };
        proof {
            assert(s@ =~= seq![view]);
            assert(resolvers(s@, 0) == 0);
            assert(resolvers(s@, 1) == 1);
        }
        Ok(s)
    }

    /// What is waited for.
    pub fn step(&self) -> (r: Result<ResolutionStep, GroupFault>)
        ensures
            match next_step(self@) {
                Err(f) => r == Err::<ResolutionStep, GroupFault>(f),
                Ok(s) => r matches Ok(step) && step@ == s,
            },
    {
        next_resolution_step(&self.selected)
    }

    /// Takes an offer into the group.
    pub fn accept(&mut self, offer: ParticipationOffer) -> (r: Option<GroupFault>)
        requires
            forming(old(self)@),
        ensures
            r == offer_fault(old(self)@, offer@),
            final(self)@ == (if r is None {
                with_offer(old(self)@, offer@)
            } else {
                old(self)@
            }),
            forming(final(self)@),
    {
        let ghost views = self@;
        let t = offer.id.participant;
        let group = list_members(&self.selected);
        let expected = match next_resolution_step(&self.selected) {
            Err(f) => return Some(f),
            Ok(ResolutionStep::Complete) => return Some(GroupFault::NotWaiting),
            Ok(ResolutionStep::Require(required)) => t == required,
            Ok(ResolutionStep::Choose(list)) => thread_in(&list, t) && !thread_in(&group, t),
        };
        if !expected {
            return Some(GroupFault::WrongSender);
        }
        assert(views[0] == self.selected@[0]@);
        let domain = self.selected[0].domain();
        if !offer_domain_matches(&offer, &domain) {
            return Some(GroupFault::CrossesBoundary);
        }
        if offer.specification.is_resolver() {
            return Some(GroupFault::ResolverCount);
        }
        if thread_in(&group, t) {
            return Some(GroupFault::RepeatedParticipant);
        }
        let mut at: usize = 0;
        while at < self.selected.len() && self.selected[at].id.participant.id < t.id
            invariant
                at <= self.selected@.len(),
                views == offers_view(self.selected@),
                forming(views),
                forall|k: int| 0 <= k < at ==> (#[trigger] views[k]).id.participant.id < t.id,
            decreases self.selected.len() - at,
        {
            assert(views[at as int] == self.selected@[at as int]@);
            at += 1;
        }
        proof {
            assert forall|k: int| at <= k < views.len() implies (
            #[trigger] views[k]).id.participant.id >= t.id by {
                assert(views[at as int] == self.selected@[at as int]@);
                if k > at {
                    assert(views[at as int].id.participant.id < views[k].id.participant.id);
                }
            }
            lemma_slot(views, t, at as nat, views.len());
            law_offers_keep_the_group_forming(views, offer@);
        }
        let ghost view = offer@;
        self.selected.insert(at, offer);
        assert(self@ =~= with_offer(views, view));
        None
    }

    /// The complete group.
    pub fn finish(self) -> (r: Result<Vec<ParticipationOffer>, GroupFault>)
        ensures
            match group_fault(self@) {
                Some(f) => r == Err::<Vec<ParticipationOffer>, GroupFault>(f),
                None => r matches Ok(offers) && offers_view(offers@) == self@,
            },
    {
        match check_group(&self.selected) {
            Some(f) => Err(f),
            None => Ok(self.selected),
        }
    }
}

} // verus!
