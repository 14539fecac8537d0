//! Values of summaries, up to a renaming of the participants.

use super::value::{
    lemma_node, same_shape, trees_view, SummarizableVal, SummaryTree, TreeView,
};
use crate::event::ThreadId;
use crate::layout::{bump, bumped};
use crate::symbolic::expr::{
    all_allowed, rewritten, sort_of, ExprView, SortView, SymExpr, SymSort, SymVarId, SymVarKind,
    VarImage, VarRewrite,
};
use vstd::prelude::*;
use vstd::string::*;

verus! {

/// A bijection from the participants of a call to those of a stored summary.
pub struct ParticipantBijection {
    pairs: Vec<(ThreadId, ThreadId)>,
}

impl View for ParticipantBijection {
    type V = Seq<(ThreadId, ThreadId)>;

    closed spec fn view(&self) -> Seq<(ThreadId, ThreadId)> {
        self.pairs@
    }
}

/// Whether no thread occurs twice on one side.
pub open spec fn one_to_one(pairs: Seq<(ThreadId, ThreadId)>) -> bool {
    forall|i: int, j: int|
        0 <= i < j < pairs.len() ==> (#[trigger] pairs[i]).0 != (#[trigger] pairs[j]).0
            && pairs[i].1 != pairs[j].1
}

/// The thread of the summary that one of the first `n` pairs gives for `actual`.
pub open spec fn stored_for(
    pairs: Seq<(ThreadId, ThreadId)>,
    actual: ThreadId,
    n: nat,
) -> Option<ThreadId>
    decreases n,
{
    if n == 0 {
        None
    } else {
        match stored_for(pairs, actual, (n - 1) as nat) {
            Some(t) => Some(t),
            None => if pairs[n - 1].0 == actual {
                Some(pairs[n - 1].1)
            } else {
                None
            },
        }
    }
}

/// The thread of the call that one of the first `n` pairs gives for `stored`.
pub open spec fn actual_for(
    pairs: Seq<(ThreadId, ThreadId)>,
    stored: ThreadId,
    n: nat,
) -> Option<ThreadId>
    decreases n,
{
    if n == 0 {
        None
    } else {
        match actual_for(pairs, stored, (n - 1) as nat) {
            Some(t) => Some(t),
            None => if pairs[n - 1].1 == stored {
                Some(pairs[n - 1].0)
            } else {
                None
            },
        }
    }
}

/// Whether a thread of a call corresponds to one of a summary. Threads that take no part
/// correspond to themselves.
pub open spec fn ids_match(
    pairs: Seq<(ThreadId, ThreadId)>,
    actual: ThreadId,
    stored: ThreadId,
) -> bool {
    match stored_for(pairs, actual, pairs.len()) {
        Some(t) => t == stored,
        None => actual_for(pairs, stored, pairs.len()) is None && actual == stored,
    }
}

/// The thread of a call that a thread of a summary stands for.
pub open spec fn renamed(pairs: Seq<(ThreadId, ThreadId)>, stored: ThreadId) -> ThreadId {
    match actual_for(pairs, stored, pairs.len()) {
        Some(t) => t,
        None => stored,
    }
}

proof fn lemma_stored_for(pairs: Seq<(ThreadId, ThreadId)>, actual: ThreadId, n: nat)
    requires
        n <= pairs.len(),
    ensures
        stored_for(pairs, actual, n) matches Some(t) ==> exists|i: int|
            0 <= i < n && #[trigger] pairs[i] == (actual, t),
        stored_for(pairs, actual, n) is None ==> forall|i: int|
            0 <= i < n ==> (#[trigger] pairs[i]).0 != actual,
    decreases n,
{
    if n > 0 {
        lemma_stored_for(pairs, actual, (n - 1) as nat);
        assert(pairs[n - 1] == (pairs[n - 1].0, pairs[n - 1].1));
    }
}

proof fn lemma_actual_for(pairs: Seq<(ThreadId, ThreadId)>, stored: ThreadId, n: nat)
    requires
        n <= pairs.len(),
    ensures
        actual_for(pairs, stored, n) matches Some(t) ==> exists|i: int|
            0 <= i < n && #[trigger] pairs[i] == (t, stored),
        actual_for(pairs, stored, n) is None ==> forall|i: int|
            0 <= i < n ==> (#[trigger] pairs[i]).1 != stored,
    decreases n,
{
    if n > 0 {
        lemma_actual_for(pairs, stored, (n - 1) as nat);
        assert(pairs[n - 1] == (pairs[n - 1].0, pairs[n - 1].1));
    }
}

/// A thread of a summary that matches a thread of the call is renamed to that thread.
pub proof fn law_renaming_inverts_matching(
    pairs: Seq<(ThreadId, ThreadId)>,
    actual: ThreadId,
    stored: ThreadId,
)
    requires
        one_to_one(pairs),
        ids_match(pairs, actual, stored),
    ensures
        renamed(pairs, stored) == actual,
{
    lemma_stored_for(pairs, actual, pairs.len());
    lemma_actual_for(pairs, stored, pairs.len());
    if stored_for(pairs, actual, pairs.len()) is Some {
        let i = choose|i: int| 0 <= i < pairs.len() && #[trigger] pairs[i] == (actual, stored);
        if let Some(t) = actual_for(pairs, stored, pairs.len()) {
            let j = choose|j: int| 0 <= j < pairs.len() && #[trigger] pairs[j] == (t, stored);
            if i < j {
                assert(pairs[i].1 != pairs[j].1);
            }
            if j < i {
                assert(pairs[j].1 != pairs[i].1);
            }
        } else {
            assert(pairs[i].1 != stored);
        }
    }
}

impl ParticipantBijection {
    /// The bijection that consists of the given pairs.
    pub fn from_pairs(pairs: Vec<(ThreadId, ThreadId)>) -> (b: Self)
        requires
            one_to_one(pairs@),
        ensures
            b@ == pairs@,
    {
        ParticipantBijection { pairs }
    }

    pub fn len(&self) -> (n: usize)
        ensures
            n == self@.len(),
    {
        self.pairs.len()
    }

    pub fn copy(&self) -> (b: Self)
        ensures
            b@ == self@,
    {
        let mut pairs: Vec<(ThreadId, ThreadId)> = Vec::new();
        let mut i: usize = 0;
        while i < self.pairs.len()
            invariant
                i <= self.pairs@.len(),
                pairs@ == self.pairs@.take(i as int),
            decreases self.pairs.len() - i,
        {
            pairs.push(self.pairs[i]);
            i += 1;
        }
        assert(pairs@ =~= self.pairs@);
        ParticipantBijection { pairs }
    }

    /// The thread of the summary that corresponds to a participant of the call.
    pub fn representative_for(&self, actual: ThreadId) -> (r: Option<ThreadId>)
        ensures
            r == stored_for(self@, actual, self@.len()),
    {
        let mut found: Option<ThreadId> = None;
        let mut i: usize = 0;
        while i < self.pairs.len()
            invariant
                i <= self.pairs@.len(),
                found == stored_for(self.pairs@, actual, i as nat),
            decreases self.pairs.len() - i,
        {
            if found.is_none() && self.pairs[i].0 == actual {
                found = Some(self.pairs[i].1);
            }
            i += 1;
        }
        found
    }

    fn actual(&self, stored: ThreadId) -> (r: Option<ThreadId>)
        ensures
            r == actual_for(self@, stored, self@.len()),
    {
        let mut found: Option<ThreadId> = None;
        let mut i: usize = 0;
        while i < self.pairs.len()
            invariant
                i <= self.pairs@.len(),
                found == actual_for(self.pairs@, stored, i as nat),
            decreases self.pairs.len() - i,
        {
            if found.is_none() && self.pairs[i].1 == stored {
                found = Some(self.pairs[i].0);
            }
            i += 1;
        }
        found
    }

    /// Compares threads, where those of participants are bound names.
    pub fn input_ids_match(&self, actual: ThreadId, representative: ThreadId) -> (b: bool)
        ensures
            b == ids_match(self@, actual, representative),
    {
        match self.representative_for(actual) {
            Some(t) => t == representative,
            None => self.actual(representative).is_none() && actual == representative,
        }
    }

    /// Renames a thread of the summary to the participant that it stands for.
    pub fn instantiate_id(&self, representative: ThreadId) -> (t: ThreadId)
        ensures
            t == renamed(self@, representative),
    {
        match self.actual(representative) {
            Some(t) => t,
            None => representative,
        }
    }
}

/// What symbolic variables stand for.
pub struct Bindings {
    entries: Vec<(SymVarId, SymExpr)>,
}

/// The map that a list of bindings stands for: the last one for a variable counts.
pub open spec fn bindings_map(entries: Seq<(SymVarId, SymExpr)>) -> Map<SymVarId, ExprView>
    decreases entries.len(),
{
    if entries.len() == 0 {
        Map::empty()
    } else {
        bindings_map(entries.drop_last()).insert(entries.last().0, entries.last().1@)
    }
}

impl View for Bindings {
    type V = Map<SymVarId, ExprView>;

    closed spec fn view(&self) -> Map<SymVarId, ExprView> {
        bindings_map(self.entries@)
    }
}

impl Bindings {
    pub fn new() -> (b: Self)
        ensures
            b@ == Map::<SymVarId, ExprView>::empty(),
    {
        Bindings { entries: Vec::new() }
    }

    pub fn insert(&mut self, id: SymVarId, e: SymExpr)
        ensures
            final(self)@ == old(self)@.insert(id, e@),
    {
        let ghost before = self.entries@;
        self.entries.push((id, e));
        assert(self.entries@.drop_last() =~= before);
    }

    pub fn get(&self, id: SymVarId) -> (r: Option<&SymExpr>)
        ensures
            r is Some == self@.contains_key(id),
            r matches Some(e) ==> e@ == self@[id],
    {
        let mut i: usize = self.entries.len();
        let ghost all = self.entries@;
        assert(all.take(i as int) =~= all);
        while i > 0
            invariant
                i <= self.entries@.len(),
                self.entries@ == all,
                bindings_map(all).contains_key(id) == bindings_map(
                    all.take(i as int),
                ).contains_key(id),
                bindings_map(all)[id] == bindings_map(all.take(i as int))[id],
            decreases i,
        {
            assert(all.take(i as int).drop_last() =~= all.take(i - 1));
            if self.entries[i - 1].0 == id {
                return Some(&self.entries[i - 1].1);
            }
            i -= 1;
        }
        None
    }
}

/// Replaces symbolic expressions by the inputs of a summary.
pub struct InputAbstraction {
    next_symbolic_input: usize,
}

impl View for InputAbstraction {
    type V = usize;

    closed spec fn view(&self) -> usize {
        self.next_symbolic_input
    }
}

/// The input that takes the place of an expression.
pub open spec fn input_var(index: usize, sort: SortView) -> ExprView {
    ExprView::Var { id: SymVarId(SymVarKind::SummaryInput(index)), sort }
}

/// A tree with its symbolic expressions numbered from `next` on as inputs, and the number
/// after them.
pub open spec fn abstracted(t: TreeView, next: usize) -> (TreeView, usize)
    decreases t, 0nat,
{
    match t {
        TreeView::Sym(e) => (TreeView::Sym(input_var(next, sort_of(e))), bumped(next)),
        TreeView::Node(k, fields) => {
            let r = abstracted_fields(fields, next, fields.len());
            (TreeView::Node(k, r.0), r.1)
        },
        _ => (t, next),
    }
}

/// The first `n` fields of a tree with their symbolic expressions numbered.
pub open spec fn abstracted_fields(fields: Seq<TreeView>, next: usize, n: nat) -> (
    Seq<TreeView>,
    usize,
)
    decreases fields, n,
{
    if n == 0 || n > fields.len() {
        (Seq::empty(), next)
    } else {
        let before = abstracted_fields(fields, next, (n - 1) as nat);
        let last = abstracted(fields[n - 1], before.1);
        (before.0.push(last.0), last.1)
    }
}

/// What the comparison with stored inputs knows.
#[verifier::ext_equal]
pub struct MatchView {
    pub pairs: Seq<(ThreadId, ThreadId)>,
    /// What the inputs of the summary stand for.
    pub inputs: Map<SymVarId, ExprView>,
}

/// Compares the inputs of a call with those of a stored summary.
pub struct MatchContext {
    participants: ParticipantBijection,
    symbolic_inputs: Bindings,
}

impl View for MatchContext {
    type V = MatchView;

    closed spec fn view(&self) -> MatchView {
        MatchView { pairs: self.participants@, inputs: self.symbolic_inputs@ }
    }
}

/// Compares an expression with an input of a summary: the input stands for the first
/// expression that it is compared with.
pub open spec fn matched_sym(actual: ExprView, stored: ExprView, c: MatchView) -> (
    bool,
    MatchView,
) {
    match stored {
        ExprView::Var { id, sort } => if !(id.0 is SummaryInput) || sort_of(actual) != sort {
            (false, c)
        } else if c.inputs.contains_key(id) {
            (c.inputs[id] == actual, c)
        } else {
            (true, MatchView { inputs: c.inputs.insert(id, actual), ..c })
        },
        _ => (false, c),
    }
}

/// Compares a value of a call with one of a stored summary.
pub open spec fn matched(actual: TreeView, stored: TreeView, c: MatchView) -> (bool, MatchView)
    decreases actual, 0nat,
{
    match (actual, stored) {
        (TreeView::Thread(a), TreeView::Thread(s)) => (ids_match(c.pairs, a, s), c),
        (TreeView::Sym(a), TreeView::Sym(s)) => matched_sym(a, s, c),
        (TreeView::Node(k, xs), TreeView::Node(l, ys)) => if k != l || xs.len() != ys.len() {
            (false, c)
        } else {
            matched_fields(xs, ys, c, xs.len())
        },
        _ => (actual == stored, c),
    }
}

/// Compares the first `n` fields, up to the first that do not match.
pub open spec fn matched_fields(
    xs: Seq<TreeView>,
    ys: Seq<TreeView>,
    c: MatchView,
    n: nat,
) -> (bool, MatchView)
    decreases xs, n,
{
    if n == 0 || n > xs.len() {
        (true, c)
    } else {
        let before = matched_fields(xs, ys, c, (n - 1) as nat);
        if before.0 {
            matched(xs[n - 1], ys[n - 1], before.1)
        } else {
            before
        }
    }
}

/// What the values of a summary are instantiated with.
#[verifier::ext_equal]
pub struct InstView {
    pub pairs: Seq<(ThreadId, ThreadId)>,
    pub values: Map<SymVarId, ExprView>,
    pub allow_unbound_locals: bool,
    pub allow_execution_values: bool,
    pub allow_unbound_inputs: bool,
}

impl VarImage for InstView {
    open spec fn image(&self, id: SymVarId, sort: SortView) -> ExprView {
        if self.values.contains_key(id) {
            self.values[id]
        } else {
            ExprView::Var { id, sort }
        }
    }

    open spec fn allows(&self, id: SymVarId, sort: SortView) -> bool {
        self.values.contains_key(id) || (match id.0 {
            SymVarKind::SummaryInput(_) => self.allow_unbound_inputs,
            SymVarKind::SummaryLocal(_) => self.allow_unbound_locals,
            SymVarKind::Execution(_) => self.allow_execution_values,
        })
    }
}

/// Instantiates the values of a summary.
pub struct InstantiationContext {
    participants: ParticipantBijection,
    symbolic_values: Bindings,
    allow_unbound_locals: bool,
    allow_execution_values: bool,
    allow_unbound_inputs: bool,
}

impl View for InstantiationContext {
    type V = InstView;

    closed spec fn view(&self) -> InstView {
        InstView {
            pairs: self.participants@,
            values: self.symbolic_values@,
            allow_unbound_locals: self.allow_unbound_locals,
            allow_execution_values: self.allow_execution_values,
            allow_unbound_inputs: self.allow_unbound_inputs,
        }
    }
}

/// A value of a summary, for the call at hand; none where a variable has nothing to stand
/// for.
pub open spec fn instantiated(t: TreeView, c: InstView) -> Option<TreeView>
    decreases t,
{
    match t {
        TreeView::Thread(s) => Some(TreeView::Thread(renamed(c.pairs, s))),
        TreeView::Sym(e) => if all_allowed(e, c) {
            Some(TreeView::Sym(rewritten(e, c)))
        } else {
            None
        },
        TreeView::Node(k, fields) => if forall|i: int|
            0 <= i < fields.len() ==> instantiated(#[trigger] fields[i], c) is Some {
            Some(
                TreeView::Node(
                    k,
                    Seq::new(
                        fields.len(),
                        |i: int|
                            if 0 <= i < fields.len() {
                                instantiated(fields[i], c)->0
                            } else {
                                arbitrary()
                            },
                    ),
                ),
            )
        } else {
            None
        },
        _ => Some(t),
    }
}

/// The locals that take the place of execution variables in a summary.
pub struct NormView {
    pub locals: Map<SymVarId, ExprView>,
}

impl VarImage for NormView {
    open spec fn image(&self, id: SymVarId, sort: SortView) -> ExprView {
        if id.0 is SummaryInput || !self.locals.contains_key(id) {
            ExprView::Var { id, sort }
        } else {
            self.locals[id]
        }
    }

    open spec fn allows(&self, id: SymVarId, sort: SortView) -> bool {
        id.0 is SummaryInput || self.locals.contains_key(id)
    }
}

/// Turns what a call returned into the outputs of a summary.
pub struct OutputNormalization {
    symbolic_locals: Bindings,
}

impl View for OutputNormalization {
    type V = NormView;

    closed spec fn view(&self) -> NormView {
        NormView { locals: self.symbolic_locals@ }
    }
}

/// A value as a summary stores it; none where it depends on a variable that is neither an
/// input nor a local of the summary.
pub open spec fn normalized(t: TreeView, c: NormView) -> Option<TreeView>
    decreases t,
{
    match t {
        TreeView::Sym(e) => if all_allowed(e, c) {
            Some(TreeView::Sym(rewritten(e, c)))
        } else {
            None
        },
        TreeView::Node(k, fields) => if forall|i: int|
            0 <= i < fields.len() ==> normalized(#[trigger] fields[i], c) is Some {
            Some(
                TreeView::Node(
                    k,
                    Seq::new(
                        fields.len(),
                        |i: int|
                            if 0 <= i < fields.len() {
                                normalized(fields[i], c)->0
                            } else {
                                arbitrary()
                            },
                    ),
                ),
            )
        } else {
            None
        },
        _ => Some(t),
    }
}

/// Abstraction changes symbolic expressions only.
pub proof fn law_abstraction_keeps_the_shape(t: TreeView, next: usize)
    ensures
        same_shape(t, abstracted(t, next).0),
    decreases t, 0nat,
{
    if let TreeView::Node(k, fields) = t {
        lemma_fields_keep_their_shape(fields, next, fields.len());
    }
}

proof fn lemma_fields_keep_their_shape(fields: Seq<TreeView>, next: usize, n: nat)
    requires
        n <= fields.len(),
    ensures
        abstracted_fields(fields, next, n).0.len() == n,
        forall|i: int|
            0 <= i < n ==> same_shape(
                #[trigger] fields[i],
                abstracted_fields(fields, next, n).0[i],
            ),
    decreases fields, n,
{
    if n > 0 {
        let before = abstracted_fields(fields, next, (n - 1) as nat);
        lemma_fields_keep_their_shape(fields, next, (n - 1) as nat);
        law_abstraction_keeps_the_shape(fields[n - 1], before.1);
        let all = abstracted_fields(fields, next, n).0;
        assert forall|i: int| 0 <= i < n implies same_shape(#[trigger] fields[i], all[i]) by {
            if i < n - 1 {
                assert(all[i] == before.0[i]);
            }
        }
    }
}

/// Instantiation changes threads and symbolic expressions only.
pub proof fn law_instantiation_keeps_the_shape(t: TreeView, c: InstView)
    ensures
        instantiated(t, c) matches Some(r) ==> same_shape(t, r),
    decreases t,
{
    if let TreeView::Node(k, fields) = t {
        if let Some(r) = instantiated(t, c) {
            assert forall|i: int| 0 <= i < fields.len() implies same_shape(
                #[trigger] fields[i],
                r->Node_1[i],
            ) by {
                law_instantiation_keeps_the_shape(fields[i], c);
            }
        }
    }
}

/// Normalization changes symbolic expressions only.
pub proof fn law_normalization_keeps_the_shape(t: TreeView, c: NormView)
    ensures
        normalized(t, c) matches Some(r) ==> same_shape(t, r),
    decreases t,
{
    if let TreeView::Node(k, fields) = t {
        if let Some(r) = normalized(t, c) {
            assert forall|i: int| 0 <= i < fields.len() implies same_shape(
                #[trigger] fields[i],
                r->Node_1[i],
            ) by {
                law_normalization_keeps_the_shape(fields[i], c);
            }
        }
    }
}

/// A comparison keeps the participants and what the inputs are known to stand for.
pub proof fn law_matching_forgets_nothing(actual: TreeView, stored: TreeView, c: MatchView)
    ensures
        matched(actual, stored, c).1.pairs == c.pairs,
        c.inputs.submap_of(matched(actual, stored, c).1.inputs),
    decreases actual, 0nat,
{
    if let (TreeView::Node(k, xs), TreeView::Node(l, ys)) = (actual, stored) {
        lemma_fields_forget_nothing(xs, ys, c, xs.len());
    }
}

proof fn lemma_fields_forget_nothing(
    xs: Seq<TreeView>,
    ys: Seq<TreeView>,
    c: MatchView,
    n: nat,
)
    requires
        n <= xs.len(),
    ensures
        matched_fields(xs, ys, c, n).1.pairs == c.pairs,
        c.inputs.submap_of(matched_fields(xs, ys, c, n).1.inputs),
    decreases xs, n,
{
    if n > 0 {
        lemma_fields_forget_nothing(xs, ys, c, (n - 1) as nat);
        let before = matched_fields(xs, ys, c, (n - 1) as nat);
        law_matching_forgets_nothing(xs[n - 1], ys[n - 1], before.1);
        lemma_submaps(c.inputs, before.1.inputs, matched_fields(xs, ys, c, n).1.inputs);
    }
}

/// A part of a part is a part.
pub proof fn lemma_submaps(
    a: Map<SymVarId, ExprView>,
    b: Map<SymVarId, ExprView>,
    c: Map<SymVarId, ExprView>,
)
    requires
        a.submap_of(b),
        b.submap_of(c),
    ensures
        a.submap_of(c),
{
    assert forall|id: SymVarId| #[trigger] a.dom().contains(id) implies c.dom().contains(id)
        && a[id] == c[id] by {
        assert(b.dom().contains(id));
    }
}

/// Where a value of the call matches one of the summary, instantiating the latter with
/// what the comparison found gives the former.
pub proof fn law_instantiation_inverts_matching(
    actual: TreeView,
    stored: TreeView,
    c: MatchView,
    found: MatchView,
)
    requires
        one_to_one(c.pairs),
        matched(actual, stored, c).0,
        found.pairs == c.pairs,
        matched(actual, stored, c).1.inputs.submap_of(found.inputs),
    ensures
        instantiated(stored, inst_after(found)) == Some(actual),
    decreases actual, 0nat,
{
    match (actual, stored) {
        (TreeView::Thread(a), TreeView::Thread(s)) => {
            law_renaming_inverts_matching(c.pairs, a, s);
        },
        (TreeView::Sym(a), TreeView::Sym(s)) => {
            let id = s->Var_id;
            assert(matched(actual, stored, c).1.inputs.contains_key(id));
            assert(found.inputs.contains_key(id) && found.inputs[id] == a);
        },
        (TreeView::Node(k, xs), TreeView::Node(l, ys)) => {
            lemma_fields_invert_matching(xs, ys, c, found, xs.len());
            let r = instantiated(stored, inst_after(found));
            assert(r is Some);
            assert(r->0->Node_1 =~= xs);
        },
        _ => {},
    }
}

proof fn lemma_fields_invert_matching(
    xs: Seq<TreeView>,
    ys: Seq<TreeView>,
    c: MatchView,
    found: MatchView,
    n: nat,
)
    requires
        n <= xs.len() == ys.len(),
        one_to_one(c.pairs),
        matched_fields(xs, ys, c, n).0,
        found.pairs == c.pairs,
        matched_fields(xs, ys, c, n).1.inputs.submap_of(found.inputs),
    ensures
        forall|i: int|
            0 <= i < n ==> instantiated(#[trigger] ys[i], inst_after(found)) == Some(xs[i]),
    decreases xs, n,
{
    if n > 0 {
        let before = matched_fields(xs, ys, c, (n - 1) as nat);
        lemma_fields_forget_nothing(xs, ys, c, (n - 1) as nat);
        law_matching_forgets_nothing(xs[n - 1], ys[n - 1], before.1);
        lemma_submaps(before.1.inputs, matched_fields(xs, ys, c, n).1.inputs, found.inputs);
        lemma_fields_invert_matching(xs, ys, c, found, (n - 1) as nat);
        law_instantiation_inverts_matching(xs[n - 1], ys[n - 1], before.1, found);
    }
}

impl InputAbstraction {
    pub fn new() -> (a: Self)
        ensures
            a@ == 0,
    {
        InputAbstraction { next_symbolic_input: 0 }
    }

    fn abstract_symbolic(&mut self, value: &SymExpr) -> (e: SymExpr)
        ensures
            e@ == input_var(old(self)@, sort_of(value@)),
            final(self)@ == bumped(old(self)@),
    {
        let index = self.next_symbolic_input;
        self.next_symbolic_input = bump(index);
        SymExpr::summary_input(index, value.sort())
    }
}

impl MatchContext {
    pub fn new(participants: ParticipantBijection) -> (c: Self)
        ensures
            c@ == (MatchView { pairs: participants@, inputs: Map::empty() }),
    {
        MatchContext { participants, symbolic_inputs: Bindings::new() }
    }

    pub fn participants(&self) -> (p: &ParticipantBijection)
        ensures
            p@ == self@.pairs,
    {
        &self.participants
    }

    fn match_symbolic(&mut self, actual: &SymExpr, stored: &SymExpr) -> (b: bool)
        ensures
            b == matched_sym(actual@, stored@, old(self)@).0,
            final(self)@ == matched_sym(actual@, stored@, old(self)@).1,
    {
        match stored {
            SymExpr::Var { id, sort } => {
                if id.input_index().is_none() || !actual.sort().same(sort) {
                    return false;
                }
                match self.symbolic_inputs.get(*id) {
                    Some(previous) => return previous.same(actual),
                    None => {},
                }
                self.symbolic_inputs.insert(*id, actual.clone());
                true
            },
            _ => false,
        }
    }

    /// What the comparison found out, for the outputs of the summary.
    pub fn into_instantiation(self) -> (c: InstantiationContext)
        ensures
            c@ == inst_after(self@),
    {
        InstantiationContext {
            participants: self.participants,
            symbolic_values: self.symbolic_inputs,
            allow_unbound_locals: true,
            allow_execution_values: false,
            allow_unbound_inputs: false,
        }
    }
}

/// What a successful comparison instantiates the outputs of the summary with.
pub open spec fn inst_after(m: MatchView) -> InstView {
    InstView {
        pairs: m.pairs,
        values: m.inputs,
        allow_unbound_locals: true,
        allow_execution_values: false,
        allow_unbound_inputs: false,
    }
}

impl VarRewrite for InstantiationContext {
    type Image = InstView;

    open spec fn images(&self) -> InstView {
        self@
    }

    fn rewrite(&self, id: SymVarId, sort: &SymSort) -> (r: Option<SymExpr>) {
        match self.symbolic_values.get(id) {
            Some(replacement) => return Some(replacement.clone()),
            None => {},
        }
        let allowed = match id.0 {
            SymVarKind::SummaryInput(_) => self.allow_unbound_inputs,
            SymVarKind::SummaryLocal(_) => self.allow_unbound_locals,
            SymVarKind::Execution(_) => self.allow_execution_values,
        };
        if allowed {
            Some(SymExpr::Var { id, sort: sort.clone() })
        } else {
            None
        }
    }
}

/// Every one of `threads`, paired with itself.
pub open spec fn identity_pairs(threads: Seq<ThreadId>) -> Seq<(ThreadId, ThreadId)> {
    Seq::new(threads.len(), |i: int| (threads[i], threads[i]))
}

impl InstantiationContext {
    pub fn participants(&self) -> (p: &ParticipantBijection)
        ensures
            p@ == self@.pairs,
    {
        &self.participants
    }

    /// Gives the locals of a summary values of the execution.
    pub fn for_materialization(
        participants: &Vec<ThreadId>,
        values: Bindings,
        allow_unbound_inputs: bool,
    ) -> (c: Self)
        requires
            participants@.no_duplicates(),
        ensures
            c@ == (InstView {
                pairs: identity_pairs(participants@),
                values: values@,
                allow_unbound_locals: false,
                allow_execution_values: true,
                allow_unbound_inputs,
            }),
    {
        let mut pairs: Vec<(ThreadId, ThreadId)> = Vec::new();
        let mut i: usize = 0;
        while i < participants.len()
            invariant
                i <= participants@.len(),
                pairs@.len() == i,
                forall|k: int|
                    0 <= k < i ==> #[trigger] pairs@[k] == (participants@[k], participants@[k]),
            decreases participants.len() - i,
        {
            pairs.push((participants[i], participants[i]));
            i += 1;
        }
        assert(pairs@ =~= identity_pairs(participants@));
        InstantiationContext {
            participants: ParticipantBijection::from_pairs(pairs),
            symbolic_values: values,
            allow_unbound_locals: false,
            allow_execution_values: true,
            allow_unbound_inputs,
        }
    }

    /// An expression of a summary, for the call at hand.
    pub fn instantiate_symbolic(&self, value: &SymExpr) -> (r: Option<SymExpr>)
        ensures
            r is Some == all_allowed(value@, self@),
            r matches Some(e) ==> e@ == rewritten(value@, self@),
    {
        value.rewrite_vars(self)
    }
}

impl VarRewrite for OutputNormalization {
    type Image = NormView;

    open spec fn images(&self) -> NormView {
        self@
    }

    fn rewrite(&self, id: SymVarId, sort: &SymSort) -> (r: Option<SymExpr>) {
        if id.input_index().is_some() {
            return Some(SymExpr::Var { id, sort: sort.clone() });
        }
        match self.symbolic_locals.get(id) {
            Some(local) => Some(local.clone()),
            None => None,
        }
    }
}

impl OutputNormalization {
    pub fn new(symbolic_locals: Bindings) -> (n: Self)
        ensures
            n@ == (NormView { locals: symbolic_locals@ }),
    {
        OutputNormalization { symbolic_locals }
    }

    /// An expression as a summary stores it.
    pub fn normalize_symbolic(&self, value: &SymExpr) -> (r: Option<SymExpr>)
        ensures
            r is Some == all_allowed(value@, self@),
            r matches Some(e) ==> e@ == rewritten(value@, self@),
    {
        value.rewrite_vars(self)
    }
}

impl SummaryTree {
    pub fn abstract_input(&self, context: &mut InputAbstraction) -> (r: SummaryTree)
        ensures
            r@ == abstracted(self@, old(context)@).0,
            final(context)@ == abstracted(self@, old(context)@).1,
        decreases *self,
    {
        match self {
            SummaryTree::Sym(e) => SummaryTree::Sym(context.abstract_symbolic(e)),
            SummaryTree::Node(k, fields) => {
                proof {
                    lemma_node(*k, *fields);
                }
                let ghost views = trees_view(fields@);
                let ghost start = context@;
                let mut new: Vec<SummaryTree> = Vec::new();
                let mut i: usize = 0;
                while i < fields.len()
                    invariant
                        i <= fields@.len(),
                        views == trees_view(fields@),
                        decreases_to!(*self => fields),
                        trees_view(new@) == abstracted_fields(views, start, i as nat).0,
                        context@ == abstracted_fields(views, start, i as nat).1,
                    decreases fields.len() - i,
                {
                    assert(views[i as int] == fields@[i as int]@);
                    assert(decreases_to!(fields => fields@[i as int]));
                    let ghost before = new@;
                    let t = fields[i].abstract_input(context);
                    new.push(t);
                    assert(trees_view(new@) =~= trees_view(before).push(t@));
                    i += 1;
                }
                proof {
                    lemma_node(*k, new);
                }
                SummaryTree::Node(*k, new)
            },
            _ => self.clone(),
        }
    }

    pub fn matches_stored_input(&self, stored: &SummaryTree, context: &mut MatchContext) -> (b:
        bool)
        ensures
            b == matched(self@, stored@, old(context)@).0,
            final(context)@ == matched(self@, stored@, old(context)@).1,
        decreases *self,
    {
        match (self, stored) {
            (SummaryTree::Thread(a), SummaryTree::Thread(s)) => context.participants.input_ids_match(
                *a,
                *s,
            ),
            (SummaryTree::Sym(a), SummaryTree::Sym(s)) => context.match_symbolic(a, s),
            (SummaryTree::Node(k, xs), SummaryTree::Node(l, ys)) => {
                proof {
                    lemma_node(*k, *xs);
                    lemma_node(*l, *ys);
                }
                if *k != *l || xs.len() != ys.len() {
                    return false;
                }
                let ghost left = trees_view(xs@);
                let ghost right = trees_view(ys@);
                let ghost start = context@;
                let mut ok = true;
                let mut i: usize = 0;
                while i < xs.len()
                    invariant
                        i <= xs@.len() == ys@.len(),
                        left == trees_view(xs@),
                        right == trees_view(ys@),
                        decreases_to!(*self => xs),
                        ok == matched_fields(left, right, start, i as nat).0,
                        context@ == matched_fields(left, right, start, i as nat).1,
                    decreases xs.len() - i,
                {
                    assert(left[i as int] == xs@[i as int]@);
                    assert(right[i as int] == ys@[i as int]@);
                    assert(decreases_to!(xs => xs@[i as int]));
                    if ok {
                        ok = xs[i].matches_stored_input(&ys[i], context);
                    }
                    i += 1;
                }
                ok
            },
            _ => self.same(stored),
        }
    }

    pub fn instantiate(&self, context: &InstantiationContext) -> (r: Option<SummaryTree>)
        ensures
            r is Some == instantiated(self@, context@) is Some,
            r matches Some(t) ==> Some(t@) == instantiated(self@, context@),
        decreases *self,
    {
        match self {
            SummaryTree::Thread(s) => Some(
                SummaryTree::Thread(context.participants.instantiate_id(*s)),
            ),
            SummaryTree::Sym(e) => match context.instantiate_symbolic(e) {
                Some(e) => Some(SummaryTree::Sym(e)),
                None => None,
            },
            SummaryTree::Node(k, fields) => {
                proof {
                    lemma_node(*k, *fields);
                }
                let ghost views = trees_view(fields@);
                let mut new: Vec<SummaryTree> = Vec::new();
                let mut i: usize = 0;
                while i < fields.len()
                    invariant
                        i <= fields@.len(),
                        self@ == TreeView::Node(*k, views),
                        views == trees_view(fields@),
                        decreases_to!(*self => fields),
                        new@.len() == i,
                        forall|j: int|
                            0 <= j < i ==> instantiated(#[trigger] views[j], context@) is Some,
                        forall|j: int|
                            0 <= j < i ==> Some((#[trigger] new@[j])@) == instantiated(
                                views[j],
                                context@,
                            ),
                    decreases fields.len() - i,
                {
                    assert(views[i as int] == fields@[i as int]@);
                    assert(decreases_to!(fields => fields@[i as int]));
                    match fields[i].instantiate(context) {
                        Some(t) => new.push(t),
                        None => return None,
                    }
                    i += 1;
                }
                proof {
                    lemma_node(*k, new);
                    assert(trees_view(new@) =~= instantiated(self@, context@)->0->Node_1);
                }
                Some(SummaryTree::Node(*k, new))
            },
            _ => Some(self.clone()),
        }
    }

    pub fn normalize_summary_output(&self, context: &OutputNormalization) -> (r: Option<
        SummaryTree,
    >)
        ensures
            r is Some == normalized(self@, context@) is Some,
            r matches Some(t) ==> Some(t@) == normalized(self@, context@),
        decreases *self,
    {
        match self {
            SummaryTree::Sym(e) => match context.normalize_symbolic(e) {
                Some(e) => Some(SummaryTree::Sym(e)),
                None => None,
            },
            SummaryTree::Node(k, fields) => {
                proof {
                    lemma_node(*k, *fields);
                }
                let ghost views = trees_view(fields@);
                let mut new: Vec<SummaryTree> = Vec::new();
                let mut i: usize = 0;
                while i < fields.len()
                    invariant
                        i <= fields@.len(),
                        self@ == TreeView::Node(*k, views),
                        views == trees_view(fields@),
                        decreases_to!(*self => fields),
                        new@.len() == i,
                        forall|j: int|
                            0 <= j < i ==> normalized(#[trigger] views[j], context@) is Some,
                        forall|j: int|
                            0 <= j < i ==> Some((#[trigger] new@[j])@) == normalized(
                                views[j],
                                context@,
                            ),
                    decreases fields.len() - i,
                {
                    assert(views[i as int] == fields@[i as int]@);
                    assert(decreases_to!(fields => fields@[i as int]));
                    match fields[i].normalize_summary_output(context) {
                        Some(t) => new.push(t),
                        None => return None,
                    }
                    i += 1;
                }
                proof {
                    lemma_node(*k, new);
                    assert(trees_view(new@) =~= normalized(self@, context@)->0->Node_1);
                }
                Some(SummaryTree::Node(*k, new))
            },
            _ => Some(self.clone()),
        }
    }
}

/// What a summary does with the values that cross its boundary.
pub trait SummaryOperations: SummarizableVal {
    /// The value with each symbolic expression replaced by an input of the summary.
    fn abstract_input(&self, context: &mut InputAbstraction) -> (r: Self)
        ensures
            r.tree() == abstracted(self.tree(), old(context)@).0,
            final(context)@ == abstracted(self.tree(), old(context)@).1,
    ;

    /// Whether the value matches one that a summary was stored for.
    fn matches_stored_input(&self, stored: &Self, context: &mut MatchContext) -> (b: bool)
        ensures
            b == matched(self.tree(), stored.tree(), old(context)@).0,
            final(context)@ == matched(self.tree(), stored.tree(), old(context)@).1,
    ;

    /// The value of a stored summary, for the call at hand; none where a symbolic
    /// variable has nothing to stand for.
    fn instantiate(&self, context: &InstantiationContext) -> (r: Option<Self>)
        ensures
            r is Some == instantiated(self.tree(), context@) is Some,
            r matches Some(v) ==> Some(v.tree()) == instantiated(self.tree(), context@),
    ;

    /// The value as a summary stores it; none where it depends on a variable that is
    /// neither an input nor a local of the summary.
    fn normalize_summary_output(&self, context: &OutputNormalization) -> (r: Option<Self>)
        ensures
            r is Some == normalized(self.tree(), context@) is Some,
            r matches Some(v) ==> Some(v.tree()) == normalized(self.tree(), context@),
    ;
}

impl<T: SummarizableVal> SummaryOperations for T {
    fn abstract_input(&self, context: &mut InputAbstraction) -> (r: Self) {
        let t = self.to_tree().abstract_input(context);
        proof {
            self.lemma_tree();
            law_abstraction_keeps_the_shape(self.tree(), old(context)@);
            T::lemma_shape(self.tree(), t@);
        }
        T::from_tree(&t).unwrap()
    }

    fn matches_stored_input(&self, stored: &Self, context: &mut MatchContext) -> (b: bool) {
        self.to_tree().matches_stored_input(&stored.to_tree(), context)
    }

    fn instantiate(&self, context: &InstantiationContext) -> (r: Option<Self>) {
        match self.to_tree().instantiate(context) {
            None => None,
            Some(t) => {
                proof {
                    self.lemma_tree();
                    law_instantiation_keeps_the_shape(self.tree(), context@);
                    T::lemma_shape(self.tree(), t@);
                }
                T::from_tree(&t)
            },
        }
    }

    fn normalize_summary_output(&self, context: &OutputNormalization) -> (r: Option<Self>) {
        match self.to_tree().normalize_summary_output(context) {
            None => None,
            Some(t) => {
                proof {
                    self.lemma_tree();
                    law_normalization_keeps_the_shape(self.tree(), context@);
                    T::lemma_shape(self.tree(), t@);
                }
                T::from_tree(&t)
            },
        }
    }
}

} // verus!
