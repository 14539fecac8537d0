//! Who takes part in a collective call.

use super::erased::SummarizableArguments;
use crate::assoc::SameAs;
use crate::event::ThreadId;
use vstd::prelude::*;
use vstd::string::*;

verus! {

/// The identity of a summarizable function.
pub struct SummarizableFunctionId(String);

impl View for SummarizableFunctionId {
    type V = Seq<char>;

    closed spec fn view(&self) -> Seq<char> {
        self.0@
    }
}

impl SummarizableFunctionId {
    pub fn new(name: &str) -> (f: Self)
        ensures
            f@ == name@,
    {
        SummarizableFunctionId(String::from_str(name))
    }

    pub fn name(&self) -> (s: &str)
        ensures
            s@ == self@,
    {
        self.0.as_str()
    }
}

impl SameAs for SummarizableFunctionId {
    fn same(&self, other: &Self) -> (b: bool) {
        self.0 == other.0
    }
}

impl Clone for SummarizableFunctionId {
    fn clone(&self) -> (r: Self)
        ensures
            r@ == self@,
    {
        SummarizableFunctionId(self.0.clone())
    }
}

/// The identity of one collective call.
pub struct SummarizableCallId {
    pub function: SummarizableFunctionId,
    pub call_index: u64,
}

/// A call's identity as the contracts see it.
pub struct CallView {
    pub function: Seq<char>,
    pub call_index: u64,
}

impl View for SummarizableCallId {
    type V = CallView;

    open spec fn view(&self) -> CallView {
        CallView { function: self.function@, call_index: self.call_index }
    }
}

impl SameAs for SummarizableCallId {
    fn same(&self, other: &Self) -> (b: bool) {
        self.call_index == other.call_index && self.function.same(&other.function)
    }
}

impl Clone for SummarizableCallId {
    fn clone(&self) -> (r: Self)
        ensures
            r@ == self@,
    {
        SummarizableCallId { function: self.function.clone(), call_index: self.call_index }
    }
}

/// How summaries are stored and reused.
#[derive(Clone, Copy, Debug, PartialEq, Eq, Structural)]
pub struct SummarizationOptions {
    pub symmetry: bool,
}

impl Default for SummarizationOptions {
    fn default() -> (o: Self)
        ensures
            !o.symmetry,
    {
        SummarizationOptions { symmetry: false }
    }
}

impl SummarizationOptions {
    /// Lets summaries be reused by other groups of participants.
    pub fn with_symmetry(self, enabled: bool) -> (o: Self)
        ensures
            o == (SummarizationOptions { symmetry: enabled }),
    {
        SummarizationOptions { symmetry: enabled }
    }

    pub fn symmetry(&self) -> (b: bool)
        ensures
            b == self.symmetry,
    {
        self.symmetry
    }
}

/// Whether a caller resolves the call or joins another caller.
#[derive(Clone, Copy, Debug, PartialEq, Eq, Structural)]
pub enum ParticipationMode {
    Resolve,
    Join(ThreadId),
}

/// What one caller demands of the group.
pub struct Participants {
    mode: ParticipationMode,
    required: Vec<ThreadId>,
    exactly_one: Vec<Vec<ThreadId>>,
}

/// Such demands as the contracts see them.
#[verifier::ext_equal]
pub struct PartView {
    pub mode: ParticipationMode,
    pub required: Seq<ThreadId>,
    pub exactly_one: Seq<Seq<ThreadId>>,
}

/// The views of lists of threads.
pub open spec fn groups_view(groups: Seq<Vec<ThreadId>>) -> Seq<Seq<ThreadId>> {
    Seq::new(groups.len(), |i: int| groups[i]@)
}

impl View for Participants {
    type V = PartView;

    closed spec fn view(&self) -> PartView {
        PartView {
            mode: self.mode,
            required: self.required@,
            exactly_one: groups_view(self.exactly_one@),
        }
    }
}

/// `list` with those of the first `n` of `more` that it does not hold yet.
pub open spec fn with_missing(list: Seq<ThreadId>, more: Seq<ThreadId>, n: nat) -> Seq<ThreadId>
    decreases n,
{
    if n == 0 {
        list
    } else {
        let before = with_missing(list, more, (n - 1) as nat);
        if before.contains(more[n - 1]) {
            before
        } else {
            before.push(more[n - 1])
        }
    }
}

/// Whether the threads ascend strictly.
pub open spec fn ascends(list: Seq<ThreadId>) -> bool {
    forall|i: int, j: int|
        0 <= i < j < list.len() ==> (#[trigger] list[i]).id < (#[trigger] list[j]).id
}

/// Whether `a` comes before `b` in the order of lists: at the first difference, or as its
/// beginning.
pub open spec fn comes_before(a: Seq<ThreadId>, b: Seq<ThreadId>) -> bool
    decreases a.len(),
{
    if b.len() == 0 {
        false
    } else if a.len() == 0 {
        true
    } else if a[0] == b[0] {
        comes_before(a.skip(1), b.skip(1))
    } else {
        a[0].id < b[0].id
    }
}

/// Whether the lists ascend strictly.
pub open spec fn lists_ascend(lists: Seq<Seq<ThreadId>>) -> bool {
    forall|i: int, j: int|
        0 <= i < j < lists.len() ==> comes_before(#[trigger] lists[i], #[trigger] lists[j])
}

/// Whether `new` lists the members of `list` in ascending order.
#[verifier::opaque]
pub open spec fn sorted_of(list: Seq<ThreadId>, new: Seq<ThreadId>) -> bool {
    &&& ascends(new)
    &&& forall|t: ThreadId| #[trigger] new.contains(t) == list.contains(t)
}

/// Whether `new` lists the members of one of the first `n` of `lists`.
pub open spec fn comes_from(new: Seq<ThreadId>, lists: Seq<Seq<ThreadId>>, n: int) -> bool {
    exists|j: int| 0 <= j < n && #[trigger] sorted_of(lists[j], new)
}

/// Whether one of `new` lists the members of `list`.
pub open spec fn is_kept(list: Seq<ThreadId>, new: Seq<Seq<ThreadId>>) -> bool {
    exists|i: int| 0 <= i < new.len() && #[trigger] sorted_of(list, new[i])
}

/// Whether `new` holds the first `n` of `lists`, each in ascending order, and no others.
pub open spec fn same_groups(lists: Seq<Seq<ThreadId>>, new: Seq<Seq<ThreadId>>, n: int) -> bool {
    &&& forall|i: int| 0 <= i < new.len() ==> comes_from(#[trigger] new[i], lists, n)
    &&& forall|j: int| 0 <= j < n ==> is_kept(#[trigger] lists[j], new)
}

/// Whether `new` says what `p` says, in the one form for the demands of `caller`.
pub open spec fn normal_form(p: PartView, caller: ThreadId, new: PartView) -> bool {
    &&& new.mode == p.mode
    &&& ascends(new.required)
    &&& forall|t: ThreadId| #[trigger]
        new.required.contains(t) == (p.required.contains(t) && t != caller)
    &&& lists_ascend(new.exactly_one)
    &&& same_groups(p.exactly_one, new.exactly_one, p.exactly_one.len() as int)
}

proof fn lemma_one_more_group(
    lists: Seq<Seq<ThreadId>>,
    before: Seq<Seq<ThreadId>>,
    after: Seq<Seq<ThreadId>>,
    n: int,
    new: Seq<ThreadId>,
)
    requires
        0 <= n < lists.len(),
        same_groups(lists, before, n),
        sorted_of(lists[n], new),
        forall|x: Seq<ThreadId>| #[trigger] after.contains(x) == (before.contains(x) || x == new),
    ensures
        same_groups(lists, after, n + 1),
{
    assert forall|i: int| 0 <= i < after.len() implies comes_from(
        #[trigger] after[i],
        lists,
        n + 1,
    ) by {
        let x = after[i];
        assert(after.contains(x));
        if before.contains(x) {
            let k = before.index_of(x);
            assert(comes_from(before[k], lists, n));
            let j = choose|j: int| 0 <= j < n && #[trigger] sorted_of(lists[j], x);
            assert(sorted_of(lists[j], x));
        } else {
            assert(sorted_of(lists[n], x));
        }
    }
    assert forall|j: int| 0 <= j < n + 1 implies is_kept(#[trigger] lists[j], after) by {
        if j < n {
            assert(is_kept(lists[j], before));
            let i = choose|i: int| 0 <= i < before.len() && #[trigger] sorted_of(lists[j], before[i]);
            let x = before[i];
            assert(before.contains(x));
            assert(after.contains(x));
            assert(sorted_of(lists[j], after[after.index_of(x)]));
        } else {
            assert(after.contains(new));
            assert(sorted_of(lists[j], after[after.index_of(new)]));
        }
    }
}

fn holds(list: &Vec<ThreadId>, t: ThreadId) -> (b: bool)
    ensures
        b == list@.contains(t),
{
    crate::loc::thread_in(list, t)
}

fn add_missing(list: &mut Vec<ThreadId>, more: &Vec<ThreadId>)
    ensures
        final(list)@ == with_missing(old(list)@, more@, more@.len()),
{
    let ghost start = list@;
    let mut i: usize = 0;
    while i < more.len()
        invariant
            i <= more@.len(),
            list@ == with_missing(start, more@, i as nat),
        decreases more.len() - i,
    {
        if !holds(list, more[i]) {
            list.push(more[i]);
        }
        i += 1;
    }
}

fn copy_threads(list: &Vec<ThreadId>) -> (r: Vec<ThreadId>)
    ensures
        r@ == list@,
{
    let mut r: Vec<ThreadId> = Vec::new();
    let mut i: usize = 0;
    while i < list.len()
        invariant
            i <= list@.len(),
            r@ == list@.take(i as int),
        decreases list.len() - i,
    {
        r.push(list[i]);
        i += 1;
    }
    assert(r@ =~= list@);
    r
}

/// Puts `t` where it belongs in an ascending list.
fn place(list: &mut Vec<ThreadId>, t: ThreadId)
    requires
        ascends(old(list)@),
    ensures
        ascends(final(list)@),
        forall|x: ThreadId| #[trigger]
            final(list)@.contains(x) == (old(list)@.contains(x) || x == t),
{
    let ghost before = list@;
    let mut i: usize = 0;
    while i < list.len() && list[i].id < t.id
        invariant
            i <= list@.len(),
            list@ == before,
            ascends(before),
            forall|k: int| 0 <= k < i ==> (#[trigger] before[k]).id < t.id,
        decreases list.len() - i,
    {
        i += 1;
    }
    if i < list.len() && list[i].id == t.id {
        assert(before[i as int] == t);
        return;
    }
    list.insert(i, t);
    proof {
        assert(list@ == before.insert(i as int, t));
        assert forall|a: int, b: int| 0 <= a < b < list@.len() implies (#[trigger] list@[a]).id < (
        #[trigger] list@[b]).id by {
            let x = if a < i {
                a
            } else {
                a - 1
            };
            let y = if b < i {
                b
            } else {
                b - 1
            };
            if a != i {
                assert(list@[a] == before[x]);
            }
            if b != i {
                assert(list@[b] == before[y]);
            }
            if i < before.len() {
                assert(before[i as int].id > t.id);
                if b > i && y > i {
                    assert(before[i as int].id < before[y].id);
                }
            }
        }
        assert forall|x: ThreadId| #[trigger] list@.contains(x) == (before.contains(x) || x
            == t) by {
            assert(list@[i as int] == t);
            if before.contains(x) {
                let k = before.index_of(x);
                if k < i {
                    assert(list@[k] == x);
                } else {
                    assert(list@[k + 1] == x);
                }
            }
            if list@.contains(x) && x != t {
                let k = list@.index_of(x);
                if k < i {
                    assert(before[k] == x);
                } else {
                    assert(before[k - 1] == x);
                }
            }
        }
    }
}

/// The members of `list` other than `caller`, in ascending order.
fn sorted_without(list: &Vec<ThreadId>, caller: Option<ThreadId>) -> (r: Vec<ThreadId>)
    ensures
        ascends(r@),
        forall|t: ThreadId| #[trigger] r@.contains(t) == (list@.contains(t) && Some(t) != caller),
{
    let mut r: Vec<ThreadId> = Vec::new();
    let mut i: usize = 0;
    while i < list.len()
        invariant
            i <= list@.len(),
            ascends(r@),
            forall|t: ThreadId| #[trigger]
                r@.contains(t) == (list@.take(i as int).contains(t) && Some(t) != caller),
        decreases list.len() - i,
    {
        let t = list[i];
        let skip = match caller {
            Some(c) => c == t,
            None => false,
        };
        proof {
            assert(list@.take(i + 1) =~= list@.take(i as int).push(t));
            assert forall|x: ThreadId| #[trigger] list@.take(i + 1).contains(x) == (list@.take(
                i as int,
            ).contains(x) || x == t) by {
                let p = list@.take(i as int);
                if p.contains(x) {
                    assert(p.push(t)[p.index_of(x)] == x);
                }
                assert(p.push(t)[p.len() as int] == t);
                if p.push(t).contains(x) && x != t {
                    assert(p[p.push(t).index_of(x)] == x);
                }
            }
        }
        if !skip {
            place(&mut r, t);
        }
        i += 1;
    }
    assert(list@.take(i as int) =~= list@);
    r
}

proof fn lemma_before_is_strict(a: Seq<ThreadId>)
    ensures
        !comes_before(a, a),
    decreases a.len(),
{
    if a.len() > 0 {
        lemma_before_is_strict(a.skip(1));
    }
}

proof fn lemma_before_is_transitive(a: Seq<ThreadId>, b: Seq<ThreadId>, c: Seq<ThreadId>)
    requires
        comes_before(a, b),
        comes_before(b, c),
    ensures
        comes_before(a, c),
    decreases a.len(),
{
    if a.len() > 0 && b.len() > 0 && c.len() > 0 && a[0] == b[0] && b[0] == c[0] {
        lemma_before_is_transitive(a.skip(1), b.skip(1), c.skip(1));
    }
}

proof fn lemma_before_is_total(a: Seq<ThreadId>, b: Seq<ThreadId>)
    requires
        a != b,
    ensures
        comes_before(a, b) || comes_before(b, a),
    decreases a.len(),
{
    if a.len() > 0 && b.len() > 0 && a[0] == b[0] {
        if a.skip(1) == b.skip(1) {
            assert(a =~= seq![a[0]] + a.skip(1));
            assert(b =~= seq![b[0]] + b.skip(1));
        }
        lemma_before_is_total(a.skip(1), b.skip(1));
    } else if a.len() == 0 && b.len() == 0 {
        assert(a =~= b);
    } else if a.len() > 0 && b.len() > 0 {
        assert(a[0].id != b[0].id);
    }
}

fn list_before(a: &Vec<ThreadId>, b: &Vec<ThreadId>) -> (r: bool)
    ensures
        r == comes_before(a@, b@),
{
    let mut i: usize = 0;
    assert(a@.skip(0) =~= a@);
    assert(b@.skip(0) =~= b@);
    while i < a.len() && i < b.len() && a[i] == b[i]
        invariant
            i <= a@.len(),
            i <= b@.len(),
            comes_before(a@, b@) == comes_before(a@.skip(i as int), b@.skip(i as int)),
        decreases a.len() - i,
    {
        assert(a@.skip(i as int).skip(1) =~= a@.skip(i + 1));
        assert(b@.skip(i as int).skip(1) =~= b@.skip(i + 1));
        i += 1;
    }
    if i >= b.len() {
        false
    } else if i >= a.len() {
        true
    } else {
        a[i].id < b[i].id
    }
}

fn lists_same(a: &Vec<ThreadId>, b: &Vec<ThreadId>) -> (r: bool)
    ensures
        r == (a@ == b@),
{
    if a.len() != b.len() {
        return false;
    }
    let mut i: usize = 0;
    while i < a.len()
        invariant
            i <= a@.len() == b@.len(),
            forall|k: int| 0 <= k < i ==> a@[k] == b@[k],
        decreases a.len() - i,
    {
        if a[i] != b[i] {
            return false;
        }
        i += 1;
    }
    assert(a@ =~= b@);
    true
}

/// Puts `list` where it belongs among ascending lists.
fn place_list(lists: &mut Vec<Vec<ThreadId>>, list: Vec<ThreadId>)
    requires
        lists_ascend(groups_view(old(lists)@)),
    ensures
        lists_ascend(groups_view(final(lists)@)),
        forall|x: Seq<ThreadId>| #[trigger]
            groups_view(final(lists)@).contains(x) == (groups_view(old(lists)@).contains(x) || x
                == list@),
{
    let ghost before = groups_view(lists@);
    let ghost new = list@;
    let mut i: usize = 0;
    while i < lists.len() && list_before(&lists[i], &list)
        invariant
            i <= lists@.len(),
            before == groups_view(lists@),
            list@ == new,
            lists_ascend(before),
            forall|k: int| 0 <= k < i ==> comes_before(#[trigger] before[k], new),
        decreases lists.len() - i,
    {
        assert(before[i as int] == lists@[i as int]@);
        i += 1;
    }
    if i < lists.len() {
        assert(before[i as int] == lists@[i as int]@);
    }
    if i < lists.len() && lists_same(&lists[i], &list) {
        return;
    }
    let ghost raw = lists@;
    lists.insert(i, list);
    proof {
        let after = groups_view(lists@);
        assert(after =~= before.insert(i as int, new));
        if i < before.len() {
            lemma_before_is_total(before[i as int], new);
            assert(comes_before(new, before[i as int]));
        }
        assert forall|a: int, b: int| 0 <= a < b < after.len() implies comes_before(
            #[trigger] after[a],
            #[trigger] after[b],
        ) by {
            let x = if a < i {
                a
            } else {
                a - 1
            };
            let y = if b < i {
                b
            } else {
                b - 1
            };
            if a != i {
                assert(after[a] == before[x]);
            }
            if b != i {
                assert(after[b] == before[y]);
            }
            if a != i && b != i {
                assert(comes_before(before[x], before[y]));
            } else if a == i {
                if y > i {
                    assert(comes_before(before[i as int], before[y]));
                    lemma_before_is_transitive(new, before[i as int], before[y]);
                }
            }
        }
        assert forall|x: Seq<ThreadId>| #[trigger] after.contains(x) == (before.contains(x) || x
            == new) by {
            assert(after[i as int] == new);
            if before.contains(x) {
                let k = before.index_of(x);
                if k < i {
                    assert(after[k] == x);
                } else {
                    assert(after[k + 1] == x);
                }
            }
            if after.contains(x) && x != new {
                let k = after.index_of(x);
                if k < i {
                    assert(before[k] == x);
                } else {
                    assert(before[k - 1] == x);
                }
            }
        }
    }
}

impl Participants {
    /// The caller resolves the call.
    pub fn resolve() -> (p: Self)
        ensures
            p@ == (PartView {
                mode: ParticipationMode::Resolve,
                required: Seq::empty(),
                exactly_one: Seq::empty(),
            }),
    {
        let p = Participants {
            mode: ParticipationMode::Resolve,
            required: Vec::new(),
            exactly_one: Vec::new(),
        };
        assert(p@.exactly_one =~= Seq::<Seq<ThreadId>>::empty());
        p
    }

    /// The caller joins the call that `resolver` resolves.
    pub fn join(resolver: ThreadId) -> (p: Self)
        ensures
            p@ == (PartView {
                mode: ParticipationMode::Join(resolver),
                required: Seq::empty(),
                exactly_one: Seq::empty(),
            }),
    {
        let p = Participants {
            mode: ParticipationMode::Join(resolver),
            required: Vec::new(),
            exactly_one: Vec::new(),
        };
        assert(p@.exactly_one =~= Seq::<Seq<ThreadId>>::empty());
        p
    }

    /// Demands that each of `participants` takes part.
    pub fn require(self, participants: Vec<ThreadId>) -> (p: Self)
        ensures
            p@ == (PartView {
                required: with_missing(self@.required, participants@, participants@.len()),
                ..self@
            }),
    {
        let mut p = self;
        add_missing(&mut p.required, &participants);
        p
    }

    /// Demands that exactly one of `participants` takes part.
    pub fn exactly_one_of(self, participants: Vec<ThreadId>) -> (p: Self)
        requires
            participants@.len() > 0,
        ensures
            p@ == (PartView {
                exactly_one: self@.exactly_one.push(
                    with_missing(Seq::empty(), participants@, participants@.len()),
                ),
                ..self@
            }),
    {
        let mut p = self;
        let mut alternatives: Vec<ThreadId> = Vec::new();
        add_missing(&mut alternatives, &participants);
        p.exactly_one.push(alternatives);
        assert(p@.exactly_one =~= self@.exactly_one.push(alternatives@));
        p
    }

    pub fn required(&self) -> (r: &Vec<ThreadId>)
        ensures
            r@ == self@.required,
    {
        &self.required
    }

    pub fn exactly_one(&self) -> (r: &Vec<Vec<ThreadId>>)
        ensures
            groups_view(r@) == self@.exactly_one,
    {
        &self.exactly_one
    }

    pub fn mode(&self) -> (m: ParticipationMode)
        ensures
            m == self@.mode,
    {
        self.mode
    }

    /// The thread that resolves the call.
    pub fn resolver(&self, caller: ThreadId) -> (t: ThreadId)
        ensures
            t == resolver_of(self@, caller),
    {
        match self.mode {
            ParticipationMode::Resolve => caller,
            ParticipationMode::Join(resolver) => resolver,
        }
    }

    pub fn is_resolver(&self) -> (b: bool)
        ensures
            b == (self@.mode is Resolve),
    {
        match self.mode {
            ParticipationMode::Resolve => true,
            ParticipationMode::Join(_) => false,
        }
    }

    /// Brings the demands of `caller` into their one form.
    pub fn normalize_for(&mut self, caller: ThreadId)
        requires
            old(self)@.mode != ParticipationMode::Join(caller),
        ensures
            normal_form(old(self)@, caller, final(self)@),
    {
        let ghost before = self@;
        let required = sorted_without(&self.required, Some(caller));
        let mut lists: Vec<Vec<ThreadId>> = Vec::new();
        let mut i: usize = 0;
        assert(groups_view(lists@) =~= Seq::<Seq<ThreadId>>::empty());
        while i < self.exactly_one.len()
            invariant
                self@ == before,
                i <= self.exactly_one@.len(),
                lists_ascend(groups_view(lists@)),
                same_groups(before.exactly_one, groups_view(lists@), i as int),
            decreases self.exactly_one.len() - i,
        {
            let list = sorted_without(&self.exactly_one[i], None);
            let ghost earlier = groups_view(lists@);
            let ghost new = list@;
            assert(before.exactly_one[i as int] == self.exactly_one@[i as int]@);
            assert(sorted_of(before.exactly_one[i as int], new)) by {
                reveal(sorted_of);
            }
            place_list(&mut lists, list);
            proof {
                lemma_one_more_group(
                    before.exactly_one,
                    earlier,
                    groups_view(lists@),
                    i as int,
                    new,
                );
            }
            i += 1;
        }
        self.required = required;
        self.exactly_one = lists;
    }
}

/// The thread that resolves a call with these demands.
pub open spec fn resolver_of(p: PartView, caller: ThreadId) -> ThreadId {
    match p.mode {
        ParticipationMode::Resolve => caller,
        ParticipationMode::Join(resolver) => resolver,
    }
}

impl Clone for Participants {
    fn clone(&self) -> (r: Self)
        ensures
            r@ == self@,
    {
        let mut exactly_one: Vec<Vec<ThreadId>> = Vec::new();
        let mut i: usize = 0;
        while i < self.exactly_one.len()
            invariant
                i <= self.exactly_one@.len(),
                exactly_one@.len() == i,
                forall|k: int| 0 <= k < i ==> (#[trigger] exactly_one@[k])@ == self.exactly_one@[k]@,
            decreases self.exactly_one.len() - i,
        {
            exactly_one.push(copy_threads(&self.exactly_one[i]));
            i += 1;
        }
        let r = Participants {
            mode: self.mode,
            required: copy_threads(&self.required),
            exactly_one,
        };
        assert(r@.exactly_one =~= self@.exactly_one);
        r
    }
}

/// What is known of a summarizable function at compile time.
#[derive(Clone, Copy, Debug)]
pub struct SummarizableFunctionDescriptor {
    pub name: &'static str,
}

impl SummarizableFunctionDescriptor {
    pub fn new(name: &'static str) -> (d: Self)
        ensures
            d.name == name,
    {
        SummarizableFunctionDescriptor { name }
    }

    pub fn id(self) -> (f: SummarizableFunctionId)
        ensures
            f@ == self.name@,
    {
        SummarizableFunctionId::new(self.name)
    }
}

/// A collective call in progress.
pub struct SummarizableCallHandle {
    pub call: SummarizableCallId,
}

/// Whether a participant executes the body of the function or applies a summary.
pub enum SummaryDispatch {
    ExecuteBody { handle: SummarizableCallHandle, arguments: SummarizableArguments },
    ApplySummary(SummarizableCallHandle),
}

} // verus!
