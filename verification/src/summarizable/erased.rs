//! Values and argument lists whose types are known at run time only.

use super::symmetry::{
    abstracted, instantiated, matched, normalized, InputAbstraction, InstView, InstantiationContext,
    MatchContext, MatchView, NormView, OutputNormalization,
};
use super::value::{SummarizableVal, SummaryTree, TreeView};
use vstd::prelude::*;
use vstd::string::*;

verus! {

/// A value together with the name of its type.
pub struct ErasedSummarizableVal {
    tree: SummaryTree,
    kind: String,
}

/// Such a value as the contracts see it.
pub struct ErasedView {
    pub tree: TreeView,
    pub kind: Seq<char>,
}

impl View for ErasedSummarizableVal {
    type V = ErasedView;

    closed spec fn view(&self) -> ErasedView {
        ErasedView { tree: self.tree@, kind: self.kind@ }
    }
}

/// Compares two values of run-time types; values of different types do not match.
pub open spec fn erased_matched(actual: ErasedView, stored: ErasedView, c: MatchView) -> (
    bool,
    MatchView,
) {
    if actual.kind == stored.kind {
        matched(actual.tree, stored.tree, c)
    } else {
        (false, c)
    }
}

/// A value of a summary, for the call at hand.
pub open spec fn erased_instantiated(v: ErasedView, c: InstView) -> Option<ErasedView> {
    match instantiated(v.tree, c) {
        Some(tree) => Some(ErasedView { tree, ..v }),
        None => None,
    }
}

/// A value as a summary stores it.
pub open spec fn erased_normalized(v: ErasedView, c: NormView) -> Option<ErasedView> {
    match normalized(v.tree, c) {
        Some(tree) => Some(ErasedView { tree, ..v }),
        None => None,
    }
}

impl ErasedSummarizableVal {
    pub fn new<T: SummarizableVal>(value: T) -> (v: Self)
        ensures
            v@ == (ErasedView { tree: value.tree(), kind: T::kind_text() }),
    {
        ErasedSummarizableVal { tree: value.to_tree(), kind: T::kind_name() }
    }

    pub fn abstract_input(&self, context: &mut InputAbstraction) -> (v: Self)
        ensures
            v@ == (ErasedView { tree: abstracted(self@.tree, old(context)@).0, ..self@ }),
            final(context)@ == abstracted(self@.tree, old(context)@).1,
    {
        ErasedSummarizableVal {
            tree: self.tree.abstract_input(context),
            kind: self.kind.clone(),
        }
    }

    pub fn matches_stored_input(&self, stored: &Self, context: &mut MatchContext) -> (b: bool)
        ensures
            b == erased_matched(self@, stored@, old(context)@).0,
            final(context)@ == erased_matched(self@, stored@, old(context)@).1,
    {
        self.kind == stored.kind && self.tree.matches_stored_input(&stored.tree, context)
    }

    pub fn instantiate(&self, context: &InstantiationContext) -> (r: Option<Self>)
        ensures
            r is Some == erased_instantiated(self@, context@) is Some,
            r matches Some(v) ==> Some(v@) == erased_instantiated(self@, context@),
    {
        match self.tree.instantiate(context) {
            Some(tree) => Some(ErasedSummarizableVal { tree, kind: self.kind.clone() }),
            None => None,
        }
    }

    pub fn normalize_summary_output(&self, context: &OutputNormalization) -> (r: Option<Self>)
        ensures
            r is Some == erased_normalized(self@, context@) is Some,
            r matches Some(v) ==> Some(v@) == erased_normalized(self@, context@),
    {
        match self.tree.normalize_summary_output(context) {
            Some(tree) => Some(ErasedSummarizableVal { tree, kind: self.kind.clone() }),
            None => None,
        }
    }

    /// The value with its type; none where it is of another type.
    pub fn into_typed<T: SummarizableVal>(self) -> (r: Option<T>)
        ensures
            r is Some == (self@.kind == T::kind_text() && T::fits(self@.tree)),
            r matches Some(v) ==> v.tree() == self@.tree && is_value(v, self@.tree),
    {
        if self.kind == T::kind_name() {
            let r = T::from_tree(&self.tree);
            proof {
                if r is Some {
                    lemma_is_value(r->0);
                }
            }
            r
        } else {
            None
        }
    }

    /// Whether two values are the same, their types included.
    pub fn same(&self, other: &Self) -> (b: bool)
        ensures
            b == (self@ == other@),
    {
        self.kind == other.kind && self.tree.same(&other.tree)
    }
}

impl Clone for ErasedSummarizableVal {
    fn clone(&self) -> (r: Self)
        ensures
            r@ == self@,
    {
        ErasedSummarizableVal { tree: self.tree.clone(), kind: self.kind.clone() }
    }
}

/// Whether `v` equals all values that hold `tree`.
pub open spec fn is_value<T: SummarizableVal>(v: T, tree: TreeView) -> bool {
    forall|w: T| #[trigger] w.tree() == tree ==> v.equals(&w)
}

/// A value equals all values that hold the same.
pub proof fn lemma_is_value<T: SummarizableVal>(v: T)
    ensures
        is_value(v, v.tree()),
{
    assert forall|w: T| #[trigger] w.tree() == v.tree() implies v.equals(&w) by {
        v.law_trees_tell_values_apart(&w);
    }
}

/// What a value became when its type was forgotten can be turned back, and what it is
/// turned back into equals the value.
pub proof fn law_erased_values_come_back<T: SummarizableVal>(value: T)
    ensures
        T::fits(value.tree()),
        forall|back: T| #[trigger] back.tree() == value.tree() ==> back.equals(&value),
{
    value.lemma_tree();
    assert forall|back: T| #[trigger] back.tree() == value.tree() implies back.equals(&value) by {
        back.law_trees_tell_values_apart(&value);
    }
}

/// The views of a list of values.
pub open spec fn erased_view(values: Seq<ErasedSummarizableVal>) -> Seq<ErasedView> {
    Seq::new(values.len(), |i: int| values[i]@)
}

/// The arguments that one participant supplies, in order.
pub struct SummarizableArguments(Vec<ErasedSummarizableVal>);

impl View for SummarizableArguments {
    type V = Seq<ErasedView>;

    closed spec fn view(&self) -> Seq<ErasedView> {
        erased_view(self.0@)
    }
}

/// The first `n` arguments with their symbolic expressions numbered as inputs, and the
/// number after them.
pub open spec fn abstracted_args(args: Seq<ErasedView>, next: usize, n: nat) -> (
    Seq<ErasedView>,
    usize,
)
    decreases n,
{
    if n == 0 {
        (Seq::empty(), next)
    } else {
        let before = abstracted_args(args, next, (n - 1) as nat);
        let last = abstracted(args[n - 1].tree, before.1);
        (before.0.push(ErasedView { tree: last.0, ..args[n - 1] }), last.1)
    }
}

/// Compares the first `n` arguments, up to the first that do not match.
pub open spec fn matched_upto(
    actual: Seq<ErasedView>,
    stored: Seq<ErasedView>,
    c: MatchView,
    n: nat,
) -> (bool, MatchView)
    decreases n,
{
    if n == 0 {
        (true, c)
    } else {
        let before = matched_upto(actual, stored, c, (n - 1) as nat);
        if before.0 {
            erased_matched(actual[n - 1], stored[n - 1], before.1)
        } else {
            before
        }
    }
}

/// Compares two argument lists.
pub open spec fn matched_args(actual: Seq<ErasedView>, stored: Seq<ErasedView>, c: MatchView) -> (
    bool,
    MatchView,
) {
    if actual.len() == stored.len() {
        matched_upto(actual, stored, c, actual.len())
    } else {
        (false, c)
    }
}

/// Reads arguments one after the other.
pub struct SummarizableArgumentCursor {
    values: Vec<ErasedSummarizableVal>,
    at: usize,
}

impl View for SummarizableArgumentCursor {
    type V = Seq<ErasedView>;

    /// The arguments that are left.
    closed spec fn view(&self) -> Seq<ErasedView> {
        if self.at < self.values@.len() {
            erased_view(self.values@).skip(self.at as int)
        } else {
            Seq::empty()
        }
    }
}

impl SummarizableArguments {
    pub fn new(values: Vec<ErasedSummarizableVal>) -> (a: Self)
        ensures
            a@ == erased_view(values@),
    {
        SummarizableArguments(values)
    }

    pub fn len(&self) -> (n: usize)
        ensures
            n == self@.len(),
    {
        self.0.len()
    }

    pub fn abstract_input(&self, context: &mut InputAbstraction) -> (a: Self)
        ensures
            a@ == abstracted_args(self@, old(context)@, self@.len()).0,
            final(context)@ == abstracted_args(self@, old(context)@, self@.len()).1,
    {
        let ghost views = self@;
        let ghost start = context@;
        let mut values: Vec<ErasedSummarizableVal> = Vec::new();
        let mut i: usize = 0;
        while i < self.0.len()
            invariant
                i <= self.0@.len(),
                views == erased_view(self.0@),
                erased_view(values@) == abstracted_args(views, start, i as nat).0,
                context@ == abstracted_args(views, start, i as nat).1,
            decreases self.0.len() - i,
        {
            assert(views[i as int] == self.0@[i as int]@);
            let ghost before = values@;
            let v = self.0[i].abstract_input(context);
            values.push(v);
            assert(erased_view(values@) =~= erased_view(before).push(v@));
            i += 1;
        }
        SummarizableArguments(values)
    }

    pub fn matches_stored_input(&self, stored: &Self, context: &mut MatchContext) -> (b: bool)
        ensures
            b == matched_args(self@, stored@, old(context)@).0,
            final(context)@ == matched_args(self@, stored@, old(context)@).1,
    {
        if self.0.len() != stored.0.len() {
            return false;
        }
        let ghost left = self@;
        let ghost right = stored@;
        let ghost start = context@;
        let mut ok = true;
        let mut i: usize = 0;
        while i < self.0.len()
            invariant
                i <= self.0@.len() == stored.0@.len(),
                left == erased_view(self.0@),
                right == erased_view(stored.0@),
                ok == matched_upto(left, right, start, i as nat).0,
                context@ == matched_upto(left, right, start, i as nat).1,
            decreases self.0.len() - i,
        {
            assert(left[i as int] == self.0@[i as int]@);
            assert(right[i as int] == stored.0@[i as int]@);
            if ok {
                ok = self.0[i].matches_stored_input(&stored.0[i], context);
            }
            i += 1;
        }
        ok
    }

    pub fn into_cursor(self) -> (c: SummarizableArgumentCursor)
        ensures
            c@ == self@,
    {
        let c = SummarizableArgumentCursor { values: self.0, at: 0 };
        assert(c@ =~= self@);
        c
    }

    /// Whether two argument lists are the same.
    pub fn same(&self, other: &Self) -> (b: bool)
        ensures
            b == (self@ == other@),
    {
        if self.0.len() != other.0.len() {
            assert(self@.len() != other@.len());
            return false;
        }
        let mut i: usize = 0;
        while i < self.0.len()
            invariant
                i <= self.0@.len() == other.0@.len(),
                forall|k: int| 0 <= k < i ==> (#[trigger] self.0@[k])@ == other.0@[k]@,
            decreases self.0.len() - i,
        {
            if !self.0[i].same(&other.0[i]) {
                assert(self@[i as int] != other@[i as int]);
                return false;
            }
            i += 1;
        }
        assert(self@ =~= other@);
        true
    }
}

impl Clone for SummarizableArguments {
    fn clone(&self) -> (r: Self)
        ensures
            r@ == self@,
    {
        let mut values: Vec<ErasedSummarizableVal> = Vec::new();
        let mut i: usize = 0;
        while i < self.0.len()
            invariant
                i <= self.0@.len(),
                values@.len() == i,
                forall|k: int| 0 <= k < i ==> (#[trigger] values@[k])@ == self.0@[k]@,
            decreases self.0.len() - i,
        {
            values.push(self.0[i].clone());
            i += 1;
        }
        let r = SummarizableArguments(values);
        assert(r@ =~= self@);
        r
    }
}

impl SummarizableArgumentCursor {
    /// The next argument; none where no argument is left or where it is of another type.
    pub fn next<T: SummarizableVal>(&mut self) -> (r: Option<T>)
        ensures
            r is Some == (old(self)@.len() > 0 && old(self)@[0].kind == T::kind_text() && T::fits(
                old(self)@[0].tree,
            )),
            r matches Some(v) ==> v.tree() == old(self)@[0].tree,
            final(self)@ == (if old(self)@.len() > 0 {
                old(self)@.skip(1)
            } else {
                old(self)@
            }),
    {
        if self.at >= self.values.len() {
            return None;
        }
        let v = self.values[self.at].clone();
        assert(self@[0] == v@);
        self.at = self.at + 1;
        assert(self@ =~= old(self)@.skip(1));
        v.into_typed::<T>()
    }

    /// Whether no argument is left.
    pub fn finish(self) -> (b: bool)
        ensures
            b == (self@.len() == 0),
    {
        self.at >= self.values.len()
    }
}

} // verus!
