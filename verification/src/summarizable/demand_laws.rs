//! Laws of what participants demand of each other.
use super::participants::{
    ascends, comes_from, is_kept, normal_form, resolver_of, sorted_of, with_missing, PartView,
    ParticipationMode,
};
use crate::event::ThreadId;
use vstd::prelude::*;

verus! {

/// Threads that are demanded in addition come behind those that are, each once: nobody is
/// left out, and nobody comes twice who did not before.
pub proof fn law_demands_are_added_once(list: Seq<ThreadId>, more: Seq<ThreadId>, n: nat)
    requires
        n <= more.len(),
    ensures
        ({
            let all = with_missing(list, more, n);
            &&& all.len() >= list.len() && all.take(list.len() as int) == list
            &&& forall|t: ThreadId| #[trigger]
                all.contains(t) <==> list.contains(t) || more.take(n as int).contains(t)
            &&& list.no_duplicates() ==> all.no_duplicates()
        }),
    decreases n,
{
    let all = with_missing(list, more, n);
    if n == 0 {
        assert(list.take(list.len() as int) =~= list);
    } else {
        law_demands_are_added_once(list, more, (n - 1) as nat);
        let before = with_missing(list, more, (n - 1) as nat);
        let last = more[n - 1];
        let part = more.take(n as int);
        assert(part =~= more.take(n - 1).push(last));
        assert(all.take(list.len() as int) =~= before.take(list.len() as int));
        assert forall|t: ThreadId| #[trigger]
            all.contains(t) <==> list.contains(t) || part.contains(t) by {
            assert(before.contains(t) <==> list.contains(t) || more.take(n - 1).contains(t));
            if part.contains(t) && t != last {
                let k = choose|k: int| 0 <= k < part.len() && part[k] == t;
                assert(more.take(n - 1)[k] == t);
            }
            if more.take(n - 1).contains(t) {
                let k = choose|k: int| 0 <= k < n - 1 && #[trigger] more.take(n - 1)[k] == t;
                assert(part[k] == t);
            }
            if t == last {
                assert(part[n - 1] == t);
                if !before.contains(last) {
                    assert(all[before.len() as int] == t);
                }
            }
            if before.contains(t) {
                let k = choose|k: int| 0 <= k < before.len() && before[k] == t;
                assert(all[k] == t);
            }
            if all.contains(t) && !before.contains(t) {
                let k = choose|k: int| 0 <= k < all.len() && all[k] == t;
                assert(k == before.len());
            }
        }
        if list.no_duplicates() && !before.contains(last) {
            assert forall|i: int, j: int|
                0 <= i < all.len() && 0 <= j < all.len() && i != j implies all[i] != all[j] by {
                if i == before.len() {
                    assert(before.contains(before[j]));
                } else if j == before.len() {
                    assert(before.contains(before[i]));
                }
            }
        }
    }
}

/// Whether the lists have the same members.
pub open spec fn same_members(a: Seq<ThreadId>, b: Seq<ThreadId>) -> bool {
    &&& forall|i: int| 0 <= i < a.len() ==> b.contains(#[trigger] a[i])
    &&& forall|i: int| 0 <= i < b.len() ==> a.contains(#[trigger] b[i])
}

/// Whether one of the lists has the members of `list`.
pub open spec fn is_among(list: Seq<ThreadId>, lists: Seq<Seq<ThreadId>>) -> bool {
    exists|j: int| 0 <= j < lists.len() && same_members(list, #[trigger] lists[j])
}

proof fn lemma_sorted_of(list: Seq<ThreadId>, new: Seq<ThreadId>)
    requires
        sorted_of(list, new),
    ensures
        same_members(list, new),
        ascends(new),
{
    reveal(sorted_of);
    assert forall|i: int| 0 <= i < list.len() implies new.contains(#[trigger] list[i]) by {
        assert(list.contains(list[i]));
    }
    assert forall|i: int| 0 <= i < new.len() implies list.contains(#[trigger] new[i]) by {
        assert(new.contains(new[i]));
    }
}

/// Demands in their one form demand what they did, but that nobody demands itself: the same
/// role, the same threads, and of each list of alternatives the same threads.
pub proof fn law_normal_forms_demand_the_same(p: PartView, caller: ThreadId, new: PartView)
    requires
        normal_form(p, caller, new),
    ensures
        new.mode == p.mode,
        resolver_of(new, caller) == resolver_of(p, caller),
        forall|i: int|
            0 <= i < p.required.len() && (#[trigger] p.required[i]) != caller
                ==> new.required.contains(p.required[i]),
        forall|i: int|
            0 <= i < new.required.len() ==> p.required.contains(#[trigger] new.required[i])
                && new.required[i] != caller,
        forall|i: int, j: int|
            0 <= i < j < new.required.len() ==> (#[trigger] new.required[i]).id < (
            #[trigger] new.required[j]).id,
        forall|i: int|
            0 <= i < p.exactly_one.len() ==> is_among(#[trigger] p.exactly_one[i], new.exactly_one),
        forall|i: int|
            0 <= i < new.exactly_one.len() ==> is_among(
                #[trigger] new.exactly_one[i],
                p.exactly_one,
            ) && ascends(new.exactly_one[i]),
{
    assert forall|i: int|
        0 <= i < p.required.len() && (#[trigger] p.required[i])
            != caller implies new.required.contains(p.required[i]) by {
        assert(p.required.contains(p.required[i]));
    }
    assert forall|i: int| 0 <= i < new.required.len() implies p.required.contains(
        #[trigger] new.required[i],
    ) && new.required[i] != caller by {
        assert(new.required.contains(new.required[i]));
    }
    let n = p.exactly_one.len() as int;
    assert forall|i: int| 0 <= i < p.exactly_one.len() implies is_among(
        #[trigger] p.exactly_one[i],
        new.exactly_one,
    ) by {
        assert(is_kept(p.exactly_one[i], new.exactly_one));
        lemma_among(p.exactly_one[i], new.exactly_one);
    }
    assert forall|i: int| 0 <= i < new.exactly_one.len() implies is_among(
        #[trigger] new.exactly_one[i],
        p.exactly_one,
    ) && ascends(new.exactly_one[i]) by {
        assert(comes_from(new.exactly_one[i], p.exactly_one, n));
        lemma_from(new.exactly_one[i], p.exactly_one);
    }
}

proof fn lemma_among(list: Seq<ThreadId>, new: Seq<Seq<ThreadId>>)
    requires
        is_kept(list, new),
    ensures
        is_among(list, new),
{
    let i = choose|i: int| 0 <= i < new.len() && #[trigger] sorted_of(list, new[i]);
    lemma_sorted_of(list, new[i]);
}

proof fn lemma_from(new: Seq<ThreadId>, lists: Seq<Seq<ThreadId>>)
    requires
        comes_from(new, lists, lists.len() as int),
    ensures
        is_among(new, lists),
        ascends(new),
{
    let j = choose|j: int| 0 <= j < lists.len() && #[trigger] sorted_of(lists[j], new);
    lemma_sorted_of(lists[j], new);
    assert(same_members(new, lists[j]));
}

/// A call is resolved by its caller where the caller resolves, and by the thread that it
/// joins otherwise.
pub proof fn law_callers_resolve_or_join(p: PartView, caller: ThreadId, other: ThreadId)
    ensures
        p.mode is Resolve ==> resolver_of(p, caller) == caller,
        p.mode == ParticipationMode::Join(other) ==> resolver_of(p, caller) == other,
{
}

} // verus!
