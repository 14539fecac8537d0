//! What rounds keep, however the threads go on.

use super::counter;
use super::counter::{CountView, RoundFault, RoundId, Turn};
use super::round::{
    compiled, current_of, entered, filter_ok, following, has_codec, judgements, key_ok,
    law_codecs_decode, level_at, level_of, levels_ok, lows, same_key, spec_of, CodecView,
    DefaultMatch, KeySpec, LevelKind, LevelSpec, Place, RoundEnum, RoundKey, RoundOrder, RoundsView,
    SchemeView,
};
use super::rounds::{
    can_go, changed, earlier, has_level, number_after, number_of, round_ok, RoundView,
};
use super::set::KeyedPredicate;
use super::transport::{receive_bounds, FromRoundOn, RoundPredicate, SameRound, WordScheme};
use crate::event::ThreadId;
use crate::loc::RecvPredicate;
use vstd::prelude::*;

verus! {

/// Going on or going to a number at a level changes that level alone, but for the levels
/// after it, which start again at their lowest numbers.
pub proof fn law_later_levels_start_again(r: RoundView, level: int, v: u32)
    requires
        round_ok(r),
        0 <= level < r.stamp.len(),
    ensures
        ({
            let after = changed(r, level, v);
            &&& round_ok(after)
            &&& after.scheme == r.scheme
            &&& after.stamp[level] == v
            &&& forall|i: int| 0 <= i < level ==> #[trigger] after.stamp[i] == r.stamp[i]
            &&& forall|i: int|
                level < i < r.stamp.len() ==> #[trigger] after.stamp[i] == r.scheme.levels[i].low
        }),
{
}

/// A level of numbers goes on by one, up to the largest number.
pub proof fn law_numbers_go_on_by_one(s: SchemeView, level: int, v: u32)
    requires
        0 <= level < s.levels.len(),
        s.levels[level].kind is U32,
    ensures
        number_after(s, level, v) is None <==> v == u32::MAX,
        number_after(s, level, v) matches Some(w) ==> w == v + 1,
{
}

/// A level of steps goes on to the step with the next code, and ends where there is none.
pub proof fn law_steps_go_on_in_their_order<E: RoundEnum>(s: SchemeView, level: int, v: u32, e: E)
    requires
        0 <= level < s.levels.len(),
        s.levels[level].kind == (LevelKind::Enum { enum_type: E::kind() }),
        has_codec::<E>(s.codecs),
        E::decoded(v) == Some(e),
    ensures
        number_after(s, level, v) matches Some(w) ==> e.code() < u32::MAX && (E::decoded(
            (e.code() + 1) as u32,
        ) matches Some(next) && w == next.code()),
        number_after(s, level, v) is None ==> e.code() == u32::MAX || E::decoded(
            (e.code() + 1) as u32,
        ) is None,
{
    law_codecs_decode::<E>(v);
}

/// The first level at which two rounds differ decides which of them is earlier.
pub proof fn law_first_difference_decides(a: Seq<u32>, b: Seq<u32>, level: int)
    requires
        a.len() == b.len(),
        0 <= level < a.len(),
        forall|i: int| 0 <= i < level ==> #[trigger] a[i] == b[i],
        a[level] < b[level],
    ensures
        earlier(a, b),
        !earlier(b, a),
{
    if earlier(b, a) {
        let i = choose|i: int|
            0 <= i < b.len() && i < a.len() && #[trigger] b[i] < a[i] && forall|j: int|
                0 <= j < i ==> #[trigger] b[j] == a[j];
        if i < level {
            assert(a[i] == b[i]);
        } else if i > level {
            assert(b[level] == a[level]);
        }
    }
}

/// Where two rounds first differ, from `n` on.
proof fn lemma_first_difference(a: Seq<u32>, b: Seq<u32>, n: int) -> (level: int)
    requires
        a.len() == b.len(),
        0 <= n <= a.len(),
        forall|i: int| 0 <= i < n ==> #[trigger] a[i] == b[i],
        a != b,
    ensures
        0 <= level < a.len(),
        a[level] != b[level],
        forall|i: int| 0 <= i < level ==> #[trigger] a[i] == b[i],
    decreases a.len() - n,
{
    if n == a.len() {
        assert(a =~= b);
        0
    } else if a[n] != b[n] {
        n
    } else {
        lemma_first_difference(a, b, n + 1)
    }
}

/// Of two different rounds one is earlier and the other is not; no round is earlier than
/// itself; and what is earlier than an earlier round is earlier.
pub proof fn law_rounds_stand_in_one_order(a: Seq<u32>, b: Seq<u32>, c: Seq<u32>)
    requires
        a.len() == b.len(),
        b.len() == c.len(),
    ensures
        !earlier(a, a),
        a != b ==> earlier(a, b) != earlier(b, a),
        earlier(a, b) && earlier(b, c) ==> earlier(a, c),
{
    if a != b {
        let level = lemma_first_difference(a, b, 0);
        if a[level] < b[level] {
            law_first_difference_decides(a, b, level);
        } else {
            law_first_difference_decides(b, a, level);
        }
    }
    if earlier(a, b) && earlier(b, c) {
        let i = choose|i: int|
            0 <= i < a.len() && i < b.len() && #[trigger] a[i] < b[i] && forall|j: int|
                0 <= j < i ==> #[trigger] a[j] == b[j];
        let k = choose|k: int|
            0 <= k < b.len() && k < c.len() && #[trigger] b[k] < c[k] && forall|j: int|
                0 <= j < k ==> #[trigger] b[j] == c[j];
        if i <= k {
            assert(a[i] < c[i]) by {
                if i < k {
                    assert(b[i] == c[i]);
                }
            }
            assert forall|j: int| 0 <= j < i implies #[trigger] a[j] == c[j] by {
                assert(b[j] == c[j]);
            }
        } else {
            assert(a[k] == b[k]);
            assert(a[k] < c[k]);
            assert forall|j: int| 0 <= j < k implies #[trigger] a[j] == c[j] by {
                assert(b[j] == c[j]);
            }
        }
    }
}

/// A thread may go to a number at a level exactly if the number grows or nothing changes.
pub proof fn law_rounds_are_gone_to_forward(r: RoundView, level: int, v: u32)
    requires
        round_ok(r),
        0 <= level < r.stamp.len(),
    ensures
        can_go(r, level, v) <==> v > r.stamp[level] || changed(r, level, v) == r,
        can_go(r, level, v) && changed(r, level, v) != r ==> earlier(
            r.stamp,
            changed(r, level, v).stamp,
        ),
{
    let after = changed(r, level, v);
    assert(after.stamp[level] == v);
    if v > r.stamp[level] {
        law_first_difference_decides(r.stamp, after.stamp, level);
    } else if can_go(r, level, v) {
        assert(after.stamp =~= r.stamp);
        assert(after =~= r);
    } else if after == r {
        assert forall|i: int| level < i < r.stamp.len() implies #[trigger] r.stamp[i]
            == r.scheme.levels[i].low by {
            assert(after.stamp[i] == r.scheme.levels[i].low);
        }
    }
}

/// A thread begins in the round in which every level has its lowest number.
pub proof fn law_rounds_begin_low(levels: Seq<LevelSpec>, i: int)
    requires
        0 <= i < levels.len(),
    ensures
        lows(levels).len() == levels.len(),
        lows(levels)[i] == levels[i].low,
{
}

proof fn lemma_level_at(levels: Seq<LevelSpec>, key: KeySpec, n: nat)
    requires
        n <= levels.len(),
    ensures
        match level_at(levels, key, n) {
            Some(i) => 0 <= i < n && levels[i].key_type == key.key_type && levels[i].key_index
                == key.key_index && forall|j: int|
                0 <= j < i ==> (#[trigger] levels[j]).key_type != key.key_type
                    || levels[j].key_index != key.key_index,
            None => forall|j: int|
                0 <= j < n ==> (#[trigger] levels[j]).key_type != key.key_type
                    || levels[j].key_index != key.key_index,
        },
    decreases n,
{
    if n > 0 {
        lemma_level_at(levels, key, (n - 1) as nat);
    }
}

/// A key stands for the one level that was made for it, if there is one.
pub proof fn law_keys_stand_for_their_levels<K: RoundKey>(
    levels: Seq<LevelSpec>,
    codecs: Seq<(u64, CodecView)>,
    key: K,
    i: int,
)
    requires
        levels_ok(levels, codecs),
        key_ok(key),
        0 <= i < levels.len(),
    ensures
        level_of(levels, key) == Some(i) <==> levels[i].key_type == K::kind()
            && levels[i].key_index as int == key.place() as int,
{
    lemma_level_at(levels, spec_of(key), levels.len());
    if levels[i].key_type == K::kind() && levels[i].key_index as int == key.place() as int {
        let k = level_of(levels, key)->0;
        if k < i {
            assert(same_key(levels[k], levels[i]));
        } else if i < k {
            assert(same_key(levels[i], levels[k]));
        }
    }
}

/// The round is read at a level as it was put there.
pub proof fn law_levels_are_read_as_they_were_set<K: RoundKey>(r: RoundView, key: K, v: u32)
    requires
        round_ok(r),
        has_level(r, key),
    ensures
        number_of(changed(r, level_of(r.scheme.levels, key)->0, v), key) == v,
{
    lemma_level_at(r.scheme.levels, spec_of(key), r.scheme.levels.len());
}

proof fn lemma_judgements(levels: Seq<LevelSpec>, matches: Seq<(KeySpec, DefaultMatch)>, n: nat)
    requires
        filter_ok(levels, matches),
        n <= matches.len(),
    ensures
        judgements(levels, matches, n).len() == levels.len(),
        forall|i: int, k: int|
            0 <= i < levels.len() && 0 <= k < n && #[trigger] judged_last(levels, matches, i, k, n)
                ==> judgements(levels, matches, n)[i] == matches[k].1,
        forall|i: int|
            0 <= i < levels.len() && !judged(levels, matches, i, n) ==> #[trigger] judgements(
                levels,
                matches,
                n,
            )[i] == DefaultMatch::Any,
    decreases n,
{
    if n > 0 {
        let m = (n - 1) as nat;
        lemma_judgements(levels, matches, m);
        let before = judgements(levels, matches, m);
        let after = judgements(levels, matches, n);
        assert(level_at(levels, matches[n - 1].0, levels.len()) is Some);
        lemma_level_at(levels, matches[n - 1].0, levels.len());
        let at = level_at(levels, matches[n - 1].0, levels.len())->0;
        assert forall|i: int, k: int|
            0 <= i < levels.len() && 0 <= k < n && #[trigger] judged_last(
                levels,
                matches,
                i,
                k,
                n,
            ) implies after[i] == matches[k].1 by {
            if k < m {
                assert(level_at(levels, matches[n - 1].0, levels.len()) != Some(i));
                assert(judged_last(levels, matches, i, k, m));
            }
        }
        assert forall|i: int|
            0 <= i < levels.len() && !judged(levels, matches, i, n) implies #[trigger] after[i]
            == DefaultMatch::Any by {
            assert(level_at(levels, matches[n - 1].0, levels.len()) != Some(i));
            assert(!judged(levels, matches, i, m));
            assert(before[i] == DefaultMatch::Any);
        }
    }
}

/// Whether of the first `n` judgements of a filter that at `k` is the last one on level `i`.
pub open spec fn judged_last(
    levels: Seq<LevelSpec>,
    matches: Seq<(KeySpec, DefaultMatch)>,
    i: int,
    k: int,
    n: nat,
) -> bool {
    level_at(levels, matches[k].0, levels.len()) == Some(i) && forall|j: int|
        k < j < n ==> level_at(levels, (#[trigger] matches[j]).0, levels.len()) != Some(i)
}

/// Whether one of the first `n` judgements of a filter is on level `i`.
pub open spec fn judged(
    levels: Seq<LevelSpec>,
    matches: Seq<(KeySpec, DefaultMatch)>,
    i: int,
    n: nat,
) -> bool {
    exists|k: int|
        0 <= k < n && level_at(levels, (#[trigger] matches[k]).0, levels.len()) == Some(i)
}

/// A filter judges each level as it was told last, and lets everything pass at a level of
/// which it was told nothing. It has the order of its own, or else that of the scheme.
pub proof fn law_filters_judge_as_they_were_told(
    levels: Seq<LevelSpec>,
    order: Option<RoundOrder>,
    matches: Seq<(KeySpec, DefaultMatch)>,
    default_order: RoundOrder,
    i: int,
)
    requires
        filter_ok(levels, matches),
        0 <= i < levels.len(),
    ensures
        ({
            let f = compiled(levels, order, matches, default_order);
            &&& f.matches.len() == levels.len()
            &&& forall|k: int|
                0 <= k < matches.len() && #[trigger] judged_last(
                    levels,
                    matches,
                    i,
                    k,
                    matches.len(),
                ) ==> f.matches[i] == matches[k].1
            &&& !judged(levels, matches, i, matches.len()) ==> f.matches[i] == DefaultMatch::Any
            &&& order matches Some(o) ==> f.order == o
            &&& order is None ==> f.order == default_order
        }),
{
    lemma_judgements(levels, matches, matches.len());
}

/// A thread is in the round that it entered; the other threads of the execution stay where
/// they were; in another execution, or with another model checker, no thread has entered a
/// round yet.
pub proof fn law_threads_stay_in_their_rounds(s: RoundsView, at: Place, stamp: Seq<u32>, other: Place)
    ensures
        ({
            let after = entered(s, at, stamp);
            let same = other.execution_id == at.execution_id && other.must_id == at.must_id;
            &&& current_of(after, at) == Some(stamp)
            &&& same && other.tid != at.tid ==> current_of(after, other) == current_of(s, other)
            &&& !same ==> current_of(after, other) is None
        }),
{
}

/// A thread is in the round that it counted up to; the other threads of the execution stay
/// where they were; in another execution all threads begin at zero.
pub proof fn law_counted_rounds_are_kept_apart(s: CountView, turn: Turn, n: u32, other: Turn)
    ensures
        ({
            let after = counter::with_round(s, turn, n);
            let same = other.execution_id == turn.execution_id;
            &&& counter::round_of(after, turn) == n
            &&& same && other.tid != turn.tid ==> counter::round_of(after, other)
                == counter::round_of(s, other)
            &&& !same ==> counter::round_of(after, other) == 0
            &&& counter::round_of(counter::looked_at(s, turn), turn) == counter::round_of(s, turn)
        }),
{
}

/// A message can be read in a round exactly if the round is the current one of the running
/// thread and the message was not sent in an earlier one.
pub proof fn law_messages_are_read_in_the_current_round(
    s: CountView,
    turn: Turn,
    round: counter::Round,
    sent_in: RoundId,
)
    ensures
        counter::message_fault(s, turn, round, sent_in) is None <==> round.thread == turn.tid
            && round.id.0 == counter::round_of(s, turn) && sent_in.0 >= round.id.0,
        round.thread != turn.tid ==> counter::message_fault(s, turn, round, sent_in) == Some(
            RoundFault::WrongThread,
        ),
        round.thread == turn.tid && round.id.0 != counter::round_of(s, turn)
            ==> counter::message_fault(s, turn, round, sent_in) == Some(RoundFault::NotCurrent),
        counter::message_fault(s, turn, round, sent_in) == Some(RoundFault::EarlierMessage)
            ==> sent_in.0 < round.id.0,
{
}

/// A receiver of its own round alone accepts a message exactly if it was sent in that
/// round. A message without a round is not accepted.
pub proof fn law_same_round_alone<R: WordScheme>(
    p: RoundPredicate<R, SameRound>,
    sender: ThreadId,
    round: R,
)
    ensures
        p.accepted(sender, Some(round.words())) <==> round == p.local,
        !p.accepted(sender, None),
{
    round.lemma_read();
}

/// A receiver from its own round on accepts a message exactly if it was sent in no earlier
/// round. A message without a round is not accepted.
pub proof fn law_own_round_and_later_ones(
    p: RoundPredicate<u32, FromRoundOn>,
    sender: ThreadId,
    round: u32,
)
    ensures
        p.accepted(sender, Some(seq![round])) <==> round >= p.local,
        !p.accepted(sender, None),
{
}

/// A receiver of a key and its round accepts a message exactly if it has that key and was
/// sent in that round. A message without a key is not accepted.
pub proof fn law_same_key_and_round_alone<K: WordScheme, R: WordScheme>(
    p: KeyedPredicate<K, R, SameRound>,
    sender: ThreadId,
    key: K,
    round: R,
)
    requires
        K::length() + R::length() <= usize::MAX,
    ensures
        p.accepted(sender, Some(key.words() + round.words())) <==> key == p.key && round == p.local,
        !p.accepted(sender, None),
{
    super::set::law_set_tags_are_read_back(key, round);
}

/// An inbox can be read by single receives exactly if its bounds leave a number of them
/// that is known: no more than the upper bound and no fewer than the lower one; without an
/// upper bound as many as the lower one, of which there must be some.
pub proof fn law_single_receives_keep_the_bounds(
    min: usize,
    max: Option<usize>,
    low: usize,
    high: usize,
)
    ensures
        receive_bounds(min, max) == Some((low, high)) <==> low == min && low <= high && (max
            == Some(high) || (max is None && high == min && min > 0)),
        receive_bounds(min, max) is None <==> (max is None && min == 0) || (max matches Some(m)
            && m < min),
{
}

/// The step after a step has the next code; there is none exactly where that code is no
/// step's.
pub proof fn law_the_next_step_has_the_next_code<E: RoundEnum>(e: E)
    ensures
        e.code() < u32::MAX ==> following(e) == E::decoded((e.code() + 1) as u32),
        e.code() == u32::MAX ==> following(e) is None,
{
}

} // verus!
