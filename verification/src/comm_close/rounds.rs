//! The round that a thread is in, and how it goes on.

use super::round::{
    code_after, codec_of, current_of, entered, is_code, key_ok, level_of, lows, synced, LevelKind,
    Place, RoundEnum, RoundKey, RoundScheme, RoundStamp, RoundState, SchemeView,
};
use vstd::prelude::*;

verus! {

/// A round that a thread was in.
pub struct Round {
    scheme: RoundScheme,
    stamp: RoundStamp,
}

/// A round as the contracts see it.
#[verifier::ext_equal]
pub struct RoundView {
    pub scheme: SchemeView,
    pub stamp: Seq<u32>,
}

impl View for Round {
    type V = RoundView;

    closed spec fn view(&self) -> RoundView {
        RoundView { scheme: self.scheme@, stamp: self.stamp@ }
    }
}

/// Whether a round has a number for each level.
pub open spec fn round_ok(r: RoundView) -> bool {
    r.stamp.len() == r.scheme.levels.len()
}

/// Whether the round has a level for the key.
pub open spec fn has_level<K: RoundKey>(r: RoundView, key: K) -> bool {
    key_ok(key) && level_of(r.scheme.levels, key) is Some
}

/// The number of the key's level.
pub open spec fn number_of<K: RoundKey>(r: RoundView, key: K) -> u32 {
    r.stamp[level_of(r.scheme.levels, key)->0]
}

impl Round {
    pub fn stamp(&self) -> (s: RoundStamp)
        ensures
            s@ == self@.stamp,
    {
        self.stamp.clone()
    }

    pub fn components(&self) -> (c: &Vec<u32>)
        ensures
            c@ == self@.stamp,
    {
        self.stamp.components()
    }

    pub fn scheme(&self) -> (s: &RoundScheme)
        ensures
            s@ == self@.scheme,
    {
        &self.scheme
    }

    /// The number of the key's level.
    pub fn get_u32<K: RoundKey>(&self, key: K) -> (v: u32)
        requires
            round_ok(self@),
            has_level(self@, key),
        ensures
            v == number_of(self@, key),
    {
        let i = self.scheme.key_position(key);
        self.stamp.components()[i]
    }

    /// The step of the key's level.
    pub fn get_enum<K: RoundKey, E: RoundEnum>(&self, key: K) -> (e: E)
        requires
            round_ok(self@),
            has_level(self@, key),
            E::decoded(number_of(self@, key)) is Some,
        ensures
            E::decoded(number_of(self@, key)) == Some(e),
    {
        E::try_from_u32(self.get_u32(key)).unwrap()
    }

    /// Whether the thread at `at` is in this round.
    pub fn assert_current(&self, state: &mut RoundState, at: Place) -> (b: bool)
        ensures
            b == (current_of(old(state)@, at) == Some(self@.stamp)),
            final(state)@ == synced(old(state)@, at),
    {
        match state.current_round_stamp_for_send(at) {
            None => false,
            Some(current) => crate::loc::words_equal(current.components(), self.stamp.components()),
        }
    }
}

impl Clone for Round {
    fn clone(&self) -> (r: Self)
        ensures
            r@ == self@,
    {
        Round { scheme: self.scheme.clone(), stamp: self.stamp.clone() }
    }
}

/// The rounds of a thread.
pub struct Rounds {
    scheme: RoundScheme,
    now: RoundStamp,
}

/// A round with another number at `level`, and the lowest ones at the levels after it.
pub open spec fn changed(r: RoundView, level: int, v: u32) -> RoundView {
    RoundView {
        stamp: Seq::new(
            r.stamp.len(),
            |i: int|
                if i < level {
                    r.stamp[i]
                } else if i == level {
                    v
                } else {
                    r.scheme.levels[i].low
                },
        ),
        ..r
    }
}

/// The number after `v` at a level.
pub open spec fn number_after(s: SchemeView, level: int, v: u32) -> Option<u32> {
    match s.levels[level].kind {
        LevelKind::U32 => if v < u32::MAX {
            Some((v + 1) as u32)
        } else {
            None
        },
        LevelKind::Enum { enum_type } => match codec_of(s.codecs, enum_type, s.codecs.len()) {
            None => None,
            Some(c) => if is_code(c, v) {
                code_after(c, v)
            } else {
                None
            },
        },
    }
}

/// Whether the number at `level` can become `v`: it does not decrease, and the levels
/// after it are not reset without an advance.
pub open spec fn can_go(r: RoundView, level: int, v: u32) -> bool {
    &&& v >= r.stamp[level]
    &&& v == r.stamp[level] ==> forall|i: int|
        level < i < r.stamp.len() ==> #[trigger] r.stamp[i] == r.scheme.levels[i].low
}

/// Whether `a` comes before `b` at the first level at which they differ.
pub open spec fn earlier(a: Seq<u32>, b: Seq<u32>) -> bool {
    exists|i: int|
        0 <= i < a.len() && i < b.len() && #[trigger] a[i] < b[i] && forall|j: int|
            0 <= j < i ==> #[trigger] a[j] == b[j]
}

fn stamp_earlier(a: &Vec<u32>, b: &Vec<u32>) -> (r: bool)
    requires
        a@.len() == b@.len(),
    ensures
        r == earlier(a@, b@),
{
    let mut i: usize = 0;
    while i < a.len()
        invariant
            i <= a@.len() == b@.len(),
            forall|j: int| 0 <= j < i ==> #[trigger] a@[j] == b@[j],
        decreases a.len() - i,
    {
        if a[i] < b[i] {
            assert(earlier(a@, b@));
            return true;
        }
        if a[i] > b[i] {
            assert forall|k: int|
                0 <= k < a@.len() && #[trigger] a@[k] < b@[k] implies exists|j: int|
                0 <= j < k && #[trigger] a@[j] != b@[j] by {
                assert(k > i);
                assert(a@[i as int] != b@[i as int]);
            }
            return false;
        }
        i += 1;
    }
    false
}

impl Clone for Rounds {
    fn clone(&self) -> (r: Self)
        ensures
            r.here() == self.here(),
    {
        Rounds { scheme: self.scheme.clone(), now: self.now.clone() }
    }
}

impl Rounds {
    /// The round that the thread is in.
    pub closed spec fn here(&self) -> RoundView {
        RoundView { scheme: self.scheme@, stamp: self.now@ }
    }

    /// The lowest round.
    pub fn with_scheme(scheme: RoundScheme, state: &mut RoundState, at: Place) -> (r: Self)
        ensures
            round_ok(r.here()),
            r.here() == (RoundView { scheme: scheme@, stamp: lows(scheme@.levels) }),
            final(state)@ == entered(old(state)@, at, r.here().stamp),
    {
        let now = RoundStamp::from_components(scheme.low_components());
        state.set_current_round_stamp(at, &now);
        Rounds { scheme, now }
    }

    pub fn scheme(&self) -> (s: &RoundScheme)
        ensures
            s@ == self.here().scheme,
    {
        &self.scheme
    }

    /// The round that the thread is in.
    pub fn current(&self, state: &mut RoundState, at: Place) -> (r: Round)
        ensures
            r@ == self.here(),
            final(state)@ == entered(old(state)@, at, self.here().stamp),
    {
        state.set_current_round_stamp(at, &self.now);
        Round { scheme: self.scheme.clone(), stamp: self.now.clone() }
    }

    /// Reads a stamp by the levels of these rounds.
    pub fn view<'a>(&'a self, stamp: &'a RoundStamp) -> (v: RoundStampView<'a>)
        ensures
            v@ == (RoundView { scheme: self.here().scheme, stamp: stamp@ }),
    {
        RoundStampView { scheme: &self.scheme, stamp }
    }

    /// Goes on to the next round.
    pub fn advance_round(&mut self, state: &mut RoundState, at: Place) -> (r: Round)
        requires
            round_ok(old(self).here()),
            old(self).here().stamp.len() > 0,
            number_after(old(self).here().scheme, 0, old(self).here().stamp[0]) is Some,
        ensures
            round_ok(final(self).here()),
            final(self).here() == changed(
                old(self).here(),
                0,
                number_after(old(self).here().scheme, 0, old(self).here().stamp[0])->0,
            ),
            r@ == final(self).here(),
            final(state)@ == entered(old(state)@, at, r@.stamp),
    {
        self.advance_level_index(0, state, at)
    }

    /// Goes on at the key's level.
    pub fn advance<K: RoundKey>(&mut self, key: K, state: &mut RoundState, at: Place) -> (r: Round)
        requires
            round_ok(old(self).here()),
            has_level(old(self).here(), key),
            number_after(
                old(self).here().scheme,
                level_of(old(self).here().scheme.levels, key)->0,
                number_of(old(self).here(), key),
            ) is Some,
        ensures
            round_ok(final(self).here()),
            final(self).here() == changed(
                old(self).here(),
                level_of(old(self).here().scheme.levels, key)->0,
                number_after(
                    old(self).here().scheme,
                    level_of(old(self).here().scheme.levels, key)->0,
                    number_of(old(self).here(), key),
                )->0,
            ),
            r@ == final(self).here(),
            final(state)@ == entered(old(state)@, at, r@.stamp),
    {
        let i = self.scheme.key_position(key);
        self.advance_level_index(i, state, at)
    }

    /// Goes to a number at the key's level.
    pub fn goto_u32<K: RoundKey>(
        &mut self,
        key: K,
        value: u32,
        state: &mut RoundState,
        at: Place,
    ) -> (r: Round)
        requires
            round_ok(old(self).here()),
            has_level(old(self).here(), key),
            old(self).here().scheme.levels[level_of(old(self).here().scheme.levels, key)->0].kind is U32,
            can_go(old(self).here(), level_of(old(self).here().scheme.levels, key)->0, value),
        ensures
            round_ok(final(self).here()),
            final(self).here() == changed(
                old(self).here(),
                level_of(old(self).here().scheme.levels, key)->0,
                value,
            ),
            r@ == final(self).here(),
            final(state)@ == entered(old(state)@, at, r@.stamp),
    {
        let i = self.scheme.key_position(key);
        self.set_level_value(i, value, state, at)
    }

    /// Goes to a step at the key's level.
    pub fn goto_enum<K: RoundKey, E: RoundEnum>(
        &mut self,
        key: K,
        value: E,
        state: &mut RoundState,
        at: Place,
    ) -> (r: Round)
        requires
            round_ok(old(self).here()),
            has_level(old(self).here(), key),
            old(self).here().scheme.levels[level_of(old(self).here().scheme.levels, key)->0].kind is Enum,
            can_go(old(self).here(), level_of(old(self).here().scheme.levels, key)->0, value.code()),
        ensures
            round_ok(final(self).here()),
            final(self).here() == changed(
                old(self).here(),
                level_of(old(self).here().scheme.levels, key)->0,
                value.code(),
            ),
            r@ == final(self).here(),
            final(state)@ == entered(old(state)@, at, r@.stamp),
    {
        let i = self.scheme.key_position(key);
        self.set_level_value(i, value.to_u32(), state, at)
    }

    /// Goes to a round that is not earlier.
    pub fn jump(&mut self, stamp: &RoundStamp, state: &mut RoundState, at: Place) -> (r: Round)
        requires
            round_ok(old(self).here()),
            stamp@.len() == old(self).here().scheme.levels.len(),
            !earlier(stamp@, old(self).here().stamp),
        ensures
            round_ok(final(self).here()),
            final(self).here() == (RoundView { stamp: stamp@, ..old(self).here() }),
            r@ == final(self).here(),
            final(state)@ == entered(old(state)@, at, r@.stamp),
    {
        let ghost before = self.now@;
        if stamp_earlier(self.now.components(), stamp.components()) {
            self.now = stamp.clone();
        } else {
            proof {
                lemma_not_earlier(before, stamp@, 0);
            }
        }
        self.current(state, at)
    }

    /// Goes to a round if it is later.
    pub fn jump_if_future(&mut self, stamp: &RoundStamp, state: &mut RoundState, at: Place) -> (r:
        Round)
        requires
            round_ok(old(self).here()),
            stamp@.len() == old(self).here().scheme.levels.len(),
        ensures
            round_ok(final(self).here()),
            final(self).here() == (if earlier(old(self).here().stamp, stamp@) {
                RoundView { stamp: stamp@, ..old(self).here() }
            } else {
                old(self).here()
            }),
            r@ == final(self).here(),
            final(state)@ == entered(old(state)@, at, r@.stamp),
    {
        if stamp_earlier(self.now.components(), stamp.components()) {
            self.now = stamp.clone();
        }
        self.current(state, at)
    }

    /// Goes on at a level.
    pub fn advance_level_index(&mut self, level: usize, state: &mut RoundState, at: Place) -> (r:
        Round)
        requires
            round_ok(old(self).here()),
            level < old(self).here().stamp.len(),
            number_after(
                old(self).here().scheme,
                level as int,
                old(self).here().stamp[level as int],
            ) is Some,
        ensures
            round_ok(final(self).here()),
            final(self).here() == changed(
                old(self).here(),
                level as int,
                number_after(
                    old(self).here().scheme,
                    level as int,
                    old(self).here().stamp[level as int],
                )->0,
            ),
            r@ == final(self).here(),
            final(state)@ == entered(old(state)@, at, r@.stamp),
    {
        let current = self.now.components()[level];
        let next: u32 = match self.scheme.levels()[level].kind {
            LevelKind::U32 => current + 1,
            LevelKind::Enum { enum_type } => self.scheme.codec(enum_type).unwrap().next(
                current,
            ).unwrap(),
        };
        self.change(level, next);
        self.current(state, at)
    }

    /// Puts a number at a level, and the lowest ones at the levels after it.
    fn change(&mut self, level: usize, v: u32)
        requires
            round_ok(old(self).here()),
            level < old(self).here().stamp.len(),
        ensures
            final(self).here() == changed(old(self).here(), level as int, v),
    {
        let ghost before = self.here();
        let mut comps: Vec<u32> = Vec::new();
        let mut i: usize = 0;
        while i < self.now.components().len()
            invariant
                self.here() == before,
                round_ok(before),
                i <= before.stamp.len(),
                comps@.len() == i,
                forall|k: int|
                    0 <= k < i ==> #[trigger] comps@[k] == changed(before, level as int, v).stamp[k],
            decreases before.stamp.len() - i,
        {
            if i < level {
                comps.push(self.now.components()[i]);
            } else if i == level {
                comps.push(v);
            } else {
                comps.push(self.scheme.levels()[i].low);
            }
            i += 1;
        }
        self.now = RoundStamp::from_components(comps);
        assert(self.here() =~= changed(before, level as int, v));
    }

    fn set_level_value(&mut self, level: usize, value: u32, state: &mut RoundState, at: Place) -> (r:
        Round)
        requires
            round_ok(old(self).here()),
            level < old(self).here().stamp.len(),
            can_go(old(self).here(), level as int, value),
        ensures
            round_ok(final(self).here()),
            final(self).here() == changed(old(self).here(), level as int, value),
            r@ == final(self).here(),
            final(state)@ == entered(old(state)@, at, r@.stamp),
    {
        self.change(level, value);
        self.current(state, at)
    }
}

proof fn lemma_not_earlier(a: Seq<u32>, b: Seq<u32>, n: int)
    requires
        a.len() == b.len(),
        !earlier(a, b),
        !earlier(b, a),
        0 <= n <= a.len(),
        forall|j: int| 0 <= j < n ==> #[trigger] a[j] == b[j],
    ensures
        a == b,
    decreases a.len() - n,
{
    if n < a.len() {
        if a[n] < b[n] {
            assert(earlier(a, b));
        } else if b[n] < a[n] {
            assert forall|j: int| 0 <= j < n implies #[trigger] b[j] == a[j] by {
                assert(a[j] == b[j]);
            }
            assert(earlier(b, a));
        }
        assert forall|j: int| 0 <= j < n + 1 implies #[trigger] a[j] == b[j] by {}
        lemma_not_earlier(a, b, n + 1);
    } else {
        assert(a =~= b);
    }
}

/// An advance at a level whose numbers grow leads to a later round.
pub proof fn law_advancing_leads_on(r: RoundView, level: int, v: u32)
    requires
        round_ok(r),
        0 <= level < r.stamp.len(),
        v > r.stamp[level],
    ensures
        earlier(r.stamp, changed(r, level, v).stamp),
{
    let new = changed(r, level, v).stamp;
    assert(r.stamp[level] < new[level]);
    assert forall|j: int| 0 <= j < level implies #[trigger] r.stamp[j] == new[j] by {}
}

/// No step that the rounds allow leads to an earlier round.
pub proof fn law_rounds_do_not_go_back(r: RoundView, level: int, v: u32)
    requires
        round_ok(r),
        0 <= level < r.stamp.len(),
        can_go(r, level, v),
    ensures
        !earlier(changed(r, level, v).stamp, r.stamp),
{
    let new = changed(r, level, v).stamp;
    if earlier(new, r.stamp) {
        let i = choose|i: int|
            0 <= i < new.len() && i < r.stamp.len() && #[trigger] new[i] < r.stamp[i] && forall|
                j: int,
            |
                0 <= j < i ==> #[trigger] new[j] == r.stamp[j];
        if i > level {
            assert(new[level] == r.stamp[level]);
            assert(r.stamp[i] == r.scheme.levels[i].low);
        }
    }
}

/// A stamp that is read by the levels of some rounds.
pub struct RoundStampView<'a> {
    scheme: &'a RoundScheme,
    stamp: &'a RoundStamp,
}

impl<'a> View for RoundStampView<'a> {
    type V = RoundView;

    closed spec fn view(&self) -> RoundView {
        RoundView { scheme: self.scheme@, stamp: self.stamp@ }
    }
}

impl<'a> RoundStampView<'a> {
    /// The number of the key's level.
    pub fn get_u32<K: RoundKey>(&self, key: K) -> (v: u32)
        requires
            has_level(self@, key),
            level_of(self@.scheme.levels, key)->0 < self@.stamp.len(),
        ensures
            v == number_of(self@, key),
    {
        let i = self.scheme.key_position(key);
        self.stamp.components()[i]
    }

    /// The step of the key's level.
    pub fn get_enum<K: RoundKey, E: RoundEnum>(&self, key: K) -> (e: E)
        requires
            has_level(self@, key),
            level_of(self@.scheme.levels, key)->0 < self@.stamp.len(),
            E::decoded(number_of(self@, key)) is Some,
        ensures
            E::decoded(number_of(self@, key)) == Some(e),
    {
        E::try_from_u32(self.get_u32(key)).unwrap()
    }
}

} // verus!
