//! Messages that carry a key and the round of that key.

use super::transport::{
    receive_bounds, repeated_recv_bounds, RoundFilter, TraceForgeTransportMode, WordScheme,
};
use crate::event::ThreadId;
use crate::loc::{tag_view, RecvPredicate};
use vstd::prelude::*;
use vstd::string::*;

verus! {

/// Sends and receives messages in rounds that are kept for each key.
#[derive(Clone, Copy, Debug, PartialEq, Eq, Structural)]
pub struct TraceForgeSetTransport {
    pub mode: TraceForgeTransportMode,
}

/// Why a message is not sent or received.
#[derive(Clone, Copy, Debug, PartialEq, Eq, Structural)]
pub enum TraceForgeSetTransportError {
    UnsupportedMode(TraceForgeTransportMode),
}

/// The name of a mode.
pub open spec fn mode_text(mode: TraceForgeTransportMode) -> Seq<char> {
    match mode {
        TraceForgeTransportMode::TaggedNativeInbox => "TaggedNativeInbox"@,
        TraceForgeTransportMode::TaggedRepeatedRecv => "TaggedRepeatedRecv"@,
        TraceForgeTransportMode::UntaggedRepeatedRecv => "UntaggedRepeatedRecv"@,
    }
}

impl TraceForgeSetTransportError {
    /// What the error says.
    pub fn message(&self) -> (s: String)
        ensures
            s@ == "keyed comm_close does not support transport mode "@ + mode_text(
                self->UnsupportedMode_0,
            ),
    {
        let mut s = String::from_str("keyed comm_close does not support transport mode ");
        match self {
            TraceForgeSetTransportError::UnsupportedMode(mode) => match mode {
                TraceForgeTransportMode::TaggedNativeInbox => s.append("TaggedNativeInbox"),
                TraceForgeTransportMode::TaggedRepeatedRecv => s.append("TaggedRepeatedRecv"),
                TraceForgeTransportMode::UntaggedRepeatedRecv => s.append("UntaggedRepeatedRecv"),
            },
        }
        s
    }
}

impl Default for TraceForgeSetTransport {
    fn default() -> (t: Self)
        ensures
            t.mode == TraceForgeTransportMode::TaggedNativeInbox,
    {
        TraceForgeSetTransport { mode: TraceForgeTransportMode::default() }
    }
}

/// The words of a key and a round.
pub fn encode_set_tag<K: WordScheme, R: WordScheme>(key: &K, round: &R) -> (tag: Vec<u32>)
    ensures
        tag@ == key.words() + round.words(),
{
    let mut tag: Vec<u32> = Vec::new();
    key.encode(&mut tag);
    assert(tag@ =~= key.words());
    round.encode(&mut tag);
    tag
}

/// The key and the round that a tag holds.
pub open spec fn remote_entry<K: WordScheme, R: WordScheme>(tag: Option<Seq<u32>>) -> Option<
    (K, R),
> {
    match tag {
        None => None,
        Some(raw) => if raw.len() != K::length() + R::length() {
            None
        } else {
            match (K::read(raw.take(K::length() as int)), R::read(raw.skip(K::length() as int))) {
                (Some(key), Some(round)) => Some((key, round)),
                _ => None,
            }
        },
    }
}

fn part(raw: &Vec<u32>, from: usize, to: usize) -> (r: Vec<u32>)
    requires
        from <= to <= raw@.len(),
    ensures
        r@ == raw@.subrange(from as int, to as int),
{
    let mut r: Vec<u32> = Vec::new();
    let mut i: usize = from;
    while i < to
        invariant
            from <= i <= to <= raw@.len(),
            r@ == raw@.subrange(from as int, i as int),
        decreases to - i,
    {
        r.push(raw[i]);
        i += 1;
        assert(r@ =~= raw@.subrange(from as int, i as int));
    }
    r
}

/// The key and the round that a tag holds.
pub fn decode_set_remote<K: WordScheme, R: WordScheme>(tag: &Option<Vec<u32>>) -> (r: Option<
    (K, R),
>)
    ensures
        r == remote_entry::<K, R>(tag_view(*tag)),
{
    let raw = match tag {
        None => return None,
        Some(raw) => raw,
    };
    let k = K::len();
    let n = raw.len();
    if n < k || n - k != R::len() {
        return None;
    }
    let front = part(raw, 0, k);
    let back = part(raw, k, n);
    assert(front@ =~= raw@.take(k as int));
    assert(back@ =~= raw@.skip(k as int));
    let key = match K::decode(&front) {
        None => return None,
        Some(key) => key,
    };
    match R::decode(&back) {
        None => None,
        Some(round) => Some((key, round)),
    }
}

/// What a tag was made of can be read from it.
pub proof fn law_set_tags_are_read_back<K: WordScheme, R: WordScheme>(key: K, round: R)
    requires
        K::length() + R::length() <= usize::MAX,
    ensures
        remote_entry::<K, R>(Some(key.words() + round.words())) == Some((key, round)),
{
    key.lemma_read();
    round.lemma_read();
    let raw = key.words() + round.words();
    assert(raw.take(K::length() as int) =~= key.words());
    assert(raw.skip(K::length() as int) =~= round.words());
}

/// Accepts the messages of a key whose round passes a filter.
pub struct KeyedPredicate<K, R, F> {
    pub key: K,
    pub local: R,
    pub filter: F,
}

impl<K: WordScheme, R: WordScheme, F: RoundFilter<R>> RecvPredicate for KeyedPredicate<K, R, F> {
    open spec fn accepted(&self, sender: ThreadId, tag: Option<Seq<u32>>) -> bool {
        match remote_entry::<K, R>(tag) {
            Some((key, remote)) => key == self.key && self.filter.passes(self.local, remote),
            None => false,
        }
    }

    fn accepts(&self, sender: ThreadId, tag: &Option<Vec<u32>>) -> (b: bool) {
        match decode_set_remote::<K, R>(tag) {
            Some((key, remote)) => key.same(&self.key) && self.filter.check(&self.local, &remote),
            None => false,
        }
    }
}

/// A message of another key is never accepted, whatever the rounds are.
pub proof fn law_keys_are_kept_apart<K: WordScheme, R: WordScheme, F: RoundFilter<R>>(
    p: KeyedPredicate<K, R, F>,
    sender: ThreadId,
    key: K,
    round: R,
)
    requires
        K::length() + R::length() <= usize::MAX,
    ensures
        p.accepted(sender, Some(key.words() + round.words())) == (key == p.key && p.filter.passes(
            p.local,
            round,
        )),
{
    law_set_tags_are_read_back(key, round);
}

/// How an inbox of a key is read.
pub enum SetInboxPlan<K, R, F> {
    /// At once, with these bounds.
    Native(KeyedPredicate<K, R, F>, usize, Option<usize>),
    /// By a number of receives between these bounds.
    Repeated(KeyedPredicate<K, R, F>, usize, usize),
}

impl TraceForgeSetTransport {
    pub fn new() -> (t: Self)
        ensures
            t.mode == TraceForgeTransportMode::TaggedNativeInbox,
    {
        TraceForgeSetTransport::default()
    }

    pub fn with_mode(mode: TraceForgeTransportMode) -> (t: Self)
        ensures
            t.mode == mode,
    {
        TraceForgeSetTransport { mode }
    }

    pub fn mode(&self) -> (m: TraceForgeTransportMode)
        ensures
            m == self.mode,
    {
        self.mode
    }

    /// The tag of a message of `key` that is sent in `round`.
    pub fn send<K: WordScheme, R: WordScheme>(&self, key: &K, round: &R) -> (r: Result<
        Vec<u32>,
        TraceForgeSetTransportError,
    >)
        ensures
            match self.mode {
                TraceForgeTransportMode::UntaggedRepeatedRecv => r == Err::<
                    Vec<u32>,
                    TraceForgeSetTransportError,
                >(TraceForgeSetTransportError::UnsupportedMode(self.mode)),
                _ => r matches Ok(tag) && tag@ == key.words() + round.words(),
            },
    {
        match self.mode {
            TraceForgeTransportMode::TaggedNativeInbox
            | TraceForgeTransportMode::TaggedRepeatedRecv => Ok(encode_set_tag(key, round)),
            TraceForgeTransportMode::UntaggedRepeatedRecv => Err(
                TraceForgeSetTransportError::UnsupportedMode(self.mode),
            ),
        }
    }

    /// How a message of `key` is received in the round `current`.
    pub fn recv<K: WordScheme, R: WordScheme, F: RoundFilter<R>>(
        &self,
        key: K,
        current: R,
        filter: F,
    ) -> (r: Result<KeyedPredicate<K, R, F>, TraceForgeSetTransportError>)
        ensures
            r == (match self.mode {
                TraceForgeTransportMode::UntaggedRepeatedRecv => Err(
                    TraceForgeSetTransportError::UnsupportedMode(self.mode),
                ),
                _ => Ok(KeyedPredicate { key, local: current, filter }),
            }),
    {
        match self.mode {
            TraceForgeTransportMode::TaggedNativeInbox
            | TraceForgeTransportMode::TaggedRepeatedRecv => Ok(
                KeyedPredicate { key, local: current, filter },
            ),
            TraceForgeTransportMode::UntaggedRepeatedRecv => Err(
                TraceForgeSetTransportError::UnsupportedMode(self.mode),
            ),
        }
    }

    /// How an inbox of `key` is read in the round `current`.
    pub fn inbox<K: WordScheme, R: WordScheme, F: RoundFilter<R>>(
        &self,
        key: K,
        current: R,
        filter: F,
        min: usize,
        max: Option<usize>,
    ) -> (r: Result<Option<SetInboxPlan<K, R, F>>, TraceForgeSetTransportError>)
        ensures
            r == ({
                let p = KeyedPredicate { key, local: current, filter };
                match self.mode {
                    TraceForgeTransportMode::TaggedNativeInbox => Ok(
                        Some(SetInboxPlan::Native(p, min, max)),
                    ),
                    TraceForgeTransportMode::TaggedRepeatedRecv => match receive_bounds(min, max) {
                        None => Ok(None),
                        Some(b) => Ok(Some(SetInboxPlan::Repeated(p, b.0, b.1))),
                    },
                    TraceForgeTransportMode::UntaggedRepeatedRecv => Err(
                        TraceForgeSetTransportError::UnsupportedMode(self.mode),
                    ),
                }
            }),
    {
        let p = KeyedPredicate { key, local: current, filter };
        match self.mode {
            TraceForgeTransportMode::TaggedNativeInbox => Ok(
                Some(SetInboxPlan::Native(p, min, max)),
            ),
            TraceForgeTransportMode::TaggedRepeatedRecv => match repeated_recv_bounds(min, max) {
                None => Ok(None),
                Some((low, high)) => Ok(Some(SetInboxPlan::Repeated(p, low, high))),
            },
            TraceForgeTransportMode::UntaggedRepeatedRecv => Err(
                TraceForgeSetTransportError::UnsupportedMode(self.mode),
            ),
        }
    }
}

/// The current round of each key.
pub struct KeyedRounds<K, R> {
    first: R,
    entries: Vec<(K, R)>,
}

/// The round of `key` after the first `n` entries: the last one counts.
pub open spec fn round_of<K, R>(first: R, entries: Seq<(K, R)>, key: K, n: nat) -> R
    decreases n,
{
    if n == 0 {
        first
    } else if entries[n - 1].0 == key {
        entries[n - 1].1
    } else {
        round_of(first, entries, key, (n - 1) as nat)
    }
}

impl<K: WordScheme, R: WordScheme> KeyedRounds<K, R> {
    /// The round of `key`.
    pub closed spec fn at(&self, key: K) -> R {
        round_of(self.first, self.entries@, key, self.entries@.len())
    }

    /// All keys are in the round `first`.
    pub fn new(first: R) -> (s: Self)
        ensures
            forall|key: K| #[trigger] s.at(key) == first,
    {
        KeyedRounds { first, entries: Vec::new() }
    }

    /// The round of `key`.
    pub fn round(&self, key: &K) -> (r: R)
        ensures
            r == self.at(*key),
    {
        let mut i: usize = self.entries.len();
        while i > 0
            invariant
                i <= self.entries@.len(),
                self.at(*key) == round_of(self.first, self.entries@, *key, i as nat),
            decreases i,
        {
            if self.entries[i - 1].0.same(key) {
                return self.entries[i - 1].1.copy();
            }
            i -= 1;
        }
        self.first.copy()
    }

    /// Lets `key` enter a round; the other keys stay where they are.
    pub fn enter(&mut self, key: K, round: R)
        ensures
            final(self).at(key) == round,
            forall|other: K| other != key ==> #[trigger] final(self).at(other) == old(self).at(other),
    {
        let ghost before = self.entries@;
        self.entries.push((key, round));
        proof {
            let all = self.entries@;
            assert forall|other: K| other != key implies #[trigger] self.at(other) == old(self).at(
                other,
            ) by {
                lemma_same_rounds(self.first, before, all, other, before.len());
            }
        }
    }
}

proof fn lemma_same_rounds<K, R>(
    first: R,
    before: Seq<(K, R)>,
    all: Seq<(K, R)>,
    key: K,
    n: nat,
)
    requires
        n <= before.len() <= all.len(),
        forall|i: int| 0 <= i < before.len() ==> #[trigger] all[i] == before[i],
    ensures
        round_of(first, all, key, n) == round_of(first, before, key, n),
    decreases n,
{
    if n > 0 {
        lemma_same_rounds(first, before, all, key, (n - 1) as nat);
        assert(all[n - 1] == before[n - 1]);
    }
}

} // verus!
