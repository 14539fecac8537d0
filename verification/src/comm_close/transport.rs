//! Messages that carry the round in which they were sent.

use crate::event::ThreadId;
use crate::event_label::Val;
use crate::loc::{tag_view, RecvPredicate};
use vstd::prelude::*;

verus! {

/// A value that a tag can hold, as words.
pub trait WordScheme: Sized {
    spec fn words(&self) -> Seq<u32>;

    /// The number of words.
    spec fn length() -> usize;

    /// The value that the words stand for.
    spec fn read(raw: Seq<u32>) -> Option<Self>;

    proof fn lemma_read(&self)
        ensures
            self.words().len() == Self::length(),
            Self::read(self.words()) == Some(*self),
    ;

    fn len() -> (n: usize)
        ensures
            n == Self::length(),
    ;

    fn encode(&self, out: &mut Vec<u32>)
        ensures
            final(out)@ == old(out)@ + self.words(),
    ;

    fn decode(raw: &Vec<u32>) -> (r: Option<Self>)
        ensures
            r == Self::read(raw@),
    ;

    fn same(&self, other: &Self) -> (b: bool)
        ensures
            b == (*self == *other),
    ;

    fn copy(&self) -> (r: Self)
        ensures
            r == *self,
    ;
}

impl WordScheme for u32 {
    open spec fn words(&self) -> Seq<u32> {
        seq![*self]
    }

    open spec fn length() -> usize {
        1
    }

    open spec fn read(raw: Seq<u32>) -> Option<u32> {
        if raw.len() == 1 {
            Some(raw[0])
        } else {
            None
        }
    }

    proof fn lemma_read(&self) {
    }

    fn len() -> (n: usize) {
        1
    }

    fn encode(&self, out: &mut Vec<u32>) {
        out.push(*self);
        assert(out@ =~= old(out)@ + seq![*self]);
    }

    fn decode(raw: &Vec<u32>) -> (r: Option<u32>) {
        if raw.len() == 1 {
            Some(raw[0])
        } else {
            None
        }
    }

    fn same(&self, other: &u32) -> (b: bool) {
        *self == *other
    }

    fn copy(&self) -> (r: u32) {
        *self
    }
}

/// Which rounds a receiver takes messages of.
pub trait RoundFilter<R> {
    spec fn passes(&self, local: R, remote: R) -> bool;

    fn check(&self, local: &R, remote: &R) -> (b: bool)
        ensures
            b == self.passes(*local, *remote),
    ;
}

/// Messages of the receiver's own round.
#[derive(Clone, Copy, Debug)]
pub struct SameRound {}

impl<R: WordScheme> RoundFilter<R> for SameRound {
    open spec fn passes(&self, local: R, remote: R) -> bool {
        local == remote
    }

    fn check(&self, local: &R, remote: &R) -> (b: bool) {
        local.same(remote)
    }
}

/// Messages of the receiver's round and of later ones.
#[derive(Clone, Copy, Debug)]
pub struct FromRoundOn {}

impl RoundFilter<u32> for FromRoundOn {
    open spec fn passes(&self, local: u32, remote: u32) -> bool {
        local <= remote
    }

    fn check(&self, local: &u32, remote: &u32) -> (b: bool) {
        *local <= *remote
    }
}

/// The words of a round.
pub fn encode_tag<R: WordScheme>(round: &R) -> (tag: Vec<u32>)
    ensures
        tag@ == round.words(),
{
    let mut tag: Vec<u32> = Vec::new();
    round.encode(&mut tag);
    assert(tag@ =~= round.words());
    tag
}

/// The round that a tag holds.
pub open spec fn remote_round<R: WordScheme>(tag: Option<Seq<u32>>) -> Option<R> {
    match tag {
        Some(words) => R::read(words),
        None => None,
    }
}

/// The round that a tag holds.
pub fn decode_remote<R: WordScheme>(tag: &Option<Vec<u32>>) -> (r: Option<R>)
    ensures
        r == remote_round::<R>(tag_view(*tag)),
{
    match tag {
        Some(words) => R::decode(words),
        None => None,
    }
}

/// Accepts the messages whose round passes a filter.
pub struct RoundPredicate<R, F> {
    pub local: R,
    pub filter: F,
}

impl<R: WordScheme, F: RoundFilter<R>> RecvPredicate for RoundPredicate<R, F> {
    open spec fn accepted(&self, sender: ThreadId, tag: Option<Seq<u32>>) -> bool {
        match remote_round::<R>(tag) {
            Some(remote) => self.filter.passes(self.local, remote),
            None => false,
        }
    }

    fn accepts(&self, sender: ThreadId, tag: &Option<Vec<u32>>) -> (b: bool) {
        match decode_remote::<R>(tag) {
            Some(remote) => self.filter.check(&self.local, &remote),
            None => false,
        }
    }
}

/// A message that was sent in some round is accepted just where that round passes the
/// filter.
pub proof fn law_filters_judge_the_sending_round<R: WordScheme, F: RoundFilter<R>>(
    p: RoundPredicate<R, F>,
    sender: ThreadId,
    round: R,
)
    ensures
        p.accepted(sender, Some(round.words())) == p.filter.passes(p.local, round),
{
    round.lemma_read();
}

/// How rounds are kept apart.
#[derive(Clone, Copy, Debug, PartialEq, Eq, Structural)]
pub enum TraceForgeTransportMode {
    /// By tags; an inbox is one event.
    TaggedNativeInbox,
    /// By tags; an inbox is a number of receives.
    TaggedRepeatedRecv,
    /// By the receiver, which drops what does not pass; an inbox is a number of receives.
    UntaggedRepeatedRecv,
}

impl Default for TraceForgeTransportMode {
    fn default() -> (m: Self)
        ensures
            m == TraceForgeTransportMode::TaggedNativeInbox,
    {
        TraceForgeTransportMode::TaggedNativeInbox
    }
}

/// Sends and receives messages in rounds.
#[derive(Clone, Copy, Debug, PartialEq, Eq, Structural)]
pub struct TraceForgeTransport {
    pub mode: TraceForgeTransportMode,
}

impl Default for TraceForgeTransport {
    fn default() -> (t: Self)
        ensures
            t.mode == TraceForgeTransportMode::TaggedNativeInbox,
    {
        TraceForgeTransport { mode: TraceForgeTransportMode::default() }
    }
}

/// How a message is received.
pub enum Reception<R, F> {
    /// The messages that the predicate accepts.
    Tagged(RoundPredicate<R, F>),
    /// Any message; those that do not pass are dropped.
    Untagged(RoundPredicate<R, F>),
}

/// How an inbox is read.
pub enum InboxPlan<R, F> {
    /// At once, with these bounds.
    Native(RoundPredicate<R, F>, usize, Option<usize>),
    /// By a number of receives between these bounds.
    Repeated(RoundPredicate<R, F>, usize, usize),
    /// By a number of receives between these bounds, of which those that do not pass are
    /// dropped.
    UntaggedRepeated(RoundPredicate<R, F>, usize, usize),
}

/// Between which bounds an inbox chooses the number of its receives; none where the
/// bounds make no sense.
pub open spec fn receive_bounds(min: usize, max: Option<usize>) -> Option<(usize, usize)> {
    match max {
        None => if min > 0 {
            Some((min, min))
        } else {
            None
        },
        Some(m) => if m >= min {
            Some((min, m))
        } else {
            None
        },
    }
}

/// Between which bounds an inbox chooses the number of its receives.
pub fn repeated_recv_bounds(min: usize, max: Option<usize>) -> (r: Option<(usize, usize)>)
    ensures
        r == receive_bounds(min, max),
{
    match max {
        None => if min > 0 {
            Some((min, min))
        } else {
            None
        },
        Some(m) => if m >= min {
            Some((min, m))
        } else {
            None
        },
    }
}

/// The number of receives, after one of the numbers within the bounds was chosen.
pub fn repeated_recv_count(bounds: (usize, usize), chosen: usize) -> (r: Option<usize>)
    ensures
        r == (if bounds.0 <= chosen <= bounds.1 {
            Some(chosen)
        } else {
            None
        }),
{
    if bounds.0 <= chosen && chosen <= bounds.1 {
        Some(chosen)
    } else {
        None
    }
}

impl TraceForgeTransport {
    pub fn new() -> (t: Self)
        ensures
            t.mode == TraceForgeTransportMode::TaggedNativeInbox,
    {
        TraceForgeTransport::default()
    }

    pub fn with_mode(mode: TraceForgeTransportMode) -> (t: Self)
        ensures
            t.mode == mode,
    {
        TraceForgeTransport { mode }
    }

    pub fn mode(&self) -> (m: TraceForgeTransportMode)
        ensures
            m == self.mode,
    {
        self.mode
    }

    /// The tag of a message that is sent in `round`.
    pub fn send<R: WordScheme>(&self, round: &R) -> (tag: Option<Vec<u32>>)
        ensures
            tag_view(tag) == (match self.mode {
                TraceForgeTransportMode::UntaggedRepeatedRecv => None,
                _ => Some(round.words()),
            }),
    {
        match self.mode {
            TraceForgeTransportMode::TaggedNativeInbox
            | TraceForgeTransportMode::TaggedRepeatedRecv => Some(encode_tag(round)),
            TraceForgeTransportMode::UntaggedRepeatedRecv => None,
        }
    }

    /// How a message is received in the round `current`.
    pub fn recv<R: WordScheme, F: RoundFilter<R>>(&self, current: R, filter: F) -> (r: Reception<
        R,
        F,
    >)
        ensures
            r == (match self.mode {
                TraceForgeTransportMode::UntaggedRepeatedRecv => Reception::Untagged(
                    RoundPredicate { local: current, filter },
                ),
                _ => Reception::Tagged(RoundPredicate { local: current, filter }),
            }),
    {
        let p = RoundPredicate { local: current, filter };
        match self.mode {
            TraceForgeTransportMode::TaggedNativeInbox
            | TraceForgeTransportMode::TaggedRepeatedRecv => Reception::Tagged(p),
            TraceForgeTransportMode::UntaggedRepeatedRecv => Reception::Untagged(p),
        }
    }

    /// How an inbox is read in the round `current`; none where the bounds make no sense.
    pub fn inbox<R: WordScheme, F: RoundFilter<R>>(
        &self,
        current: R,
        filter: F,
        min: usize,
        max: Option<usize>,
    ) -> (r: Option<InboxPlan<R, F>>)
        ensures
            r == ({
                let p = RoundPredicate { local: current, filter };
                match (self.mode, receive_bounds(min, max)) {
                    (TraceForgeTransportMode::TaggedNativeInbox, _) => Some(
                        InboxPlan::Native(p, min, max),
                    ),
                    (_, None) => None,
                    (TraceForgeTransportMode::TaggedRepeatedRecv, Some(b)) => Some(
                        InboxPlan::Repeated(p, b.0, b.1),
                    ),
                    (TraceForgeTransportMode::UntaggedRepeatedRecv, Some(b)) => Some(
                        InboxPlan::UntaggedRepeated(p, b.0, b.1),
                    ),
                }
            }),
    {
        let p = RoundPredicate { local: current, filter };
        match self.mode {
            TraceForgeTransportMode::TaggedNativeInbox => Some(InboxPlan::Native(p, min, max)),
            TraceForgeTransportMode::TaggedRepeatedRecv => match repeated_recv_bounds(min, max) {
                None => None,
                Some((low, high)) => Some(InboxPlan::Repeated(p, low, high)),
            },
            TraceForgeTransportMode::UntaggedRepeatedRecv => match repeated_recv_bounds(min, max) {
                None => None,
                Some((low, high)) => Some(InboxPlan::UntaggedRepeated(p, low, high)),
            },
        }
    }
}

/// What a receiver without tags does with what it received.
#[derive(Clone, Copy, Debug, PartialEq, Eq, Structural)]
pub enum Untagged {
    /// It drops the message and receives again.
    Again,
    /// It is done.
    Done,
}

/// What a receiver without tags does with what it received: nothing, or a message that was
/// sent in some round.
pub fn untagged_step<R: WordScheme, F: RoundFilter<R>>(
    p: &RoundPredicate<R, F>,
    received: Option<&R>,
) -> (s: Untagged)
    ensures
        s == (match received {
            Some(r) => if p.filter.passes(p.local, *r) {
                Untagged::Done
            } else {
                Untagged::Again
            },
            None => Untagged::Done,
        }),
{
    match received {
        Some(r) => if p.filter.check(&p.local, r) {
            Untagged::Done
        } else {
            Untagged::Again
        },
        None => Untagged::Done,
    }
}

/// What an entry that an inbox yields is, where it has the type `type_key`.
pub open spec fn decoded_entry(entry: Option<Val>, type_key: u64) -> Option<Option<Val>> {
    match entry {
        None => Some(None),
        Some(v) => if v.type_key == type_key {
            Some(Some(v))
        } else {
            None
        },
    }
}

/// What an entry that an inbox yields is; none where it has another type.
pub fn decode_inbox_entry(entry: Option<Val>, type_key: u64) -> (r: Option<Option<Val>>)
    ensures
        r == decoded_entry(entry, type_key),
{
    match entry {
        None => Some(None),
        Some(v) => if v.type_key == type_key {
            Some(Some(v))
        } else {
            None
        },
    }
}

/// Whether all entries that an inbox yields have the type `type_key`.
pub open spec fn entries_typed(entries: Seq<Option<Val>>, type_key: u64) -> bool {
    forall|i: int|
        0 <= i < entries.len() ==> decoded_entry(#[trigger] entries[i], type_key) is Some
}

/// What an inbox yields, one for one and in the same order; none where an entry has
/// another type.
pub fn decode_inbox(entries: &Vec<Option<Val>>, type_key: u64) -> (r: Option<Vec<Option<Val>>>)
    ensures
        r is Some == entries_typed(entries@, type_key),
        r matches Some(list) ==> list@ == entries@,
{
    let mut list: Vec<Option<Val>> = Vec::new();
    let mut i: usize = 0;
    while i < entries.len()
        invariant
            i <= entries@.len(),
            list@ == entries@.take(i as int),
            forall|k: int|
                0 <= k < i ==> decoded_entry(#[trigger] entries@[k], type_key) is Some,
        decreases entries.len() - i,
    {
        match decode_inbox_entry(entries[i], type_key) {
            None => {
                assert(decoded_entry(entries@[i as int], type_key) is None);
                return None;
            },
            Some(entry) => list.push(entry),
        }
        i += 1;
        assert(entries@.take(i as int) =~= entries@.take(i - 1).push(entries@[i - 1]));
    }
    assert(entries@.take(i as int) =~= entries@);
    Some(list)
}

} // verus!
