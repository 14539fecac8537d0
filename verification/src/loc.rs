//! Where messages are sent to and received from.

use crate::event::ThreadId;
use vstd::prelude::*;

verus! {

/// How the messages of one sender are ordered at their receiver.
#[derive(Clone, Copy, Debug, PartialEq, Eq, Structural)]
pub enum CommunicationModel {
    /// Messages may overtake each other.
    NoOrder,
    /// Messages of one sender to one location arrive in the order of their sends.
    LocalOrder,
}

/// A location that messages are sent to: the mailbox of a thread, or a channel.
#[derive(Clone, Copy, Debug, PartialEq, Eq, Structural)]
pub enum Loc {
    Thread(ThreadId),
    Channel(u64),
}

/// A tag as the contracts see it.
pub open spec fn tag_view(tag: Option<Vec<u32>>) -> Option<Seq<u32>> {
    match tag {
        Some(words) => Some(words@),
        None => None,
    }
}

/// Which messages a receive accepts, judged by sender and tag.
pub trait RecvPredicate {
    /// Whether a message of `sender` with `tag` is accepted.
    spec fn accepted(&self, sender: ThreadId, tag: Option<Seq<u32>>) -> bool;

    fn accepts(&self, sender: ThreadId, tag: &Option<Vec<u32>>) -> (b: bool)
        ensures
            b == self.accepted(sender, tag_view(*tag)),
    ;
}

/// The predicates that the library's own receives use.
pub enum Predicate {
    /// Every message.
    Any,
    /// Messages whose tag is exactly these words.
    TagIs(Vec<u32>),
    /// Messages whose tag is one word that is at least the given one.
    TagAtLeast(u32),
    /// Messages of one of these threads.
    SenderIn(Vec<ThreadId>),
}

/// Whether two lists of words are the same list.
pub fn words_equal(a: &Vec<u32>, b: &Vec<u32>) -> (r: bool)
    ensures
        r == (a@ == b@),
{
    if a.len() != b.len() {
        return false;
    }
    let mut i: usize = 0;
    while i < a.len()
        invariant
            i <= a.len(),
            a.len() == b.len(),
            forall|j: int| 0 <= j < i ==> a[j] == b[j],
        decreases a.len() - i,
    {
        if a[i] != b[i] {
            assert(a@[i as int] != b@[i as int]);
            return false;
        }
        i += 1;
    }
    assert(a@ =~= b@);
    true
}

/// Whether `tid` is one of `threads`.
pub fn thread_in(threads: &Vec<ThreadId>, tid: ThreadId) -> (r: bool)
    ensures
        r == threads@.contains(tid),
{
    let mut i: usize = 0;
    while i < threads.len()
        invariant
            i <= threads.len(),
            forall|j: int| 0 <= j < i ==> threads@[j] != tid,
        decreases threads.len() - i,
    {
        if threads[i] == tid {
            assert(threads@[i as int] == tid);
            return true;
        }
        i += 1;
    }
    false
}

impl RecvPredicate for Predicate {
    open spec fn accepted(&self, sender: ThreadId, tag: Option<Seq<u32>>) -> bool {
        match self {
            Predicate::Any => true,
            Predicate::TagIs(words) => tag == Some(words@),
            Predicate::TagAtLeast(min) => tag matches Some(words) && words.len() == 1 && words[0]
                >= *min,
            Predicate::SenderIn(threads) => threads@.contains(sender),
        }
    }

    fn accepts(&self, sender: ThreadId, tag: &Option<Vec<u32>>) -> (b: bool) {
        match self {
            Predicate::Any => true,
            Predicate::TagIs(words) => match tag {
                Some(t) => words_equal(t, words),
                None => false,
            },
            Predicate::TagAtLeast(min) => match tag {
                Some(t) => t.len() == 1 && t[0] >= *min,
                None => false,
            },
            Predicate::SenderIn(threads) => thread_in(threads, sender),
        }
    }
}

/// Where a receive looks for messages, and which of them it accepts.
pub struct RecvLoc<P> {
    pub locs: Vec<Loc>,
    pub predicate: P,
}

impl<P: RecvPredicate> RecvLoc<P> {
    pub fn new(locs: Vec<Loc>, predicate: P) -> (r: Self)
        ensures
            r.locs == locs,
            r.predicate == predicate,
    {
        RecvLoc { locs, predicate }
    }

    /// Whether a message that `sender` sent to `loc` under `tag` may be received here.
    pub open spec fn takes(&self, loc: Loc, sender: ThreadId, tag: Option<Seq<u32>>) -> bool {
        self.locs@.contains(loc) && self.predicate.accepted(sender, tag)
    }

    pub fn matches(&self, loc: Loc, sender: ThreadId, tag: &Option<Vec<u32>>) -> (b: bool)
        ensures
            b == self.takes(loc, sender, tag_view(*tag)),
    {
        match self.position(loc) {
            Some(_) => self.predicate.accepts(sender, tag),
            None => false,
        }
    }

    /// The first of the receive's locations that is `loc`.
    pub fn position(&self, loc: Loc) -> (r: Option<usize>)
        ensures
            r is Some == self.locs@.contains(loc),
            r matches Some(i) ==> i < self.locs@.len() && self.locs@[i as int] == loc && forall|
                j: int,
            |
                0 <= j < i ==> self.locs@[j] != loc,
    {
        let mut i: usize = 0;
        while i < self.locs.len()
            invariant
                i <= self.locs.len(),
                forall|j: int| 0 <= j < i ==> self.locs@[j] != loc,
            decreases self.locs.len() - i,
        {
            if self.locs[i] == loc {
                assert(self.locs@[i as int] == loc);
                return Some(i);
            }
            i += 1;
        }
        None
    }
}

} // verus!
