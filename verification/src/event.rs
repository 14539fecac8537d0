//! Threads, tasks and the events that threads perform.

use crate::assoc::SameAs;
use vstd::prelude::*;

verus! {

/// The identity of a thread of the modelled program.
#[derive(Clone, Copy, Debug, PartialEq, Eq, Structural, Hash, PartialOrd, Ord)]
pub struct ThreadId {
    pub id: u32,
}

impl View for ThreadId {
    type V = ThreadId;

    open spec fn view(&self) -> ThreadId {
        *self
    }
}

impl SameAs for ThreadId {
    fn same(&self, other: &Self) -> (b: bool) {
        *self == *other
    }
}

/// The identity of the runtime task that currently runs a thread.
#[derive(Clone, Copy, Debug, PartialEq, Eq, Structural, Hash, PartialOrd, Ord)]
pub struct TaskId {
    pub id: usize,
}

/// The thread that starts every execution.
pub fn main_thread_id() -> (tid: ThreadId)
    ensures
        tid == (ThreadId { id: 0 }),
{
    ThreadId { id: 0 }
}

/// The thread with the given number.
pub fn construct_thread_id(id: u32) -> (tid: ThreadId)
    ensures
        tid == (ThreadId { id }),
{
    ThreadId { id }
}

/// A position in an execution: the `index`-th event of `thread`.
#[derive(Clone, Copy, Debug, PartialEq, Eq, Structural, Hash, PartialOrd, Ord)]
pub struct Event {
    pub thread: ThreadId,
    pub index: u32,
}

/// The order of events: by thread, then by position in the thread.
pub open spec fn event_le(a: Event, b: Event) -> bool {
    a.thread.id < b.thread.id || (a.thread.id == b.thread.id && a.index <= b.index)
}

impl Event {
    pub fn new(thread: ThreadId, index: u32) -> (e: Self)
        ensures
            e == (Event { thread, index }),
    {
        Event { thread, index }
    }

    /// The event that precedes every other one; a revisit that reads from no
    /// send names it.
    pub fn new_init() -> (e: Self)
        ensures
            e == (Event { thread: ThreadId { id: 0 }, index: 0 }),
    {
        Event { thread: main_thread_id(), index: 0 }
    }

    /// The next event of the same thread.
    pub fn next(self) -> (e: Self)
        requires
            self.index < u32::MAX,
        ensures
            e == (Event { thread: self.thread, index: (self.index + 1) as u32 }),
    {
        Event { thread: self.thread, index: self.index + 1 }
    }

    /// Whether `self` comes no later than `other` in the order of events.
    pub fn at_most(self, other: Event) -> (b: bool)
        ensures
            b == event_le(self, other),
    {
        self.thread.id < other.thread.id || (self.thread.id == other.thread.id && self.index
            <= other.index)
    }
}

} // verus!
