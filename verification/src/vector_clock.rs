//! Clocks that hold a prefix of each thread.

use crate::event::{Event, ThreadId};
use crate::thread_map::ThreadMap;
use vstd::prelude::*;

verus! {

/// Whether `clock` holds `e`: its bound for the thread of `e` is not below `e`.
pub open spec fn covers(clock: Map<ThreadId, u32>, e: Event) -> bool {
    clock.dom().contains(e.thread) && e.index <= clock[e.thread]
}

/// `clock` with everything up to `e` in the thread of `e`.
pub open spec fn clock_with(clock: Map<ThreadId, u32>, e: Event) -> Map<ThreadId, u32> {
    if covers(clock, e) {
        clock
    } else {
        clock.insert(e.thread, e.index)
    }
}

/// For each thread the index of the last of its events that the clock holds.
pub struct VectorClock {
    bounds: ThreadMap<u32>,
}

impl View for VectorClock {
    type V = Map<ThreadId, u32>;

    closed spec fn view(&self) -> Map<ThreadId, u32> {
        self.bounds@
    }
}

impl VectorClock {
    pub closed spec fn wf(&self) -> bool {
        self.bounds.wf()
    }

    pub fn new() -> (c: Self)
        ensures
            c.wf(),
            c@ == Map::<ThreadId, u32>::empty(),
    {
        VectorClock { bounds: ThreadMap::new() }
    }

    pub fn contains(&self, e: Event) -> (b: bool)
        requires
            self.wf(),
        ensures
            b == covers(self@, e),
    {
        match self.bounds.get(e.thread) {
            Some(bound) => e.index <= *bound,
            None => false,
        }
    }

    /// The index of the last event of `tid` that the clock holds.
    pub fn get(&self, tid: ThreadId) -> (r: Option<u32>)
        requires
            self.wf(),
        ensures
            r is Some == self@.dom().contains(tid),
            r matches Some(bound) ==> bound == self@[tid],
    {
        match self.bounds.get(tid) {
            Some(bound) => Some(*bound),
            None => None,
        }
    }

    /// Makes the clock hold `e` and what precedes it in its thread.
    pub fn update_or_set(&mut self, e: Event)
        requires
            old(self).wf(),
        ensures
            final(self).wf(),
            final(self)@ == clock_with(old(self)@, e),
    {
        if !self.contains(e) {
            self.bounds.insert(e.thread, e.index);
        }
    }

    /// The bounds of the clock, by ascending thread.
    pub closed spec fn listed(&self) -> Seq<(ThreadId, u32)> {
        self.bounds.listed()
    }

    /// What the list of bounds says of the clock.
    pub proof fn lemma_listed(&self)
        requires
            self.wf(),
        ensures
            crate::thread_map::keys_ascend(self.listed()),
            self@ == crate::thread_map::entries_map(self.listed()),
    {
        self.bounds.lemma_listed();
    }

    pub fn entries(&self) -> (r: Vec<(ThreadId, u32)>)
        ensures
            r@ == self.listed(),
    {
        let mut r: Vec<(ThreadId, u32)> = Vec::new();
        let mut i: usize = 0;
        while i < self.bounds.len()
            invariant
                i <= self.listed().len(),
                self.listed() == self.bounds.listed(),
                r@ == self.listed().take(i as int),
            decreases self.listed().len() - i,
        {
            r.push((self.bounds.key_at(i), *self.bounds.value_at(i)));
            i += 1;
            assert(self.listed().take(i as int) =~= self.listed().take(i - 1).push(
                self.listed()[i - 1],
            ));
        }
        assert(self.listed().take(i as int) =~= self.listed());
        r
    }
}

} // verus!
