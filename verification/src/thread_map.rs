//! Maps keyed by threads, kept in the order of the threads.

use crate::event::ThreadId;
use vstd::prelude::*;

verus! {

/// A map from threads to values whose entries are listed by ascending thread.
pub struct ThreadMap<V> {
    entries: Vec<(ThreadId, V)>,
}

/// Whether the keys of `entries` ascend strictly.
pub open spec fn keys_ascend<V>(entries: Seq<(ThreadId, V)>) -> bool {
    forall|i: int, j: int|
        0 <= i < j < entries.len() ==> (#[trigger] entries[i]).0.id < (#[trigger] entries[j]).0.id
}

/// The map that a list of entries stands for.
pub open spec fn entries_map<V>(entries: Seq<(ThreadId, V)>) -> Map<ThreadId, V> {
    Map::new(
        |t: ThreadId| exists|i: int| 0 <= i < entries.len() && (#[trigger] entries[i]).0 == t,
        |t: ThreadId| entries[choose|i: int| 0 <= i < entries.len() && (#[trigger] entries[i]).0 == t].1,
    )
}

impl<V> View for ThreadMap<V> {
    type V = Map<ThreadId, V>;

    closed spec fn view(&self) -> Map<ThreadId, V> {
        entries_map(self.entries@)
    }
}

impl<V> ThreadMap<V> {
    /// The entries, by ascending thread.
    pub closed spec fn listed(&self) -> Seq<(ThreadId, V)> {
        self.entries@
    }

    /// Holds of every map that the methods below build.
    pub open spec fn wf(&self) -> bool {
        keys_ascend(self.listed())
    }

    /// What the list of entries says of the map.
    pub proof fn lemma_listed(&self)
        requires
            self.wf(),
        ensures
            self@ == entries_map(self.listed()),
            forall|i: int|
                0 <= i < self.listed().len() ==> self@.dom().contains(
                    (#[trigger] self.listed()[i]).0,
                ) && self@[self.listed()[i].0] == self.listed()[i].1,
            forall|t: ThreadId| #[trigger]
                self@.dom().contains(t) ==> exists|i: int|
                    0 <= i < self.listed().len() && (#[trigger] self.listed()[i]) == (t, self@[t]),
    {
        assert forall|i: int| 0 <= i < self.listed().len() implies self@.dom().contains(
            (#[trigger] self.listed()[i]).0,
        ) && self@[self.listed()[i].0] == self.listed()[i].1 by {
            let t = self.listed()[i].0;
            let j = choose|j: int|
                0 <= j < self.entries@.len() && (#[trigger] self.entries@[j]).0 == t;
            if i < j {
                assert(self.listed()[i].0.id < self.listed()[j].0.id);
            }
            if j < i {
                assert(self.listed()[j].0.id < self.listed()[i].0.id);
            }
        }
        assert forall|t: ThreadId| #[trigger] self@.dom().contains(t) implies exists|i: int|
            0 <= i < self.listed().len() && (#[trigger] self.listed()[i]) == (t, self@[t]) by {
            let j = choose|j: int|
                0 <= j < self.entries@.len() && (#[trigger] self.entries@[j]).0 == t;
            assert(self.listed()[j] == (t, self@[t]));
        }
    }

    pub fn new() -> (m: Self)
        ensures
            m.wf(),
            m@ == Map::<ThreadId, V>::empty(),
            m.listed() == Seq::<(ThreadId, V)>::empty(),
    {
        let m: ThreadMap<V> = ThreadMap { entries: Vec::new() };
        assert(m@ =~= Map::<ThreadId, V>::empty());
        m
    }

    pub fn len(&self) -> (n: usize)
        ensures
            n == self.listed().len(),
    {
        self.entries.len()
    }

    /// The thread of the entry at `i`.
    pub fn key_at(&self, i: usize) -> (t: ThreadId)
        requires
            i < self.listed().len(),
        ensures
            t == self.listed()[i as int].0,
    {
        self.entries[i].0
    }

    /// The value of the entry at `i`.
    pub fn value_at(&self, i: usize) -> (v: &V)
        requires
            i < self.listed().len(),
        ensures
            *v == self.listed()[i as int].1,
    {
        &self.entries[i].1
    }

    /// Where `key` is listed, or where it would have to be.
    fn position(&self, key: ThreadId) -> (r: (usize, bool))
        requires
            self.wf(),
        ensures
            r.0 <= self.listed().len(),
            forall|i: int| 0 <= i < r.0 ==> (#[trigger] self.listed()[i]).0.id < key.id,
            r.1 ==> r.0 < self.listed().len() && self.listed()[r.0 as int].0 == key,
            !r.1 ==> forall|i: int|
                r.0 <= i < self.listed().len() ==> (#[trigger] self.listed()[i]).0.id > key.id,
    {
        let mut i: usize = 0;
        while i < self.entries.len()
            invariant
                self.wf(),
                i <= self.listed().len(),
                self.listed() == self.entries@,
                forall|j: int| 0 <= j < i ==> (#[trigger] self.listed()[j]).0.id < key.id,
            decreases self.entries.len() - i,
        {
            let at = self.entries[i].0;
            if at.id == key.id {
                return (i, true);
            }
            if at.id > key.id {
                assert(self.listed()[i as int].0.id > key.id);
                return (i, false);
            }
            i += 1;
        }
        (i, false)
    }

    pub fn contains_key(&self, key: ThreadId) -> (b: bool)
        requires
            self.wf(),
        ensures
            b == self@.dom().contains(key),
    {
        let (i, found) = self.position(key);
        proof {
            self.lemma_listed();
        }
        found
    }

    pub fn get(&self, key: ThreadId) -> (r: Option<&V>)
        requires
            self.wf(),
        ensures
            r is Some == self@.dom().contains(key),
            r matches Some(v) ==> *v == self@[key],
    {
        let (i, found) = self.position(key);
        proof {
            self.lemma_listed();
        }
        if found {
            assert(self.listed()[i as int].0 == key);
            Some(&self.entries[i].1)
        } else {
            None
        }
    }

    /// Binds `key` to `value`; returns what `key` was bound to before.
    pub fn insert(&mut self, key: ThreadId, value: V) -> (previous: Option<V>)
        requires
            old(self).wf(),
        ensures
            final(self).wf(),
            final(self)@ == old(self)@.insert(key, value),
            previous is Some == old(self)@.dom().contains(key),
            previous matches Some(v) ==> v == old(self)@[key],
            previous is None ==> final(self).listed().len() == old(self).listed().len() + 1,
            previous is Some ==> final(self).listed().len() == old(self).listed().len(),
    {
        let (i, found) = self.position(key);
        let ghost before = *self;
        proof {
            self.lemma_listed();
        }
        let r = if found {
            assert(self.listed()[i as int].0 == key);
            let mut entry = (key, value);
            std::mem::swap(&mut self.entries[i], &mut entry);
            Some(entry.1)
        } else {
            self.entries.insert(i, (key, value));
            None
        };
        proof {
            if found {
                assert(self.listed() == before.listed().update(i as int, (key, value)));
            } else {
                assert(self.listed() == before.listed().insert(i as int, (key, value)));
                assert forall|a: int, b: int| 0 <= a < b < self.listed().len() implies (
                #[trigger] self.listed()[a]).0.id < (#[trigger] self.listed()[b]).0.id by {
                    let f = |k: int| if k < i { k } else { k - 1 };
                    if a != i {
                        assert(self.listed()[a] == before.listed()[f(a)]);
                    }
                    if b != i {
                        assert(self.listed()[b] == before.listed()[f(b)]);
                    }
                }
            }
            self.lemma_listed();
            assert(self.listed()[i as int] == (key, value));
            assert(self@ =~= before@.insert(key, value)) by {
                assert forall|t: ThreadId| self@.dom().contains(t) == before@.insert(
                    key,
                    value,
                ).dom().contains(t) by {
                    if before@.dom().contains(t) && t != key {
                        let j = choose|j: int|
                            0 <= j < before.listed().len() && (#[trigger] before.listed()[j]) == (
                                t,
                                before@[t],
                            );
                        if found || j < i {
                            assert(self.listed()[j] == before.listed()[j]);
                        } else {
                            assert(self.listed()[j + 1] == before.listed()[j]);
                        }
                    }
                    if self@.dom().contains(t) && t != key {
                        let j = choose|j: int|
                            0 <= j < self.listed().len() && (#[trigger] self.listed()[j]) == (
                                t,
                                self@[t],
                            );
                        if found || j < i {
                            assert(self.listed()[j] == before.listed()[j]);
                        } else {
                            assert(self.listed()[j] == before.listed()[j - 1]);
                        }
                    }
                }
                assert forall|t: ThreadId|
                    self@.dom().contains(t) && before@.insert(key, value).dom().contains(
                        t,
                    ) implies self@[t] == before@.insert(key, value)[t] by {
                    if t != key {
                        let j = choose|j: int|
                            0 <= j < before.listed().len() && (#[trigger] before.listed()[j]) == (
                                t,
                                before@[t],
                            );
                        if found || j < i {
                            assert(self.listed()[j] == before.listed()[j]);
                        } else {
                            assert(self.listed()[j + 1] == before.listed()[j]);
                        }
                    }
                }
            }
        }
        r
    }
}

} // verus!
