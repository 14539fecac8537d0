//! Maps whose keys are compared by their views.

use vstd::prelude::*;

verus! {

/// A key that can be compared with others.
pub trait SameAs: View + Sized {
    fn same(&self, other: &Self) -> (b: bool)
        ensures
            b == (self@ == other@),
    ;
}

/// A map from keys to values.
pub struct Assoc<K, V> {
    entries: Vec<(K, V)>,
}

/// The value of the last of the entries with the given key.
pub open spec fn looked_up<K: View, V: View>(entries: Seq<(K, V)>, key: K::V) -> Option<V::V>
    decreases entries.len(),
{
    if entries.len() == 0 {
        None
    } else if entries.last().0@ == key {
        Some(entries.last().1@)
    } else {
        looked_up(entries.drop_last(), key)
    }
}

impl<K: View, V: View> View for Assoc<K, V> {
    type V = Map<K::V, V::V>;

    closed spec fn view(&self) -> Map<K::V, V::V> {
        Map::new(
            |key: K::V| looked_up(self.entries@, key) is Some,
            |key: K::V| looked_up(self.entries@, key)->0,
        )
    }
}

proof fn lemma_remove<K: View, V: View>(entries: Seq<(K, V)>, i: int, key: K::V)
    requires
        0 <= i < entries.len(),
        entries[i].0@ != key,
    ensures
        looked_up(entries.remove(i), key) == looked_up(entries, key),
    decreases entries.len(),
{
    let less = entries.remove(i);
    if i == entries.len() - 1 {
        assert(less =~= entries.drop_last());
    } else {
        assert(less.last() == entries.last());
        assert(less.drop_last() =~= entries.drop_last().remove(i));
        if entries.last().0@ != key {
            lemma_remove(entries.drop_last(), i, key);
        }
    }
}

proof fn lemma_absent<K: View, V: View>(entries: Seq<(K, V)>, key: K::V)
    requires
        forall|i: int| 0 <= i < entries.len() ==> (#[trigger] entries[i]).0@ != key,
    ensures
        looked_up(entries, key) is None,
    decreases entries.len(),
{
    if entries.len() > 0 {
        assert forall|i: int| 0 <= i < entries.drop_last().len() implies (
        #[trigger] entries.drop_last()[i]).0@ != key by {
            assert(entries.drop_last()[i] == entries[i]);
        }
        lemma_absent(entries.drop_last(), key);
    }
}

impl<K: SameAs, V: View> Assoc<K, V> {
    pub fn new() -> (m: Self)
        ensures
            m@ == Map::<K::V, V::V>::empty(),
    {
        let m = Assoc { entries: Vec::new() };
        assert(m@ =~= Map::<K::V, V::V>::empty());
        m
    }

    /// The value of `key`.
    pub fn get(&self, key: &K) -> (r: Option<&V>)
        ensures
            r is Some == self@.contains_key(key@),
            r matches Some(v) ==> v@ == self@[key@],
    {
        let mut i: usize = self.entries.len();
        let ghost all = self.entries@;
        assert(all.take(i as int) =~= all);
        while i > 0
            invariant
                i <= self.entries@.len(),
                self.entries@ == all,
                looked_up(all, key@) == looked_up(all.take(i as int), key@),
            decreases i,
        {
            assert(all.take(i as int).drop_last() =~= all.take(i - 1));
            if self.entries[i - 1].0.same(key) {
                return Some(&self.entries[i - 1].1);
            }
            i -= 1;
        }
        None
    }

    pub fn contains_key(&self, key: &K) -> (b: bool)
        ensures
            b == self@.contains_key(key@),
    {
        self.get(key).is_some()
    }

    /// Takes the entry of `key` out of the map.
    pub fn take(&mut self, key: &K) -> (r: Option<V>)
        ensures
            final(self)@ == old(self)@.remove(key@),
            r is Some == old(self)@.contains_key(key@),
            r matches Some(v) ==> v@ == old(self)@[key@],
    {
        let ghost all = self.entries@;
        let mut found: Option<V> = None;
        let mut i: usize = self.entries.len();
        assert(all.take(i as int) =~= all);
        while i > 0
            invariant
                i <= self.entries@.len(),
                forall|k: K::V|
                    k != key@ ==> #[trigger] looked_up(self.entries@, k) == looked_up(all, k),
                forall|j: int|
                    i <= j < self.entries@.len() ==> (#[trigger] self.entries@[j]).0@ != key@,
                i <= all.len(),
                self.entries@.take(i as int) == all.take(i as int),
                found matches Some(v) ==> Some(v@) == looked_up(all, key@),
                found is None ==> looked_up(all, key@) == looked_up(all.take(i as int), key@),
            decreases i,
        {
            assert(all.take(i as int).drop_last() =~= all.take(i - 1));
            assert(self.entries@[i - 1] == self.entries@.take(i as int)[i - 1]);
            assert(self.entries@[i - 1] == all.take(i as int).last());
            if self.entries[i - 1].0.same(key) {
                let ghost before = self.entries@;
                let (_, v) = self.entries.remove(i - 1);
                proof {
                    assert(self.entries@ =~= before.remove(i - 1));
                    assert forall|k: K::V| k != key@ implies #[trigger] looked_up(
                        self.entries@,
                        k,
                    ) == looked_up(all, k) by {
                        lemma_remove(before, i - 1, k);
                    }
                    assert forall|j: int| i - 1 <= j < self.entries@.len() implies (
                    #[trigger] self.entries@[j]).0@ != key@ by {
                        assert(self.entries@[j] == before[j + 1]);
                    }
                    assert(self.entries@.take(i - 1) =~= before.take(i as int).take(i - 1));
                    assert(all.take(i as int).take(i - 1) =~= all.take(i - 1));
                }
                if found.is_none() {
                    found = Some(v);
                }
            } else {
                proof {
                    assert(self.entries@.take(i - 1) =~= self.entries@.take(i as int).take(i - 1));
                    assert(all.take(i as int).take(i - 1) =~= all.take(i - 1));
                }
            }
            i -= 1;
        }
        proof {
            lemma_absent(self.entries@, key@);
            assert(all.take(0) =~= Seq::empty());
            assert(self@ =~= old(self)@.remove(key@));
        }
        found
    }

    /// Gives `key` a value.
    pub fn insert(&mut self, key: K, value: V)
        ensures
            final(self)@ == old(self)@.insert(key@, value@),
    {
        let _ = self.take(&key);
        let ghost before = *self;
        self.entries.push((key, value));
        proof {
            assert(self.entries@.drop_last() =~= before.entries@);
            assert forall|k: K::V| k != key@ implies #[trigger] looked_up(self.entries@, k)
                == looked_up(before.entries@, k) by {}
            assert(self@ =~= before@.insert(key@, value@));
            assert(self@ =~= old(self)@.insert(key@, value@));
        }
    }

    /// Takes all entries out of the map.
    pub fn clear(&mut self)
        ensures
            final(self)@ == Map::<K::V, V::V>::empty(),
    {
        self.entries.clear();
        assert(self@ =~= Map::<K::V, V::V>::empty());
    }
}

} // verus!
