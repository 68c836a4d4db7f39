//! A small map from strings to values, kept as a list of entries whose keys
//! are pairwise different. Its model is a `Map` from the keys' characters.

use crate::text::same_text;
use vstd::prelude::*;

verus! {

/// A map keyed by strings.
#[derive(Debug)]
pub struct StrMap<V> {
    entries: Vec<(String, V)>,
}

impl<V> View for StrMap<V> {
    type V = Map<Seq<char>, V>;

    closed spec fn view(&self) -> Map<Seq<char>, V> {
        Map::new(
            |k: Seq<char>| self.keys().contains(k),
            |k: Seq<char>| self.entries@[self.keys().index_of(k)].1,
        )
    }
}

impl<V> StrMap<V> {
    /// The keys in the order in which the entries are held.
    pub closed spec fn keys(&self) -> Seq<Seq<char>> {
        Seq::new(self.entries@.len(), |i: int| self.entries@[i].0@)
    }

    /// The value held at a position.
    pub closed spec fn value_at(&self, i: int) -> V {
        self.entries@[i].1
    }

    /// No key is held twice.
    pub closed spec fn wf(&self) -> bool {
        self.keys().no_duplicates()
    }

    /// The keys are pairwise different, each is in the map with the value at
    /// its position, and the map holds nothing else.
    pub proof fn lemma_entries(&self)
        requires
            self.wf(),
        ensures
            self.keys().no_duplicates(),
            self@.dom().finite(),
            self@.dom() == self.keys().to_set(),
            self@.len() == self.keys().len(),
            forall|i: int|
                0 <= i < self.keys().len() ==> self@.contains_key(#[trigger] self.keys()[i])
                    && self@[self.keys()[i]] == self.value_at(i),
            forall|k: Seq<char>| #[trigger]
                self@.contains_key(k) ==> exists|i: int|
                    0 <= i < self.keys().len() && self.keys()[i] == k,
    {
        let ks = self.keys();
        assert(self@.dom() =~= ks.to_set());
        ks.unique_seq_to_set();
        assert forall|i: int| 0 <= i < ks.len() implies self@.contains_key(#[trigger] ks[i])
            && self@[ks[i]] == self.value_at(i) by {
            assert(ks.contains(ks[i]));
            let j = ks.index_of(ks[i]);
            assert(ks[j] == ks[i]);
        }
        assert forall|k: Seq<char>| #[trigger] self@.contains_key(k) implies exists|i: int|
            0 <= i < ks.len() && ks[i] == k by {
            assert(ks.contains(k));
        }
    }

    /// Two maps that hold the same keys in the same order, with values that
    /// `f` does not tell apart, are the same once `f` is applied to their
    /// values.
    pub proof fn lemma_same_under<W>(&self, other: &StrMap<V>, f: spec_fn(V) -> W)
        requires
            self.wf(),
            other.wf(),
            self.keys() == other.keys(),
            forall|i: int|
                0 <= i < self.keys().len() ==> f(#[trigger] self.value_at(i)) == f(
                    other.value_at(i),
                ),
        ensures
            self@.map_values(f) == other@.map_values(f),
    {
        self.lemma_entries();
        other.lemma_entries();
        assert(self@.dom() =~= other@.dom());
        assert forall|k: Seq<char>| self@.contains_key(k) implies f(self@[k]) == f(other@[k]) by {
            let i = choose|i: int| 0 <= i < self.keys().len() && self.keys()[i] == k;
            assert(self@[self.keys()[i]] == self.value_at(i));
            assert(other@[other.keys()[i]] == other.value_at(i));
        }
        assert(self@.map_values(f) =~= other@.map_values(f));
    }

    /// An empty map.
    pub fn new() -> (m: Self)
        ensures
            m.wf(),
            m@ == Map::<Seq<char>, V>::empty(),
            m.keys().len() == 0,
    {
        let m = StrMap { entries: Vec::new() };
        proof {
            assert(m.keys() =~= Seq::<Seq<char>>::empty());
            assert(m@ =~= Map::<Seq<char>, V>::empty());
        }
        m
    }

    /// The number of entries.
    pub fn len(&self) -> (n: usize)
        requires
            self.wf(),
        ensures
            n == self@.len(),
            n == self.keys().len(),
            self@.dom().finite(),
    {
        proof {
            self.lemma_entries();
        }
        self.entries.len()
    }

    /// The position of a key, if the map holds it.
    pub fn position(&self, key: &String) -> (r: Option<usize>)
        requires
            self.wf(),
        ensures
            match r {
                Some(i) => i < self.keys().len() && self.keys()[i as int] == key@
                    && self@.contains_key(key@) && self@[key@] == self.value_at(i as int),
                None => !self@.contains_key(key@) && !self.keys().contains(key@),
            },
    {
        proof {
            self.lemma_entries();
        }
        let mut i: usize = 0;
        while i < self.entries.len()
            invariant
                self.wf(),
                0 <= i <= self.entries@.len(),
                self.keys().len() == self.entries@.len(),
                forall|j: int| 0 <= j < i ==> self.keys()[j] != key@,
            decreases self.entries@.len() - i,
        {
            if same_text(&self.entries[i].0, key) {
                proof {
                    assert(self.keys()[i as int] == key@);
                    self.lemma_entries();
                }
                return Some(i);
            }
            i += 1;
        }
        None
    }

    /// The key at a position.
    pub fn key(&self, i: usize) -> (k: &String)
        requires
            self.wf(),
            i < self.keys().len(),
        ensures
            k@ == self.keys()[i as int],
            self@.contains_key(k@),
    {
        proof {
            self.lemma_entries();
        }
        &self.entries[i].0
    }

    /// The value at a position.
    pub fn value(&self, i: usize) -> (v: &V)
        requires
            self.wf(),
            i < self.keys().len(),
        ensures
            *v == self.value_at(i as int),
            *v == self@[self.keys()[i as int]],
    {
        proof {
            self.lemma_entries();
        }
        &self.entries[i].1
    }

    /// The value of a key, if the map holds it.
    pub fn get(&self, key: &String) -> (r: Option<&V>)
        requires
            self.wf(),
        ensures
            match r {
                Some(v) => self@.contains_key(key@) && *v == self@[key@],
                None => !self@.contains_key(key@),
            },
    {
        match self.position(key) {
            Some(i) => Some(&self.entries[i].1),
            None => None,
        }
    }

    /// Whether the map holds a key.
    pub fn contains_key(&self, key: &String) -> (b: bool)
        requires
            self.wf(),
        ensures
            b == self@.contains_key(key@),
    {
        self.position(key).is_some()
    }

    /// Puts a value under a key, in place of the value that the key had, and
    /// returns that value.
    pub fn insert(&mut self, key: String, value: V) -> (previous: Option<V>)
        requires
            old(self).wf(),
        ensures
            final(self).wf(),
            final(self)@ == old(self)@.insert(key@, value),
            previous == if old(self)@.contains_key(key@) {
                Some(old(self)@[key@])
            } else {
                None::<V>
            },
            old(self)@.contains_key(key@) ==> final(self).keys() == old(self).keys(),
            !old(self)@.contains_key(key@) ==> final(self).keys() == old(self).keys().push(key@)
                && final(self).value_at(old(self).keys().len() as int) == value,
            forall|j: int|
                0 <= j < old(self).keys().len() ==> #[trigger] final(self).value_at(j) == if old(
                    self,
                ).keys()[j] == key@ {
                    value
                } else {
                    old(self).value_at(j)
                },
    {
        proof {
            self.lemma_entries();
        }
        let ghost before = *self;
        match self.position(&key) {
            Some(i) => {
                let mut entry = (key, value);
                self.entries.set_and_swap(i, &mut entry);
                proof {
                    assert(self.keys() =~= before.keys());
                    self.lemma_entries();
                    assert(self@ =~= before@.insert(key@, value)) by {
                        assert forall|k: Seq<char>| self@.contains_key(k) implies #[trigger] self@[k]
                            == before@.insert(key@, value)[k] by {
                            let j = choose|j: int| 0 <= j < self.keys().len() && self.keys()[j] == k;
                            assert(self@[self.keys()[j]] == self.value_at(j));
                            assert(before@[before.keys()[j]] == before.value_at(j));
                        }
                    }
                }
                Some(entry.1)
            },
            None => {
                self.entries.push((key, value));
                proof {
                    assert(self.keys() =~= before.keys().push(key@));
                    assert(self.keys().no_duplicates());
                    self.lemma_entries();
                    assert(self@ =~= before@.insert(key@, value)) by {
                        assert(self@.dom() =~= before@.dom().insert(key@)) by {
                            assert forall|k: Seq<char>| self@.dom().contains(k)
                                == before@.dom().insert(key@).contains(k) by {
                                if self@.contains_key(k) {
                                    let j = choose|j: int|
                                        0 <= j < self.keys().len() && self.keys()[j] == k;
                                    if j < before.keys().len() {
                                        assert(before.keys()[j] == k);
                                    }
                                }
                                if before@.contains_key(k) {
                                    let j = choose|j: int|
                                        0 <= j < before.keys().len() && before.keys()[j] == k;
                                    assert(self.keys()[j] == k);
                                }
                                if k == key@ {
                                    assert(self.keys()[before.keys().len() as int] == k);
                                }
                            }
                        }
                        assert forall|k: Seq<char>| self@.contains_key(k) implies #[trigger] self@[k]
                            == before@.insert(key@, value)[k] by {
                            let j = choose|j: int| 0 <= j < self.keys().len() && self.keys()[j] == k;
                            assert(self@[self.keys()[j]] == self.value_at(j));
                            if j < before.keys().len() {
                                assert(before@[before.keys()[j]] == before.value_at(j));
                            }
                        }
                    }
                }
                None
            },
        }
    }

    /// Takes a key and its value out of the map and returns the value.
    pub fn remove(&mut self, key: &String) -> (previous: Option<V>)
        requires
            old(self).wf(),
        ensures
            final(self).wf(),
            final(self)@ == old(self)@.remove(key@),
            previous == if old(self)@.contains_key(key@) {
                Some(old(self)@[key@])
            } else {
                None::<V>
            },
    {
        proof {
            self.lemma_entries();
        }
        let ghost before = *self;
        match self.position(key) {
            Some(i) => {
                let entry = self.entries.remove(i);
                proof {
                    assert(self.keys() =~= before.keys().remove(i as int));
                    assert(self.keys().no_duplicates()) by {
                        assert forall|a: int, b: int|
                            0 <= a < self.keys().len() && 0 <= b < self.keys().len() && a
                                != b implies self.keys()[a] != self.keys()[b] by {
                            let a0 = if a < i { a } else { a + 1 };
                            let b0 = if b < i { b } else { b + 1 };
                            assert(self.keys()[a] == before.keys()[a0]);
                            assert(self.keys()[b] == before.keys()[b0]);
                        }
                    }
                    self.lemma_entries();
                    assert(self@ =~= before@.remove(key@)) by {
                        assert forall|k: Seq<char>| self@.dom().contains(k) == before@.remove(
                            key@,
                        ).dom().contains(k) by {
                            if self@.contains_key(k) {
                                let j = choose|j: int|
                                    0 <= j < self.keys().len() && self.keys()[j] == k;
                                let j0 = if j < i { j } else { j + 1 };
                                assert(before.keys()[j0] == k);
                            }
                            if before@.contains_key(k) && k != key@ {
                                let j = choose|j: int|
                                    0 <= j < before.keys().len() && before.keys()[j] == k;
                                let j1 = if j < i { j } else { j - 1 };
                                assert(self.keys()[j1] == k);
                            }
                        }
                        assert forall|k: Seq<char>| self@.contains_key(k) implies #[trigger] self@[k]
                            == before@.remove(key@)[k] by {
                            let j = choose|j: int| 0 <= j < self.keys().len() && self.keys()[j] == k;
                            let j0 = if j < i { j } else { j + 1 };
                            assert(self@[self.keys()[j]] == self.value_at(j));
                            assert(before@[before.keys()[j0]] == before.value_at(j0));
                        }
                    }
                }
                Some(entry.1)
            },
            None => {
                proof {
                    assert(self@ =~= before@.remove(key@));
                }
                None
            },
        }
    }
}

} // verus!
