//! A map from strings to values that keeps its entries in the order in
//! which their keys first arrived.

use vstd::prelude::*;
use crate::text::str_eq;

verus! {

/// An insertion-ordered map keyed by strings. No key is stored twice.
#[derive(Debug)]
pub struct StrMap<V> {
    entries: Vec<(String, V)>,
}

/// Whether no two entries of `s` carry the same key.
pub open spec fn distinct_keys<V>(s: Seq<(String, V)>) -> bool {
    forall|i: int, j: int| 0 <= i < j < s.len() ==> (#[trigger] s[i]).0@ != (#[trigger] s[j]).0@
}

/// Whether some entry of `s` carries the key `k`.
pub open spec fn has_key<V>(s: Seq<(String, V)>, k: Seq<char>) -> bool {
    exists|i: int| 0 <= i < s.len() && (#[trigger] s[i]).0@ == k
}

/// The position of an entry of `s` that carries the key `k`.
pub open spec fn index_of<V>(s: Seq<(String, V)>, k: Seq<char>) -> int {
    choose|i: int| 0 <= i < s.len() && (#[trigger] s[i]).0@ == k
}

impl<V: View> View for StrMap<V> {
    type V = Map<Seq<char>, V::V>;

    /// The mapping from each stored key to the view of its value.
    closed spec fn view(&self) -> Map<Seq<char>, V::V> {
        Map::new(
            |k: Seq<char>| has_key(self.entries@, k),
            |k: Seq<char>| self.entries@[index_of(self.entries@, k)].1@,
        )
    }
}

impl<V> StrMap<V> {
    #[verifier::type_invariant]
    spec fn inv(self) -> bool {
        distinct_keys(self.entries@)
    }
}

impl<V: View> StrMap<V> {
    /// The keys in the order in which they were first inserted.
    pub closed spec fn keys(&self) -> Seq<Seq<char>> {
        Seq::new(self.entries@.len(), |i: int| self.entries@[i].0@)
    }

    /// An empty map.
    pub fn new() -> (m: Self)
        ensures
            m@ == Map::<Seq<char>, V::V>::empty(),
            m.keys() == Seq::<Seq<char>>::empty(),
    {
        let m = StrMap { entries: Vec::new() };
        assert(m@ =~= Map::<Seq<char>, V::V>::empty());
        assert(m.keys() =~= Seq::<Seq<char>>::empty());
        m
    }

    /// The number of entries. The keys are those of the mapping, each
    /// of them once.
    pub fn len(&self) -> (n: usize)
        ensures
            n == self.keys().len(),
            self.keys().no_duplicates(),
            forall|k: Seq<char>| self@.contains_key(k) <==> self.keys().contains(k),
    {
        proof {
            use_type_invariant(self);
            assert forall|k: Seq<char>| self@.contains_key(k) implies self.keys().contains(k) by {
                let i = index_of(self.entries@, k);
                assert(self.keys()[i] == k);
            }
            assert forall|k: Seq<char>| self.keys().contains(k) implies self@.contains_key(k) by {
                let i = choose|i: int| 0 <= i < self.keys().len() && self.keys()[i] == k;
                assert(self.entries@[i].0@ == k);
            }
        }
        self.entries.len()
    }

    /// The key at place `i` in the order of first insertion.
    pub fn key_at(&self, i: usize) -> (k: &String)
        requires
            i < self.keys().len(),
        ensures
            k@ == self.keys()[i as int],
    {
        &self.entries[i].0
    }

    /// The value that belongs to the key at place `i`.
    pub fn value_at(&self, i: usize) -> (v: &V)
        requires
            i < self.keys().len(),
        ensures
            self@.contains_key(self.keys()[i as int]),
            self@[self.keys()[i as int]] == v@,
    {
        proof {
            use_type_invariant(self);
            assert(has_key(self.entries@, self.entries@[i as int].0@));
        }
        &self.entries[i].1
    }

    /// The position of `key` among the entries, if it is there.
    fn position(&self, key: &str) -> (r: Option<usize>)
        ensures
            match r {
                Some(i) => i < self.entries.len() && self.entries[i as int].0@ == key@,
                None => !has_key(self.entries@, key@),
            },
    {
        let mut i: usize = 0;
        while i < self.entries.len()
            invariant
                i <= self.entries.len(),
                forall|j: int| 0 <= j < i ==> (#[trigger] self.entries[j]).0@ != key@,
            decreases self.entries.len() - i,
        {
            if str_eq(self.entries[i].0.as_str(), key) {
                return Some(i);
            }
            i += 1;
        }
        None
    }

    /// The value stored under `key`, if there is one.
    pub fn get(&self, key: &str) -> (r: Option<&V>)
        ensures
            match r {
                Some(v) => self@.contains_key(key@) && self@[key@] == v@,
                None => !self@.contains_key(key@),
            },
    {
        proof {
            use_type_invariant(self);
        }
        match self.position(key) {
            Some(i) => {
                assert(has_key(self.entries@, key@));
                Some(&self.entries[i].1)
            },
            None => None,
        }
    }

    /// Store `value` under `key`, replacing what was stored there.
    pub fn insert(&mut self, key: String, value: V)
        ensures
            final(self)@ == old(self)@.insert(key@, value@),
            old(self)@.contains_key(key@) ==> final(self).keys() == old(self).keys(),
            !old(self)@.contains_key(key@) ==> final(self).keys() == old(self).keys().push(key@),
    {
        proof {
            use_type_invariant(&*self);
        }
        let ghost before = self.entries@;
        match self.position(key.as_str()) {
            Some(i) => {
                assert(has_key(before, key@));
                let mut entries: Vec<(String, V)> = Vec::new();
                core::mem::swap(&mut self.entries, &mut entries);
                entries[i].1 = value;
                core::mem::swap(&mut self.entries, &mut entries);
                let ghost after = self.entries@;
                assert(after.len() == before.len());
                assert(forall|j: int| 0 <= j < after.len() ==> (#[trigger] after[j]).0 == before[j].0);
                assert(forall|k: Seq<char>| has_key(after, k) <==> has_key(before, k)) by {
                    assert forall|k: Seq<char>| has_key(before, k) implies has_key(after, k) by {
                        let j = index_of(before, k);
                        assert(after[j].0@ == k);
                    }
                    assert forall|k: Seq<char>| has_key(after, k) implies has_key(before, k) by {
                        let j = index_of(after, k);
                        assert(before[j].0@ == k);
                    }
                }
                assert(self@ =~= old(self)@.insert(key@, value@)) by {
                    assert forall|k: Seq<char>| has_key(after, k) implies #[trigger] self@[k] == old(self)@.insert(key@, value@)[k] by {
                        let j = index_of(after, k);
                        let j0 = index_of(before, k);
                        assert(before[j].0@ == k);
                        assert(j == j0);
                    }
                }
                assert(self.keys() =~= old(self).keys());
            },
            None => {
                let mut entries: Vec<(String, V)> = Vec::new();
                core::mem::swap(&mut self.entries, &mut entries);
                entries.push((key, value));
                core::mem::swap(&mut self.entries, &mut entries);
                let ghost after = self.entries@;
                assert(forall|k: Seq<char>| has_key(after, k) <==> (has_key(before, k) || k == key@)) by {
                    assert forall|k: Seq<char>| has_key(before, k) || k == key@ implies has_key(after, k) by {
                        if has_key(before, k) {
                            let j = index_of(before, k);
                            assert(after[j].0@ == k);
                        } else {
                            assert(after[before.len() as int].0@ == k);
                        }
                    }
                    assert forall|k: Seq<char>| has_key(after, k) implies has_key(before, k) || k == key@ by {
                        let j = index_of(after, k);
                        if j < before.len() {
                            assert(before[j].0@ == k);
                        }
                    }
                }
                assert(self@ =~= old(self)@.insert(key@, value@)) by {
                    assert forall|k: Seq<char>| has_key(after, k) implies #[trigger] self@[k] == old(self)@.insert(key@, value@)[k] by {
                        let j = index_of(after, k);
                        if k != key@ {
                            let j0 = index_of(before, k);
                            assert(after[j0].0@ == k);
                            assert(j == j0);
                        } else {
                            assert(after[before.len() as int].0@ == k);
                            assert(j == before.len());
                        }
                    }
                }
                assert(self.keys() =~= old(self).keys().push(key@));
            },
        }
    }
}

} // verus!
