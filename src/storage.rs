use vstd::prelude::*;

use crate::error::{no_element, Error};
use std::collections::HashMap;

verus! {

broadcast use vstd::std_specs::hash::group_hash_axioms;

/// Whether a store's contents are meant to outlive the process.
///
/// The stores do no I/O themselves: the contents of a `Durable` store are
/// written to its folder, and read back from it, by whoever persists it.
#[derive(Debug, Clone, Copy, PartialEq, Eq, Structural)]
pub enum StorageType {
    Memory,
    Durable,
}

/// The map that storing `s`'s pairs one after another builds.
pub open spec fn map_of<V>(s: Seq<(u64, V)>) -> Map<u64, V>
    decreases s.len(),
{
    if s.len() == 0 {
        Map::empty()
    } else {
        map_of(s.drop_last()).insert(s.last().0, s.last().1)
    }
}

/// `s` lists the pairs of `m`, each key once.
pub open spec fn lists<V>(s: Seq<(u64, V)>, m: Map<u64, V>) -> bool {
    &&& forall|i: int, j: int| 0 <= i < j < s.len() ==> s[i].0 != s[j].0
    &&& forall|i: int| 0 <= i < s.len() ==> m.contains_key(#[trigger] s[i].0) && m[s[i].0] == s[i].1
    &&& forall|k: u64| m.contains_key(k) ==> exists|i: int| 0 <= i < s.len() && #[trigger] s[i].0 == k
}

/// Storing the pairs that list a map, in any order, rebuilds the map.
pub proof fn lemma_map_of_lists<V>(s: Seq<(u64, V)>, m: Map<u64, V>)
    requires
        lists(s, m),
    ensures
        map_of(s) == m,
    decreases s.len(),
{
    if s.len() == 0 {
        assert(map_of(s) =~= m);
    } else {
        let t = s.drop_last();
        let last = s.last();
        let m2 = m.remove(last.0);
        assert forall|k: u64| m2.contains_key(k) implies exists|i: int|
            0 <= i < t.len() && #[trigger] t[i].0 == k by {
            let i = choose|i: int| 0 <= i < s.len() && #[trigger] s[i].0 == k;
            assert(i != s.len() - 1);
            assert(t[i].0 == k);
        }
        assert forall|i: int| 0 <= i < t.len() implies m2.contains_key(#[trigger] t[i].0)
            && m2[t[i].0] == t[i].1 by {
            assert(s[i] == t[i]);
            assert(s[i].0 != s[s.len() - 1].0);
        }
        assert(lists(t, m2));
        lemma_map_of_lists(t, m2);
        assert(map_of(s) =~= m);
    }
}

/// A mapping from 64-bit keys to values.
pub struct Storage<V: Copy> {
    storage_type: StorageType,
    entries: HashMap<u64, V>,
    keys: Vec<u64>,
}

impl<V: Copy> View for Storage<V> {
    type V = Map<u64, V>;

    closed spec fn view(&self) -> Map<u64, V> {
        self.entries@
    }
}

impl<V: Copy> Storage<V> {
    /// The key list names every stored key once.
    pub closed spec fn wf(&self) -> bool {
        &&& forall|i: int, j: int| 0 <= i < j < self.keys@.len() ==> self.keys@[i] != self.keys@[j]
        &&& forall|i: int| 0 <= i < self.keys@.len() ==> self@.contains_key(#[trigger] self.keys@[i])
        &&& forall|k: u64| self@.contains_key(k) ==> exists|i: int|
            0 <= i < self.keys@.len() && #[trigger] self.keys@[i] == k
    }

    /// Whether the store was opened on a folder.
    pub closed spec fn is_durable(&self) -> bool {
        self.storage_type == StorageType::Durable
    }

    /// An empty store of integers, durable when a folder is given.
    pub fn new_integer(maybe_folder_path: Option<String>) -> (r: Storage<u64>)
        ensures
            r@ == Map::<u64, u64>::empty(),
            r.wf(),
            r.is_durable() == maybe_folder_path.is_some(),
    {
        Storage::<u64>::new(maybe_folder_path)
    }

    /// An empty store of booleans, durable when a folder is given.
    pub fn new_bool(maybe_folder_path: Option<String>) -> (r: Storage<bool>)
        ensures
            r@ == Map::<u64, bool>::empty(),
            r.wf(),
            r.is_durable() == maybe_folder_path.is_some(),
    {
        Storage::<bool>::new(maybe_folder_path)
    }

    /// An empty store, durable when a folder is given.
    pub fn new(maybe_durable: Option<String>) -> (r: Storage<V>)
        ensures
            r@ == Map::<u64, V>::empty(),
            r.wf(),
            r.is_durable() == maybe_durable.is_some(),
    {
        let storage_type = match &maybe_durable {
            Some(_) => StorageType::Durable,
            None => StorageType::Memory,
        };
        Storage { storage_type, entries: HashMap::new(), keys: Vec::new() }
    }

    pub fn storage_type(&self) -> (r: StorageType)
        ensures
            (r == StorageType::Durable) == self.is_durable(),
    {
        self.storage_type
    }

    /// The value under `key`; an `Empty` error where there is none.
    pub fn get(&self, key: &u64) -> (r: Result<V, Error>)
        ensures
            self@.contains_key(*key) ==> r == Ok::<V, Error>(self@[*key]),
            !self@.contains_key(*key) ==> r is Err && r->Err_0.is_empty_kind(),
    {
        match self.entries.get(key) {
            Some(v) => Ok(*v),
            None => Err(no_element()),
        }
    }

    /// Stores `value` under `key`, replacing what was there.
    pub fn put(&mut self, key: &u64, value: V) -> (r: Result<(), Error>)
        requires
            old(self).wf(),
        ensures
            final(self).wf(),
            r is Ok,
            final(self)@ == old(self)@.insert(*key, value),
            final(self).is_durable() == old(self).is_durable(),
    {
        if !self.entries.contains_key(key) {
            self.keys.push(*key);
        }
        self.entries.insert(*key, value);
        proof {
            self.lemma_keys_after_insert(*old(self), *key);
        }
        Ok(())
    }

    proof fn lemma_keys_after_insert(&self, before: Storage<V>, key: u64)
        requires
            before.wf(),
            self@.dom() == before@.dom().insert(key),
            before@.contains_key(key) ==> self.keys@ == before.keys@,
            !before@.contains_key(key) ==> self.keys@ == before.keys@.push(key),
        ensures
            self.wf(),
    {
        assert forall|k: u64| self@.contains_key(k) implies exists|i: int|
            0 <= i < self.keys@.len() && #[trigger] self.keys@[i] == k by {
            if k == key && !before@.contains_key(key) {
                assert(self.keys@[self.keys@.len() - 1] == k);
            } else {
                assert(before@.contains_key(k));
                let i = choose|i: int| 0 <= i < before.keys@.len() && #[trigger] before.keys@[i] == k;
                assert(self.keys@[i] == k);
            }
        }
        assert forall|i: int| 0 <= i < self.keys@.len() implies self@.contains_key(
            #[trigger] self.keys@[i],
        ) by {
            if i < before.keys@.len() {
                assert(before@.contains_key(before.keys@[i]));
            }
        }
    }

    /// Stores `value` under `key` only where the key holds nothing yet;
    /// tells whether it did.
    pub fn put_if_absent(&mut self, key: &u64, value: V) -> (r: Result<bool, Error>)
        requires
            old(self).wf(),
        ensures
            final(self).wf(),
            r == Ok::<bool, Error>(!old(self)@.contains_key(*key)),
            final(self)@ == if old(self)@.contains_key(*key) {
                old(self)@
            } else {
                old(self)@.insert(*key, value)
            },
            final(self).is_durable() == old(self).is_durable(),
    {
        if self.entries.contains_key(key) {
            Ok(false)
        } else {
            self.keys.push(*key);
            self.entries.insert(*key, value);
            proof {
                self.lemma_keys_after_insert(*old(self), *key);
            }
            Ok(true)
        }
    }

    /// Replaces the value under `key` by `f` of it and returns the new value;
    /// an `Empty` error, with nothing changed, where the key holds nothing.
    pub fn update<F: Fn(V) -> V>(&mut self, key: &u64, f: F) -> (r: Result<V, Error>)
        requires
            old(self).wf(),
            old(self)@.contains_key(*key) ==> f.requires((old(self)@[*key],)),
        ensures
            final(self).wf(),
            old(self)@.contains_key(*key) ==> r is Ok && f.ensures((old(self)@[*key],), r->Ok_0)
                && final(self)@ == old(self)@.insert(*key, r->Ok_0),
            !old(self)@.contains_key(*key) ==> r is Err && r->Err_0.is_empty_kind()
                && final(self)@ == old(self)@,
            final(self).is_durable() == old(self).is_durable(),
    {
        let value = match self.entries.get(key) {
            Some(v) => *v,
            None => {
                return Err(no_element());
            },
        };
        let new_value = f(value);
        self.entries.insert(*key, new_value);
        proof {
            self.lemma_keys_after_insert(*old(self), *key);
        }
        Ok(new_value)
    }

    /// Every stored pair, each key once, in the order the keys were first
    /// stored.
    pub fn entries(&self) -> (r: Vec<(u64, V)>)
        requires
            self.wf(),
        ensures
            lists(r@, self@),
    {
        let mut r: Vec<(u64, V)> = Vec::new();
        let mut i: usize = 0;
        while i < self.keys.len()
            invariant
                self.wf(),
                0 <= i <= self.keys@.len(),
                r@.len() == i,
                forall|j: int| 0 <= j < i ==> #[trigger] r@[j].0 == self.keys@[j],
                forall|j: int| 0 <= j < i ==> r@[j].1 == self@[self.keys@[j]],
            decreases self.keys@.len() - i,
        {
            let k = self.keys[i];
            let v = match self.entries.get(&k) {
                Some(v) => *v,
                None => {
                    proof {
                        assert(self@.contains_key(self.keys@[i as int]));
                    }
                    return r;
                },
            };
            r.push((k, v));
            i = i + 1;
        }
        assert forall|k: u64| self@.contains_key(k) implies exists|j: int|
            0 <= j < r@.len() && #[trigger] r@[j].0 == k by {
            let j = choose|j: int| 0 <= j < self.keys@.len() && #[trigger] self.keys@[j] == k;
            assert(r@[j].0 == k);
        }
        r
    }

    /// A store that holds the pairs of `entries`, stored one after another.
    pub fn from_entries(maybe_durable: Option<String>, entries: &Vec<(u64, V)>) -> (r: Storage<V>)
        ensures
            r.wf(),
            r@ == map_of(entries@),
            r.is_durable() == maybe_durable.is_some(),
    {
        let mut r = Storage::<V>::new(maybe_durable);
        let mut i: usize = 0;
        while i < entries.len()
            invariant
                0 <= i <= entries@.len(),
                r.wf(),
                r@ == map_of(entries@.take(i as int)),
                r.is_durable() == maybe_durable.is_some(),
            decreases entries@.len() - i,
        {
            let (k, v) = entries[i];
            let _ = r.put(&k, v);
            assert(entries@.take(i + 1).drop_last() =~= entries@.take(i as int));
            i = i + 1;
        }
        assert(entries@.take(entries@.len() as int) =~= entries@);
        r
    }

    /// Whether nothing has been stored yet.
    pub fn is_empty(&self) -> (r: bool)
        ensures
            r == (self@ == Map::<u64, V>::empty()),
    {
        let r = self.entries.is_empty();
        proof {
            if r {
                assert(self@ =~= Map::<u64, V>::empty());
            }
        }
        r
    }
}

} // verus!
