use vstd::prelude::*;

use crate::error::{no_element, Error};
use crate::storage::StorageType;
use std::collections::HashMap;

verus! {

broadcast use vstd::std_specs::hash::group_hash_axioms;

/// The entries under one prefix: `(key, value)` pairs.
pub type Entries = Seq<(u64, u64)>;

/// Keys strictly ascending, hence each key at most once.
pub open spec fn sorted_by_key<T>(s: Seq<(u64, T)>) -> bool {
    forall|i: int, j: int| 0 <= i < j < s.len() ==> s[i].0 < s[j].0
}

pub open spec fn has_key<T>(s: Seq<(u64, T)>, k: u64) -> bool {
    exists|i: int| 0 <= i < s.len() && s[i].0 == k
}

/// Where `k` stands in `s`, if it does.
pub open spec fn key_index<T>(s: Seq<(u64, T)>, k: u64) -> int {
    choose|i: int| 0 <= i < s.len() && s[i].0 == k
}

/// The value stored under `k`, if any.
pub open spec fn value_of<T>(s: Seq<(u64, T)>, k: u64) -> Option<T> {
    if has_key(s, k) {
        Some(s[key_index(s, k)].1)
    } else {
        None
    }
}

/// Whether `k` fits at position `i` of `s`: every key before is smaller,
/// every key from there on larger.
pub open spec fn fits_at<T>(s: Seq<(u64, T)>, k: u64, i: int) -> bool {
    &&& 0 <= i <= s.len()
    &&& forall|j: int| 0 <= j < i ==> s[j].0 < k
    &&& forall|j: int| i <= j < s.len() ==> s[j].0 > k
}

/// Where a new key `k` goes to keep `s` ascending.
pub open spec fn insert_index<T>(s: Seq<(u64, T)>, k: u64) -> int {
    choose|i: int| fits_at(s, k, i)
}

/// `s` with `v` stored under `k`, replacing or inserting in key order.
pub open spec fn put_entry<T>(s: Seq<(u64, T)>, k: u64, v: T) -> Seq<(u64, T)> {
    if has_key(s, k) {
        s.update(key_index(s, k), (k, v))
    } else {
        s.insert(insert_index(s, k), (k, v))
    }
}

/// The keys of `s`, in order, whose values satisfy `pred`.
pub open spec fn keys_where(s: Entries, pred: spec_fn(u64) -> bool) -> Seq<u64>
    decreases s.len(),
{
    if s.len() == 0 {
        Seq::empty()
    } else if pred(s.last().1) {
        keys_where(s.drop_last(), pred).push(s.last().0)
    } else {
        keys_where(s.drop_last(), pred)
    }
}

/// The keys of `s`, in order, at the positions where `outs` is true.
pub open spec fn keys_selected(s: Entries, outs: Seq<bool>) -> Seq<u64>
    decreases s.len(),
{
    if s.len() == 0 || outs.len() < s.len() {
        Seq::empty()
    } else if outs[s.len() - 1] {
        keys_selected(s.drop_last(), outs.drop_last()).push(s.last().0)
    } else {
        keys_selected(s.drop_last(), outs.drop_last())
    }
}

/// Selecting by the outcomes of a predicate is filtering by it.
pub proof fn lemma_keys_selected(s: Entries, outs: Seq<bool>, pred: spec_fn(u64) -> bool)
    requires
        outs.len() == s.len(),
        forall|i: int| 0 <= i < s.len() ==> outs[i] == pred(#[trigger] s[i].1),
    ensures
        keys_selected(s, outs) == keys_where(s, pred),
    decreases s.len(),
{
    if s.len() > 0 {
        let t = s.drop_last();
        let o = outs.drop_last();
        assert forall|i: int| 0 <= i < t.len() implies o[i] == pred(#[trigger] t[i].1) by {
            assert(t[i] == s[i]);
        }
        lemma_keys_selected(t, o, pred);
    }
}

/// The values of `s`, in key order.
pub open spec fn values_of(s: Entries) -> Seq<u64> {
    s.map_values(|e: (u64, u64)| e.1)
}

/// The entries stored under prefix `p` of a prefix store's view.
pub open spec fn entries_at(m: Map<u64, Entries>, p: u64) -> Entries {
    if m.contains_key(p) {
        m[p]
    } else {
        Seq::empty()
    }
}

/// The value under `(p, k)` of a prefix store's view.
pub open spec fn value_at(m: Map<u64, Entries>, p: u64, k: u64) -> Option<u64> {
    value_of(entries_at(m, p), k)
}

/// Every prefix's entries ascend by key.
pub open spec fn all_sorted(m: Map<u64, Entries>) -> bool {
    forall|p: u64| #[trigger] m.contains_key(p) ==> sorted_by_key(m[p])
}

pub proof fn lemma_key_index<T>(s: Seq<(u64, T)>, k: u64, i: int)
    requires
        sorted_by_key(s),
        0 <= i < s.len(),
        s[i].0 == k,
    ensures
        has_key(s, k),
        key_index(s, k) == i,
        value_of(s, k) == Some(s[i].1),
{
    let c = key_index(s, k);
    if c < i {
        assert(s[c].0 < s[i].0);
    } else if c > i {
        assert(s[i].0 < s[c].0);
    }
}

pub proof fn lemma_put_entry_sorted<T>(s: Seq<(u64, T)>, k: u64, v: T)
    requires
        sorted_by_key(s),
    ensures
        sorted_by_key(put_entry(s, k, v)),
        value_of(put_entry(s, k, v), k) == Some(v),
        forall|k2: u64| k2 != k ==> value_of(put_entry(s, k, v), k2) == value_of(s, k2),
        has_key(s, k) ==> put_entry(s, k, v).len() == s.len(),
{
    let r = put_entry(s, k, v);
    if has_key(s, k) {
        let i = key_index(s, k);
        lemma_key_index(put_entry(s, k, v), k, i);
        assert forall|k2: u64| k2 != k implies value_of(r, k2) == value_of(s, k2) by {
            if has_key(s, k2) {
                let j = key_index(s, k2);
                lemma_key_index(r, k2, j);
            }
            if has_key(r, k2) {
                let j = key_index(r, k2);
                lemma_key_index(s, k2, j);
            }
        }
    } else {
        let i = insert_index(s, k);
        lemma_insert_point(s, k);
        assert(sorted_by_key(r));
        lemma_key_index(r, k, i);
        assert forall|k2: u64| k2 != k implies value_of(r, k2) == value_of(s, k2) by {
            if has_key(s, k2) {
                let j = key_index(s, k2);
                if j < i {
                    lemma_key_index(r, k2, j);
                } else {
                    lemma_key_index(r, k2, j + 1);
                }
            }
            if has_key(r, k2) {
                let j = key_index(r, k2);
                if j < i {
                    lemma_key_index(s, k2, j);
                } else {
                    lemma_key_index(s, k2, j - 1);
                }
            }
        }
    }
}

/// A sorted sequence that lacks `k` has a place where `k` fits.
pub proof fn lemma_insert_point<T>(s: Seq<(u64, T)>, k: u64)
    requires
        sorted_by_key(s),
        !has_key(s, k),
    ensures
        exists|i: int| fits_at(s, k, i),
    decreases s.len(),
{
    if s.len() == 0 {
        assert(fits_at(s, k, 0));
    } else {
        let t = s.drop_last();
        assert(!has_key(t, k)) by {
            if has_key(t, k) {
                let j = choose|j: int| 0 <= j < t.len() && t[j].0 == k;
                assert(s[j].0 == k);
            }
        }
        lemma_insert_point(t, k);
        let i = choose|i: int| fits_at(t, k, i);
        if s.last().0 < k {
            let n = s.len() as int;
            assert(forall|j: int| 0 <= j < n ==> s[j].0 < k) by {
                assert forall|j: int| 0 <= j < n implies s[j].0 < k by {
                    if j < n - 1 {
                        assert(s[j].0 < s[n - 1].0);
                    }
                }
            }
            assert(forall|j: int| n <= j < s.len() ==> s[j].0 > k);
            assert(fits_at(s, k, n));
        } else {
            assert(s.last().0 != k);
            assert(forall|j: int| 0 <= j < i ==> s[j].0 < k) by {
                assert forall|j: int| 0 <= j < i implies s[j].0 < k by {
                    assert(t[j] == s[j]);
                }
            }
            assert(forall|j: int| i <= j < s.len() ==> s[j].0 > k) by {
                assert forall|j: int| i <= j < s.len() implies s[j].0 > k by {
                    if j < s.len() - 1 {
                        assert(t[j] == s[j]);
                    }
                }
            }
            assert(fits_at(s, k, i));
        }
    }
}

fn blocks_clone_at(blocks: &Vec<(u64, Vec<(u64, u64)>)>, i: usize) -> (r: (u64, Vec<(u64, u64)>))
    requires
        i < blocks@.len(),
    ensures
        r.0 == blocks@[i as int].0,
        r.1@ == blocks@[i as int].1@,
{
    let (p, b) = &blocks[i];
    (*p, copy_entries(b))
}

fn copy_entries(v: &Vec<(u64, u64)>) -> (r: Vec<(u64, u64)>)
    ensures
        r@ == v@,
{
    let mut r: Vec<(u64, u64)> = Vec::new();
    let mut i: usize = 0;
    while i < v.len()
        invariant
            0 <= i <= v@.len(),
            r@ == v@.take(i as int),
        decreases v@.len() - i,
    {
        r.push(v[i]);
        assert(v@.take(i + 1) =~= v@.take(i as int).push(v@[i as int]));
        i = i + 1;
    }
    assert(v@.take(v@.len() as int) =~= v@);
    r
}

/// A mapping from `(prefix, key)` pairs of 64-bit integers to 64-bit
/// integers, iterated prefix by prefix in ascending key order.
pub struct PrefixStorage {
    storage_type: StorageType,
    entries: HashMap<u64, Vec<(u64, u64)>>,
    prefixes: Vec<u64>,
}

/// The view of the blocks of a prefix store's snapshot.
pub open spec fn blocks_view(blocks: Seq<(u64, Vec<(u64, u64)>)>) -> Seq<(u64, Entries)> {
    blocks.map_values(|b: (u64, Vec<(u64, u64)>)| (b.0, b.1@))
}

impl View for PrefixStorage {
    type V = Map<u64, Entries>;

    closed spec fn view(&self) -> Map<u64, Entries> {
        self.entries@.map_values(|v: Vec<(u64, u64)>| v@)
    }
}

impl PrefixStorage {
    /// The entries under each prefix ascend by key, and no prefix is held
    /// without entries.
    pub closed spec fn wf(&self) -> bool {
        &&& all_sorted(self@)
        &&& forall|p: u64| #[trigger] self@.contains_key(p) ==> self@[p].len() > 0
        &&& forall|i: int, j: int|
            0 <= i < j < self.prefixes@.len() ==> self.prefixes@[i] != self.prefixes@[j]
        &&& forall|i: int|
            0 <= i < self.prefixes@.len() ==> self@.contains_key(#[trigger] self.prefixes@[i])
        &&& forall|p: u64| self@.contains_key(p) ==> exists|i: int|
            0 <= i < self.prefixes@.len() && #[trigger] self.prefixes@[i] == p
    }

    pub closed spec fn is_durable(&self) -> bool {
        self.storage_type == StorageType::Durable
    }

    pub proof fn lemma_wf(&self)
        requires
            self.wf(),
        ensures
            all_sorted(self@),
            forall|p: u64| #[trigger] self@.contains_key(p) ==> self@[p].len() > 0,
    {
    }

    /// An empty store, durable when a folder is given.
    pub fn new_integer(maybe_folder_path: Option<String>) -> (r: PrefixStorage)
        ensures
            r.wf(),
            r@ == Map::<u64, Entries>::empty(),
            r.is_durable() == maybe_folder_path.is_some(),
    {
        let storage_type = match &maybe_folder_path {
            Some(_) => StorageType::Durable,
            None => StorageType::Memory,
        };
        let r = PrefixStorage {
            storage_type,
            entries: HashMap::new(),
            prefixes: Vec::new(),
        };
        assert(r@ =~= Map::<u64, Entries>::empty());
        r
    }

    /// The index of `key` in `s`, or where it would go.
    fn find(s: &Vec<(u64, u64)>, key: u64) -> (r: (usize, bool))
        requires
            sorted_by_key(s@),
        ensures
            r.0 <= s@.len(),
            r.1 == has_key(s@, key),
            r.1 ==> key_index(s@, key) == r.0 && s@[r.0 as int].0 == key,
            !r.1 ==> insert_index(s@, key) == r.0,
            !r.1 ==> (forall|j: int| 0 <= j < r.0 ==> s@[j].0 < key),
            !r.1 ==> (forall|j: int| r.0 <= j < s@.len() ==> s@[j].0 > key),
    {
        let mut i: usize = 0;
        while i < s.len() && s[i].0 < key
            invariant
                0 <= i <= s@.len(),
                sorted_by_key(s@),
                forall|j: int| 0 <= j < i ==> s@[j].0 < key,
            decreases s@.len() - i,
        {
            i = i + 1;
        }
        if i < s.len() && s[i].0 == key {
            proof {
                lemma_key_index(s@, key, i as int);
            }
            (i, true)
        } else {
            proof {
                assert forall|j: int| i <= j < s@.len() implies s@[j].0 > key by {
                    if j > i {
                        assert(s@[i as int].0 < s@[j].0);
                    }
                }
                assert(!has_key(s@, key)) by {
                    if has_key(s@, key) {
                        let j = choose|j: int| 0 <= j < s@.len() && s@[j].0 == key;
                    }
                }
                let c = insert_index(s@, key);
                assert(fits_at(s@, key, i as int));
                if c < i {
                    assert(s@[c].0 > key);
                } else if c > i {
                    assert(s@[i as int].0 < key);
                }
            }
            (i, false)
        }
    }

    /// The value under `(prefix, key)`; an `Empty` error where there is none.
    pub fn get(&self, prefix: &u64, key: &u64) -> (r: Result<u64, Error>)
        requires
            self.wf(),
        ensures
            value_at(self@, *prefix, *key) matches Some(v) ==> r == Ok::<u64, Error>(v),
            value_at(self@, *prefix, *key) is None ==> r is Err && r->Err_0.is_empty_kind(),
    {
        match self.entries.get(prefix) {
            Some(s) => {
                assert(s@ == entries_at(self@, *prefix));
                let (i, found) = PrefixStorage::find(s, *key);
                if found {
                    Ok(s[i].1)
                } else {
                    Err(no_element())
                }
            },
            None => {
                assert(entries_at(self@, *prefix) =~= Seq::<(u64, u64)>::empty());
                Err(no_element())
            },
        }
    }

    /// Stores `value` under `(prefix, key)`, replacing what was there.
    pub fn put(&mut self, prefix: &u64, key: &u64, value: u64) -> (r: Result<(), Error>)
        requires
            old(self).wf(),
        ensures
            r is Ok,
            final(self).wf(),
            final(self)@ == old(self)@.insert(
                *prefix,
                put_entry(entries_at(old(self)@, *prefix), *key, value),
            ),
            final(self).is_durable() == old(self).is_durable(),
    {
        let ghost before = entries_at(self@, *prefix);
        if !self.entries.contains_key(prefix) {
            self.prefixes.push(*prefix);
        }
        let mut s: Vec<(u64, u64)> = match self.entries.remove(prefix) {
            Some(s) => s,
            None => Vec::new(),
        };
        assert(s@ =~= before);
        let (i, found) = PrefixStorage::find(&s, *key);
        if found {
            s.set(i, (*key, value));
        } else {
            s.insert(i, (*key, value));
        }
        proof {
            lemma_put_entry_sorted(before, *key, value);
            assert(s@ =~= put_entry(before, *key, value));
        }
        self.entries.insert(*prefix, s);
        proof {
            assert(self@ =~= old(self)@.insert(*prefix, put_entry(before, *key, value)));
            assert forall|p: u64| self@.contains_key(p) implies exists|i: int|
                0 <= i < self.prefixes@.len() && #[trigger] self.prefixes@[i] == p by {
                if p == *prefix && !old(self)@.contains_key(p) {
                    assert(self.prefixes@[self.prefixes@.len() - 1] == p);
                } else {
                    assert(old(self)@.contains_key(p));
                    let i = choose|i: int|
                        0 <= i < old(self).prefixes@.len() && #[trigger] old(self).prefixes@[i] == p;
                    assert(self.prefixes@[i] == p);
                }
            }
            assert forall|i: int| 0 <= i < self.prefixes@.len() implies self@.contains_key(
                #[trigger] self.prefixes@[i],
            ) by {
                if i < old(self).prefixes@.len() {
                    assert(old(self)@.contains_key(old(self).prefixes@[i]));
                }
            }
        }
        Ok(())
    }

    /// Replaces the value under `(prefix, key)` by `f` of it; an `Empty`
    /// error, with nothing changed, where there is no such value.
    pub fn update<F: Fn(u64) -> u64>(&mut self, prefix: &u64, key: &u64, f: F) -> (r: Result<
        (),
        Error,
    >)
        requires
            old(self).wf(),
            value_at(old(self)@, *prefix, *key) matches Some(v) ==> f.requires((v,)),
        ensures
            final(self).wf(),
            final(self).is_durable() == old(self).is_durable(),
            value_at(old(self)@, *prefix, *key) is None ==> r is Err && r->Err_0.is_empty_kind()
                && final(self)@ == old(self)@,
            value_at(old(self)@, *prefix, *key) matches Some(v) ==> r is Ok && exists|w: u64|
                f.ensures((v,), w) && final(self)@ == old(self)@.insert(
                    *prefix,
                    put_entry(entries_at(old(self)@, *prefix), *key, w),
                ),
    {
        let value = match self.get(prefix, key) {
            Ok(v) => v,
            Err(e) => {
                return Err(e);
            },
        };
        let new_value = f(value);
        self.put(prefix, key, new_value)
    }

    /// Whether any entry is stored under `prefix`.
    pub fn has_prefix(&self, prefix: &u64) -> (r: Result<bool, Error>)
        requires
            self.wf(),
        ensures
            r == Ok::<bool, Error>(entries_at(self@, *prefix).len() > 0),
    {
        match self.entries.get(prefix) {
            Some(s) => Ok(s.len() > 0),
            None => Ok(false),
        }
    }

    /// The keys under `prefix`, in ascending order, whose values pass `check`.
    pub fn filter_keys_by_prefix<F: Fn(u64) -> bool>(&self, prefix: &u64, check: F) -> (r:
        Result<Vec<u64>, Error>)
        requires
            self.wf(),
            forall|v: u64| check.requires((v,)),
        ensures
            r is Ok,
            exists|outs: Seq<bool>|
                {
                    &&& outs.len() == entries_at(self@, *prefix).len()
                    &&& forall|i: int|
                        0 <= i < outs.len() ==> check.ensures(
                            (#[trigger] entries_at(self@, *prefix)[i].1,),
                            outs[i],
                        )
                    &&& r->Ok_0@ == keys_selected(entries_at(self@, *prefix), outs)
                },
    {
        let mut keys: Vec<u64> = Vec::new();
        let ghost es = entries_at(self@, *prefix);
        let ghost mut outs: Seq<bool> = Seq::empty();
        match self.entries.get(prefix) {
            Some(s) => {
                assert(s@ == es);
                let mut i: usize = 0;
                while i < s.len()
                    invariant
                        0 <= i <= s@.len(),
                        s@ == es,
                        forall|v: u64| check.requires((v,)),
                        outs.len() == i,
                        forall|j: int| 0 <= j < i ==> check.ensures((#[trigger] es[j].1,), outs[j]),
                        keys@ == keys_selected(es.take(i as int), outs),
                    decreases s@.len() - i,
                {
                    let (k, v) = s[i];
                    let keep = check(v);
                    proof {
                        let next = es.take(i + 1);
                        assert(next.drop_last() =~= es.take(i as int));
                        assert(next.last() == (k, v));
                        assert(outs.push(keep).drop_last() =~= outs);
                        outs = outs.push(keep);
                    }
                    if keep {
                        keys.push(k);
                    }
                    i = i + 1;
                }
                assert(es.take(es.len() as int) =~= es);
            },
            None => {
                assert(es =~= Seq::<(u64, u64)>::empty());
            },
        }
        assert(outs.len() == es.len());
        assert(keys@ == keys_selected(es, outs));
        assert(forall|i: int| 0 <= i < outs.len() ==> check.ensures((#[trigger] es[i].1,), outs[i]));
        Ok(keys)
    }

    /// The values under `prefix`, in ascending order of their keys.
    pub fn get_at_prefix(&self, prefix: &u64) -> (r: Result<Vec<u64>, Error>)
        requires
            self.wf(),
        ensures
            r is Ok,
            r->Ok_0@ == values_of(entries_at(self@, *prefix)),
    {
        let mut values: Vec<u64> = Vec::new();
        match self.entries.get(prefix) {
            Some(s) => {
                let ghost es = entries_at(self@, *prefix);
                assert(s@ == es);
                let mut i: usize = 0;
                while i < s.len()
                    invariant
                        0 <= i <= s@.len(),
                        s@ == es,
                        values@ == values_of(es.take(i as int)),
                    decreases s@.len() - i,
                {
                    values.push(s[i].1);
                    proof {
                        assert(values_of(es.take(i + 1)) =~= values_of(es.take(i as int)).push(
                            es[i as int].1,
                        ));
                    }
                    i = i + 1;
                }
                assert(es.take(es.len() as int) =~= es);
            },
            None => {
                assert(values_of(entries_at(self@, *prefix)) =~= Seq::<u64>::empty());
            },
        }
        Ok(values)
    }

    /// Every prefix with its entries in ascending key order, each prefix
    /// once, in the order the prefixes were first used.
    pub fn blocks(&self) -> (r: Vec<(u64, Vec<(u64, u64)>)>)
        requires
            self.wf(),
        ensures
            crate::storage::lists(blocks_view(r@), self@),
    {
        let mut r: Vec<(u64, Vec<(u64, u64)>)> = Vec::new();
        let mut i: usize = 0;
        while i < self.prefixes.len()
            invariant
                self.wf(),
                0 <= i <= self.prefixes@.len(),
                r@.len() == i,
                forall|j: int| 0 <= j < i ==> #[trigger] r@[j].0 == self.prefixes@[j],
                forall|j: int| 0 <= j < i ==> r@[j].1@ == self@[self.prefixes@[j]],
            decreases self.prefixes@.len() - i,
        {
            let p = self.prefixes[i];
            let block = match self.entries.get(&p) {
                Some(v) => copy_entries(v),
                None => {
                    proof {
                        assert(self@.contains_key(self.prefixes@[i as int]));
                    }
                    return r;
                },
            };
            r.push((p, block));
            i = i + 1;
        }
        let ghost bv = blocks_view(r@);
        assert forall|k: u64| self@.contains_key(k) implies exists|j: int|
            0 <= j < bv.len() && #[trigger] bv[j].0 == k by {
            let j = choose|j: int| 0 <= j < self.prefixes@.len() && #[trigger] self.prefixes@[j] == k;
            assert(bv[j].0 == k);
        }
        assert forall|j: int| 0 <= j < bv.len() implies self@.contains_key(#[trigger] bv[j].0)
            && self@[bv[j].0] == bv[j].1 by {
            assert(bv[j].0 == self.prefixes@[j]);
        }
        r
    }

    /// A store holding the blocks of a snapshot, a later block of a prefix
    /// replacing an earlier one; refused where a block is empty or its keys
    /// do not ascend.
    pub fn from_blocks(maybe_folder_path: Option<String>, blocks: Vec<(u64, Vec<(u64, u64)>)>) -> (r:
        Result<PrefixStorage, Error>)
        ensures
            r is Ok <==> forall|j: int|
                0 <= j < blocks@.len() ==> #[trigger] blocks@[j].1@.len() > 0 && sorted_by_key(
                    blocks@[j].1@,
                ),
            r matches Ok(st) ==> st.wf() && st@ == crate::storage::map_of(blocks_view(blocks@))
                && st.is_durable() == maybe_folder_path.is_some(),
    {
        let mut st = PrefixStorage::new_integer(maybe_folder_path);
        let ghost bv = blocks_view(blocks@);
        let mut i: usize = 0;
        let n = blocks.len();
        while i < n
            invariant
                0 <= i <= n,
                n == blocks@.len(),
                bv == blocks_view(blocks@),
                st.wf(),
                st@ == crate::storage::map_of(bv.take(i as int)),
                st.is_durable() == maybe_folder_path.is_some(),
                forall|j: int|
                    0 <= j < i ==> #[trigger] blocks@[j].1@.len() > 0 && sorted_by_key(
                        blocks@[j].1@,
                    ),
            decreases n - i,
        {
            let (p, block) = blocks_clone_at(&blocks, i);
            let mut ok = block.len() > 0;
            let mut j: usize = 1;
            while ok && j < block.len()
                invariant
                    1 <= j,
                    ok ==> j <= block@.len(),
                    ok ==> block@.len() > 0,
                    ok ==> forall|a: int, b: int| 0 <= a < b < j ==> block@[a].0 < block@[b].0,
                    !ok ==> !(block@.len() > 0 && sorted_by_key(block@)),
                decreases (if ok {
                    block@.len() + 1 - j
                } else {
                    0
                }),
            {
                if block[j - 1].0 >= block[j].0 {
                    ok = false;
                } else {
                    proof {
                        assert forall|a: int, b: int| 0 <= a < b < j + 1 implies block@[a].0
                            < block@[b].0 by {
                            if b == j && a < j - 1 {
                                assert(block@[a].0 < block@[j - 1].0);
                            }
                        }
                    }
                    j = j + 1;
                }
            }
            if !ok {
                return Err(Error::new(String::from_str("Snapshot block is empty or out of order")));
            }
            st.install(p, block);
            assert(bv.take(i + 1).drop_last() =~= bv.take(i as int));
            i = i + 1;
        }
        assert(bv.take(n as int) =~= bv);
        Ok(st)
    }

    /// Replaces the entries under `prefix` by `block`.
    fn install(&mut self, prefix: u64, block: Vec<(u64, u64)>)
        requires
            old(self).wf(),
            block@.len() > 0,
            sorted_by_key(block@),
        ensures
            final(self).wf(),
            final(self)@ == old(self)@.insert(prefix, block@),
            final(self).is_durable() == old(self).is_durable(),
    {
        let ghost b = block@;
        if !self.entries.contains_key(&prefix) {
            self.prefixes.push(prefix);
        }
        self.entries.insert(prefix, block);
        proof {
            assert(self@ =~= old(self)@.insert(prefix, b));
            assert forall|p: u64| self@.contains_key(p) implies exists|i: int|
                0 <= i < self.prefixes@.len() && #[trigger] self.prefixes@[i] == p by {
                if p == prefix && !old(self)@.contains_key(p) {
                    assert(self.prefixes@[self.prefixes@.len() - 1] == p);
                } else {
                    assert(old(self)@.contains_key(p));
                    let i = choose|i: int|
                        0 <= i < old(self).prefixes@.len() && #[trigger] old(self).prefixes@[i] == p;
                    assert(self.prefixes@[i] == p);
                }
            }
            assert forall|i: int| 0 <= i < self.prefixes@.len() implies self@.contains_key(
                #[trigger] self.prefixes@[i],
            ) by {
                if i < old(self).prefixes@.len() {
                    assert(old(self)@.contains_key(old(self).prefixes@[i]));
                }
            }
        }
    }

    /// Whether nothing has been stored yet.
    pub fn is_empty(&self) -> (r: bool)
        requires
            self.wf(),
        ensures
            r == (forall|p: u64| entries_at(self@, p).len() == 0),
    {
        let r = self.entries.is_empty();
        proof {
            if !r {
                let p = choose|p: u64| self.entries@.contains_key(p);
                assert(entries_at(self@, p).len() > 0);
            }
        }
        r
    }
}

} // verus!
