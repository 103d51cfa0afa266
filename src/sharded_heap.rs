use vstd::prelude::*;

use crate::error::Error;
use crate::prefix_storage::{
    fits_at, has_key, insert_index, lemma_key_index, lemma_put_entry_sorted, put_entry,
    sorted_by_key,
};
use crate::storage::StorageType;
use std::collections::HashMap;

verus! {

broadcast use vstd::std_specs::hash::group_hash_axioms;

/// The payloads of one bucket, each with the epoch it was pushed at.
pub type Shard = Seq<(u64, Seq<u8>)>;

/// The shard of bucket `b` in a heap's view; unknown buckets are empty.
pub open spec fn shard_at(m: Map<u64, Shard>, b: u64) -> Shard {
    if m.contains_key(b) {
        m[b]
    } else {
        Seq::empty()
    }
}

/// The payload with the lowest epoch of a shard, if any.
pub open spec fn head_of(s: Shard) -> Option<Seq<u8>> {
    if s.len() == 0 {
        None
    } else {
        Some(s[0].1)
    }
}

pub open spec fn shard_view(v: Vec<(u64, Vec<u8>)>) -> Shard {
    v@.map_values(|e: (u64, Vec<u8>)| (e.0, e.1@))
}

/// Buckets of byte payloads keyed by a 64-bit hash; within a bucket the
/// payloads are ordered by the epoch they were pushed at.
pub struct ShardedHeap {
    storage_type: StorageType,
    shards: HashMap<u64, Vec<(u64, Vec<u8>)>>,
    buckets: Vec<u64>,
}

/// The view of the blocks of a heap's snapshot.
pub open spec fn heap_blocks_view(blocks: Seq<(u64, Vec<(u64, Vec<u8>)>)>) -> Seq<(u64, Shard)> {
    blocks.map_values(|b: (u64, Vec<(u64, Vec<u8>)>)| (b.0, shard_view(b.1)))
}

fn copy_shard(v: &Vec<(u64, Vec<u8>)>) -> (r: Vec<(u64, Vec<u8>)>)
    ensures
        shard_view(r) == shard_view(*v),
{
    let mut r: Vec<(u64, Vec<u8>)> = Vec::new();
    let mut i: usize = 0;
    while i < v.len()
        invariant
            0 <= i <= v@.len(),
            r@.len() == i,
            shard_view(r) == shard_view(*v).take(i as int),
        decreases v@.len() - i,
    {
        let (e, payload) = &v[i];
        let copy = payload.clone();
        assert(copy@ == payload@);
        let ghost prev = r@;
        r.push((*e, copy));
        assert(r@ == prev.push((*e, copy)));
        assert(shard_view(r).len() == i + 1);
        assert forall|j: int| 0 <= j < i + 1 implies shard_view(r)[j] == shard_view(*v).take(
            i + 1,
        )[j] by {
            if j < i {
                assert(r@[j] == prev[j]);
            }
        }
        assert(shard_view(r) =~= shard_view(*v).take(i + 1));
        i = i + 1;
    }
    assert(shard_view(*v).take(v@.len() as int) =~= shard_view(*v));
    r
}

impl View for ShardedHeap {
    type V = Map<u64, Shard>;

    closed spec fn view(&self) -> Map<u64, Shard> {
        self.shards@.map_values(|v: Vec<(u64, Vec<u8>)>| shard_view(v))
    }
}

impl ShardedHeap {
    /// Every shard ascends by epoch.
    pub closed spec fn wf(&self) -> bool {
        &&& forall|b: u64| #[trigger] self@.contains_key(b) ==> sorted_by_key(self@[b])
        &&& forall|i: int, j: int|
            0 <= i < j < self.buckets@.len() ==> self.buckets@[i] != self.buckets@[j]
        &&& forall|i: int|
            0 <= i < self.buckets@.len() ==> self@.contains_key(#[trigger] self.buckets@[i])
        &&& forall|b: u64| self@.contains_key(b) ==> exists|i: int|
            0 <= i < self.buckets@.len() && #[trigger] self.buckets@[i] == b
    }

    proof fn lemma_buckets_after_insert(&self, before: ShardedHeap, key: u64)
        requires
            before.wf(),
            forall|b: u64| #[trigger] self@.contains_key(b) ==> sorted_by_key(self@[b]),
            self@.dom() == before@.dom().insert(key),
            before@.contains_key(key) ==> self.buckets@ == before.buckets@,
            !before@.contains_key(key) ==> self.buckets@ == before.buckets@.push(key),
        ensures
            self.wf(),
    {
        assert forall|b: u64| self@.contains_key(b) implies exists|i: int|
            0 <= i < self.buckets@.len() && #[trigger] self.buckets@[i] == b by {
            if b == key && !before@.contains_key(key) {
                assert(self.buckets@[self.buckets@.len() - 1] == b);
            } else {
                assert(before@.contains_key(b));
                let i = choose|i: int|
                    0 <= i < before.buckets@.len() && #[trigger] before.buckets@[i] == b;
                assert(self.buckets@[i] == b);
            }
        }
        assert forall|i: int| 0 <= i < self.buckets@.len() implies self@.contains_key(
            #[trigger] self.buckets@[i],
        ) by {
            if i < before.buckets@.len() {
                assert(before@.contains_key(before.buckets@[i]));
            }
        }
    }

    pub proof fn lemma_wf(&self)
        requires
            self.wf(),
        ensures
            forall|b: u64| #[trigger] self@.contains_key(b) ==> sorted_by_key(self@[b]),
    {
    }

    pub closed spec fn is_durable(&self) -> bool {
        self.storage_type == StorageType::Durable
    }

    /// An empty heap, durable when a folder is given.
    pub fn new(maybe_folder_path: Option<String>) -> (r: Result<ShardedHeap, Error>)
        ensures
            r is Ok,
            r->Ok_0.wf(),
            r->Ok_0@ == Map::<u64, Shard>::empty(),
            r->Ok_0.is_durable() == maybe_folder_path.is_some(),
    {
        let storage_type = match &maybe_folder_path {
            Some(_) => StorageType::Durable,
            None => StorageType::Memory,
        };
        let heap = ShardedHeap {
            storage_type,
            shards: HashMap::new(),
            buckets: Vec::new(),
        };
        assert(heap@ =~= Map::<u64, Shard>::empty());
        Ok(heap)
    }

    /// Adds `value` to bucket `key` at `epoch`; a payload already held at
    /// that epoch of the bucket is replaced.
    pub fn push(&mut self, epoch: u64, key: u64, value: Vec<u8>) -> (r: Result<(), Error>)
        requires
            old(self).wf(),
        ensures
            r is Ok,
            final(self).wf(),
            final(self)@ == old(self)@.insert(
                key,
                put_entry(shard_at(old(self)@, key), epoch, value@),
            ),
            final(self).is_durable() == old(self).is_durable(),
    {
        let ghost before = shard_at(self@, key);
        if !self.shards.contains_key(&key) {
            self.buckets.push(key);
        }
        let mut s: Vec<(u64, Vec<u8>)> = match self.shards.remove(&key) {
            Some(s) => s,
            None => Vec::new(),
        };
        assert(shard_view(s) =~= before);
        let ghost payload = value@;
        let mut i: usize = 0;
        while i < s.len() && s[i].0 < epoch
            invariant
                0 <= i <= s@.len(),
                shard_view(s) == before,
                sorted_by_key(before),
                forall|j: int| 0 <= j < i ==> before[j].0 < epoch,
            decreases s@.len() - i,
        {
            i = i + 1;
        }
        proof {
            lemma_put_entry_sorted(before, epoch, payload);
        }
        if i < s.len() && s[i].0 == epoch {
            proof {
                lemma_key_index(before, epoch, i as int);
            }
            s.set(i, (epoch, value));
            assert(shard_view(s) =~= put_entry(before, epoch, payload));
        } else {
            proof {
                assert forall|j: int| i <= j < before.len() implies before[j].0 > epoch by {
                    if j > i {
                        assert(before[i as int].0 < before[j].0);
                    }
                }
                assert(!has_key(before, epoch)) by {
                    if has_key(before, epoch) {
                        let j = choose|j: int| 0 <= j < before.len() && before[j].0 == epoch;
                    }
                }
                assert(fits_at(before, epoch, i as int));
                let c = insert_index(before, epoch);
                if c < i {
                    assert(before[c].0 > epoch);
                } else if c > i {
                    assert(before[i as int].0 < epoch);
                }
            }
            s.insert(i, (epoch, value));
            assert(shard_view(s) =~= put_entry(before, epoch, payload));
        }
        self.shards.insert(key, s);
        assert(self@ =~= old(self)@.insert(key, put_entry(before, epoch, payload)));
        proof {
            assert(self@.dom() =~= old(self)@.dom().insert(key));
            self.lemma_buckets_after_insert(*old(self), key);
        }
        Ok(())
    }

    /// The payload with the lowest epoch in bucket `key`, left in place;
    /// none for an empty or unknown bucket.
    pub fn peek(&self, key: u64) -> (r: Result<Option<Vec<u8>>, Error>)
        requires
            self.wf(),
        ensures
            r is Ok,
            r->Ok_0 matches Some(v) ==> head_of(shard_at(self@, key)) == Some(v@),
            r->Ok_0 is None ==> head_of(shard_at(self@, key)) is None,
    {
        match self.shards.get(&key) {
            Some(s) => {
                assert(shard_view(*s) == shard_at(self@, key));
                if s.len() > 0 {
                    let v = s[0].1.clone();
                    Ok(Some(v))
                } else {
                    Ok(None)
                }
            },
            None => Ok(None),
        }
    }

    /// Removes and returns the payload with the lowest epoch in bucket
    /// `key`; none, with nothing changed, for an empty or unknown bucket.
    pub fn pop(&mut self, key: u64) -> (r: Result<Option<Vec<u8>>, Error>)
        requires
            old(self).wf(),
        ensures
            r is Ok,
            final(self).wf(),
            final(self).is_durable() == old(self).is_durable(),
            r->Ok_0 matches Some(v) ==> head_of(shard_at(old(self)@, key)) == Some(v@)
                && final(self)@ == old(self)@.insert(key, shard_at(old(self)@, key).drop_first()),
            r->Ok_0 is None ==> head_of(shard_at(old(self)@, key)) is None && final(self)@ == old(
                self,
            )@,
    {
        if !self.shards.contains_key(&key) {
            return Ok(None);
        }
        let ghost before = shard_at(self@, key);
        let mut s: Vec<(u64, Vec<u8>)> = match self.shards.remove(&key) {
            Some(s) => s,
            None => Vec::new(),
        };
        assert(shard_view(s) =~= before);
        if s.len() == 0 {
            self.shards.insert(key, s);
            assert(self@ =~= old(self)@);
            proof {
                assert(self@.dom() =~= old(self)@.dom().insert(key));
                self.lemma_buckets_after_insert(*old(self), key);
            }
            return Ok(None);
        }
        let (_, v) = s.remove(0);
        proof {
            assert(shard_view(s) =~= before.drop_first());
            assert forall|i: int, j: int|
                0 <= i < j < before.drop_first().len() implies before.drop_first()[i].0
                < before.drop_first()[j].0 by {
                assert(before[i + 1].0 < before[j + 1].0);
            }
        }
        self.shards.insert(key, s);
        assert(self@ =~= old(self)@.insert(key, before.drop_first()));
        proof {
            assert(self@.dom() =~= old(self)@.dom().insert(key));
            self.lemma_buckets_after_insert(*old(self), key);
        }
        Ok(Some(v))
    }

    /// Every bucket with its payloads in ascending epoch order, each bucket
    /// once, in the order the buckets were first used.
    pub fn blocks(&self) -> (r: Vec<(u64, Vec<(u64, Vec<u8>)>)>)
        requires
            self.wf(),
        ensures
            crate::storage::lists(heap_blocks_view(r@), self@),
    {
        let mut r: Vec<(u64, Vec<(u64, Vec<u8>)>)> = Vec::new();
        let mut i: usize = 0;
        while i < self.buckets.len()
            invariant
                self.wf(),
                0 <= i <= self.buckets@.len(),
                r@.len() == i,
                forall|j: int| 0 <= j < i ==> #[trigger] r@[j].0 == self.buckets@[j],
                forall|j: int| 0 <= j < i ==> shard_view(r@[j].1) == self@[self.buckets@[j]],
            decreases self.buckets@.len() - i,
        {
            let b = self.buckets[i];
            let shard = match self.shards.get(&b) {
                Some(v) => copy_shard(v),
                None => {
                    proof {
                        assert(self@.contains_key(self.buckets@[i as int]));
                    }
                    return r;
                },
            };
            r.push((b, shard));
            i = i + 1;
        }
        let ghost bv = heap_blocks_view(r@);
        assert forall|k: u64| self@.contains_key(k) implies exists|j: int|
            0 <= j < bv.len() && #[trigger] bv[j].0 == k by {
            let j = choose|j: int| 0 <= j < self.buckets@.len() && #[trigger] self.buckets@[j] == k;
            assert(bv[j].0 == k);
        }
        assert forall|j: int| 0 <= j < bv.len() implies self@.contains_key(#[trigger] bv[j].0)
            && self@[bv[j].0] == bv[j].1 by {
            assert(bv[j].0 == self.buckets@[j]);
        }
        r
    }

    /// A heap holding the buckets of a snapshot, a later block of a bucket
    /// replacing an earlier one; refused where a bucket's epochs do not
    /// ascend.
    pub fn from_blocks(maybe_folder_path: Option<String>, blocks: Vec<(u64, Vec<(u64, Vec<u8>)>)>) -> (r:
        Result<ShardedHeap, Error>)
        ensures
            r is Ok <==> forall|j: int|
                0 <= j < blocks@.len() ==> sorted_by_key(#[trigger] shard_view(blocks@[j].1)),
            r matches Ok(h) ==> h.wf() && h@ == crate::storage::map_of(heap_blocks_view(blocks@))
                && h.is_durable() == maybe_folder_path.is_some(),
    {
        let mut h = ShardedHeap::new(maybe_folder_path).unwrap();
        let ghost bv = heap_blocks_view(blocks@);
        let mut i: usize = 0;
        let n = blocks.len();
        while i < n
            invariant
                0 <= i <= n,
                n == blocks@.len(),
                bv == heap_blocks_view(blocks@),
                h.wf(),
                h@ == crate::storage::map_of(bv.take(i as int)),
                h.is_durable() == maybe_folder_path.is_some(),
                forall|j: int| 0 <= j < i ==> sorted_by_key(#[trigger] shard_view(blocks@[j].1)),
            decreases n - i,
        {
            let b = blocks[i].0;
            let shard = copy_shard(&blocks[i].1);
            let mut ok = true;
            let mut j: usize = 1;
            while ok && j < shard.len()
                invariant
                    1 <= j,
                    ok ==> j <= shard@.len() || shard@.len() == 0,
                    ok ==> forall|a: int, c: int|
                        0 <= a < c < j && c < shard@.len() ==> shard@[a].0 < shard@[c].0,
                    !ok ==> !sorted_by_key(shard_view(shard)),
                decreases (if ok {
                    shard@.len() + 1 - j
                } else {
                    0
                }),
            {
                if shard[j - 1].0 >= shard[j].0 {
                    proof {
                        let sv = shard_view(shard);
                        assert(sv[j - 1].0 >= sv[j as int].0);
                    }
                    ok = false;
                } else {
                    proof {
                        assert forall|a: int, c: int|
                            0 <= a < c < j + 1 && c < shard@.len() implies shard@[a].0
                            < shard@[c].0 by {
                            if c == j && a < j - 1 {
                                assert(shard@[a].0 < shard@[j - 1].0);
                            }
                        }
                    }
                    j = j + 1;
                }
            }
            if !ok {
                return Err(Error::new(String::from_str("Snapshot shard is out of order")));
            }
            proof {
                let sv = shard_view(shard);
                assert forall|a: int, c: int| 0 <= a < c < sv.len() implies sv[a].0 < sv[c].0 by {
                    assert(shard@[a].0 < shard@[c].0);
                }
            }
            h.install(b, shard);
            assert(bv.take(i + 1).drop_last() =~= bv.take(i as int));
            i = i + 1;
        }
        assert(bv.take(n as int) =~= bv);
        Ok(h)
    }

    /// Replaces the payloads of bucket `key` by `shard`.
    fn install(&mut self, key: u64, shard: Vec<(u64, Vec<u8>)>)
        requires
            old(self).wf(),
            sorted_by_key(shard_view(shard)),
        ensures
            final(self).wf(),
            final(self)@ == old(self)@.insert(key, shard_view(shard)),
            final(self).is_durable() == old(self).is_durable(),
    {
        let ghost sv = shard_view(shard);
        if !self.shards.contains_key(&key) {
            self.buckets.push(key);
        }
        self.shards.insert(key, shard);
        assert(self@ =~= old(self)@.insert(key, sv));
        proof {
            assert(self@.dom() =~= old(self)@.dom().insert(key));
            self.lemma_buckets_after_insert(*old(self), key);
        }
    }
}

} // verus!
