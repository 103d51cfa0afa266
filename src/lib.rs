//! A fair sorting priority queue: items carry categorical features, and each
//! dequeue serves the feature-value path that has waited longest, layer by
//! layer down a tree of features, first in first out within a path.
//!
//! At each node the children with items are scanned in ascending order of
//! their value hashes, and the first one with the earliest last-served epoch
//! wins; peeks and dequeues choose alike. A value's last-served epoch is
//! shared by every node where the value appears.
use vstd::prelude::*;

pub mod codec;
pub mod counting;
pub mod error;
pub mod fairness;
pub mod feature_space;
pub mod features;
pub mod health;
pub mod laws;
pub mod prefix_storage;
pub mod sharded_heap;
pub mod storage;

use crate::counting::{tree_inv, tree_items};
use crate::error::Error;
use crate::feature_space::{
    add_item, model_of_parts, next_leaf, parts_valid, served, Descent, FeatureSpace, SpaceModel,
    SpaceParts, TOTAL_ITEMS_KEY,
};
use crate::prefix_storage::{all_sorted, blocks_view, sorted_by_key};
use crate::sharded_heap::{heap_blocks_view, shard_view};
use crate::storage::{lists, map_of};
use crate::features::{
    create_feature_names_hash, create_hash, features_hash, names_hash, names_of, strings_of,
    views_of, FeatureValue,
};
use crate::prefix_storage::put_entry;
use crate::sharded_heap::{head_of, shard_at, Shard, ShardedHeap};

verus! {

/// The state of a queue: its feature space and its buckets of payloads.
pub struct QueueModel {
    pub space: SpaceModel,
    pub heap: Map<u64, Shard>,
    /// The feature names the queue was opened with, in order.
    pub names: Seq<Seq<char>>,
}

/// The state of a queue just built over the schema `names`.
pub open spec fn fresh(names: Seq<Seq<char>>) -> QueueModel {
    QueueModel {
        space: SpaceModel {
            meta: map![
                feature_space::FEATURE_NAMES_KEY => names_hash(names),
                feature_space::EPOCH_STEP_KEY => 0u64,
                feature_space::TOTAL_ITEMS_KEY => 0u64,
                feature_space::DIMENSION_KEY => names.len() as u64,
            ],
            leaves: Map::empty(),
            items: Map::empty(),
            children: Map::empty(),
            epochs: Map::empty(),
        },
        heap: Map::empty(),
        names,
    }
}

/// What enqueueing `data` with features `fs` does: `None` where it is
/// refused (and nothing changes), else the new state and its epoch.
pub open spec fn enqueue_spec(q: QueueModel, data: Seq<u8>, fs: Seq<(Seq<char>, usize)>) -> Option<
    (QueueModel, u64),
> {
    if fs.len() != q.space.dimension() as nat || fs.len() == 0 {
        None
    } else if names_of(fs) != q.names {
        None
    } else if names_hash(names_of(fs)) != q.space.names_hash() {
        None
    } else {
        let bucket = features_hash(fs);
        match add_item(q.space, fs, bucket) {
            None => None,
            Some(m) => {
                let epoch = m.epoch_step();
                Some(
                    (
                        QueueModel {
                            space: m.with_meta(TOTAL_ITEMS_KEY, (q.space.total_items() + 1) as u64),
                            heap: q.heap.insert(
                                bucket,
                                put_entry(shard_at(q.heap, bucket), epoch, data),
                            ),
                            names: q.names,
                        },
                        epoch,
                    ),
                )
            },
        }
    }
}

/// The invariant of a queue's state: the tree has its shape, and its root
/// counts exactly the items the queue holds.
pub open spec fn queue_inv(q: QueueModel) -> bool {
    &&& tree_inv(q.space)
    &&& tree_items(q.space) == q.space.total_items()
}

/// What a dequeue does: `None` where it fails (and nothing changes), else
/// the new state, the payload served if any, and the epoch after.
pub open spec fn dequeue_spec(q: QueueModel) -> Option<(QueueModel, Option<Seq<u8>>, u64)> {
    match next_leaf(q.space) {
        Descent::Failed => None,
        Descent::Exhausted => Some((q, None, q.space.epoch_step())),
        Descent::Found(path, leaf) => {
            if q.space.epoch_step() == u64::MAX || q.space.total_items() == 0 || head_of(
                shard_at(q.heap, leaf),
            ) is None {
                None
            } else {
                let space = served(q.space, path);
                Some(
                    (
                        QueueModel {
                            space: space.with_meta(
                                TOTAL_ITEMS_KEY,
                                (q.space.total_items() - 1) as u64,
                            ),
                            heap: q.heap.insert(leaf, shard_at(q.heap, leaf).drop_first()),
                            names: q.names,
                        },
                        head_of(shard_at(q.heap, leaf)),
                        space.epoch_step(),
                    ),
                )
            }
        },
    }
}

/// What a peek returns: `None` where it fails (as where the bucket chosen
/// holds no payload), else the payload the next dequeue would serve, if any.
pub open spec fn peek_spec(q: QueueModel) -> Option<Option<Seq<u8>>> {
    match next_leaf(q.space) {
        Descent::Failed => None,
        Descent::Exhausted => Some(None),
        Descent::Found(_, leaf) => if head_of(shard_at(q.heap, leaf)) is None {
            None
        } else {
            Some(head_of(shard_at(q.heap, leaf)))
        },
    }
}

/// The contents of a queue's stores, in the shape they take in its folder.
pub struct QueueSnapshot {
    /// Counters and set-once values by key.
    pub metadata: Vec<(u64, u64)>,
    /// Whether each node's children are leaf buckets.
    pub node_has_leaves: Vec<(u64, bool)>,
    /// Per node: item counts by child value hash, ascending.
    pub node_value_items_at_index: Vec<(u64, Vec<(u64, u64)>)>,
    /// Per node: child ids by child value hash, ascending.
    pub node_value_child_index: Vec<(u64, Vec<(u64, u64)>)>,
    /// Last-served epoch by value hash.
    pub value_to_epoch: Vec<(u64, u64)>,
    /// Per bucket: payloads by epoch, ascending.
    pub items: Vec<(u64, Vec<(u64, Vec<u8>)>)>,
}

impl QueueSnapshot {
    /// What an empty folder holds.
    pub fn empty() -> (r: QueueSnapshot)
        ensures
            r.metadata@.len() == 0,
            r.node_has_leaves@.len() == 0,
            r.node_value_items_at_index@.len() == 0,
            r.node_value_child_index@.len() == 0,
            r.value_to_epoch@.len() == 0,
            r.items@.len() == 0,
    {
        QueueSnapshot {
            metadata: Vec::new(),
            node_has_leaves: Vec::new(),
            node_value_items_at_index: Vec::new(),
            node_value_child_index: Vec::new(),
            value_to_epoch: Vec::new(),
            items: Vec::new(),
        }
    }
}

/// Whether `s` lists the whole state `q`, each key once.
pub open spec fn snapshot_of(s: QueueSnapshot, q: QueueModel) -> bool {
    &&& lists(s.metadata@, q.space.meta)
    &&& lists(s.node_has_leaves@, q.space.leaves)
    &&& lists(blocks_view(s.node_value_items_at_index@), q.space.items)
    &&& lists(blocks_view(s.node_value_child_index@), q.space.children)
    &&& lists(s.value_to_epoch@, q.space.epochs)
    &&& lists(heap_blocks_view(s.items@), q.heap)
}

/// What a queue over `names` rebuilt from snapshot `s` holds; `None` where
/// the snapshot cannot make up a queue.
pub open spec fn restore_spec(names: Seq<Seq<char>>, s: QueueSnapshot) -> Option<QueueModel> {
    let hv = heap_blocks_view(s.items@);
    let q = QueueModel {
        space: model_of_parts(names, space_parts_of(s)),
        heap: map_of(hv),
        names,
    };
    if !parts_valid(names, space_parts_of(s)) || !(forall|j: int|
        0 <= j < hv.len() ==> sorted_by_key(#[trigger] hv[j].1)) || !queue_inv(q) {
        None
    } else {
        Some(q)
    }
}

/// The feature space's part of a snapshot.
pub open spec fn space_parts_of(s: QueueSnapshot) -> SpaceParts {
    SpaceParts {
        metadata: s.metadata,
        node_has_leaves: s.node_has_leaves,
        node_value_items_at_index: s.node_value_items_at_index,
        node_value_child_index: s.node_value_child_index,
        value_to_epoch: s.value_to_epoch,
    }
}

/// A copy of a list of names.
fn copy_names(names: &Vec<String>) -> (r: Vec<String>)
    ensures
        strings_of(r@) == strings_of(names@),
{
    let mut r: Vec<String> = Vec::new();
    let mut i: usize = 0;
    while i < names.len()
        invariant
            0 <= i <= names@.len(),
            r@.len() == i,
            strings_of(r@) == strings_of(names@.take(i as int)),
        decreases names@.len() - i,
    {
        let name = names[i].clone();
        let ghost prev = r@;
        r.push(name);
        assert forall|j: int| 0 <= j < i + 1 implies strings_of(r@)[j] == strings_of(
            names@.take(i + 1),
        )[j] by {
            if j < i {
                assert(r@[j] == prev[j]);
                assert(strings_of(prev)[j] == strings_of(names@.take(i as int))[j]);
            }
        }
        assert(strings_of(r@) =~= strings_of(names@.take(i + 1)));
        i = i + 1;
    }
    assert(names@.take(names@.len() as int) =~= names@);
    r
}

/// Whether the features carry exactly the names `names`, in order.
fn same_names(names: &Vec<String>, features: &Vec<FeatureValue>) -> (r: bool)
    ensures
        r == (names_of(views_of(features@)) == strings_of(names@)),
{
    let ghost a = names_of(views_of(features@));
    let ghost b = strings_of(names@);
    if names.len() != features.len() {
        assert(a.len() != b.len());
        return false;
    }
    let mut i: usize = 0;
    while i < names.len()
        invariant
            0 <= i <= names@.len(),
            names@.len() == features@.len(),
            a == names_of(views_of(features@)),
            b == strings_of(names@),
            forall|j: int| 0 <= j < i ==> a[j] == b[j],
        decreases names@.len() - i,
    {
        if *features[i].get_name() != names[i] {
            assert(a[i as int] != b[i as int]);
            return false;
        }
        i = i + 1;
    }
    assert(a =~= b);
    true
}

/// A queue whose dequeue order follows a fairness policy over the items'
/// features rather than a single key.
pub struct SortingPriorityQueue {
    feature_space: FeatureSpace,
    items: ShardedHeap,
    feature_names: Vec<String>,
}

impl SortingPriorityQueue {
    pub closed spec fn model(&self) -> QueueModel {
        QueueModel {
            space: self.feature_space.model(),
            heap: self.items@,
            names: strings_of(self.feature_names@),
        }
    }

    pub closed spec fn wf(&self) -> bool {
        &&& self.feature_space.wf()
        &&& self.items.wf()
        &&& queue_inv(self.model())
    }

    /// An empty queue over the schema `features`, held in memory.
    pub fn new(features: Vec<String>) -> (r: Result<SortingPriorityQueue, Error>)
        ensures
            r is Ok,
            r->Ok_0.wf(),
            r->Ok_0.model() == fresh(strings_of(features@)),
    {
        let stored = SpaceParts::empty();
        proof {
            feature_space::lemma_empty_parts(strings_of(features@), stored);
        }
        let feature_names = copy_names(&features);
        let feature_space = FeatureSpace::new(features, None, stored).unwrap();
        let items = ShardedHeap::new(None).unwrap();
        let q = SortingPriorityQueue { feature_space, items, feature_names };
        assert(q.model() =~= fresh(strings_of(features@)));
        proof {
            laws::lemma_reachable_inv(strings_of(features@), Seq::empty());
        }
        Ok(q)
    }

    /// The queue over the schema `features` whose state belongs to the
    /// folder `folder_path`, which holds `stored` (nothing, the first time).
    /// What the folder holds wins over a fresh queue's state, so a queue
    /// closed and opened again carries on where it stopped. Refused where
    /// the stored contents cannot make up a queue.
    pub fn new_durable(features: Vec<String>, folder_path: String, stored: QueueSnapshot) -> (r:
        Result<SortingPriorityQueue, Error>)
        ensures
            restore_spec(strings_of(features@), stored) is None <==> r is Err,
            restore_spec(strings_of(features@), stored) matches Some(q) ==> r matches Ok(queue)
                && queue.wf() && queue.model() == q,
    {
        let ghost names = strings_of(features@);
        let ghost snap = stored;
        let QueueSnapshot {
            metadata,
            node_has_leaves,
            node_value_items_at_index,
            node_value_child_index,
            value_to_epoch,
            items,
        } = stored;
        let parts = SpaceParts {
            metadata,
            node_has_leaves,
            node_value_items_at_index,
            node_value_child_index,
            value_to_epoch,
        };
        assert(parts == space_parts_of(snap));
        let feature_names = copy_names(&features);
        let feature_space = match FeatureSpace::new(features, Some(folder_path.clone()), parts) {
            Ok(fs) => fs,
            Err(e) => {
                return Err(e);
            },
        };
        if !feature_space.counts_consistent() {
            return Err(Error::new(String::from_str("Stored counts do not match the stored tree")));
        }
        let ghost hv = heap_blocks_view(items@);
        let ghost blocks = items@;
        let heap = match ShardedHeap::from_blocks(Some(folder_path), items) {
            Ok(h) => h,
            Err(e) => {
                proof {
                    let j = choose|j: int|
                        0 <= j < blocks.len() && !sorted_by_key(#[trigger] shard_view(blocks[j].1));
                    assert(hv[j].1 == shard_view(blocks[j].1));
                }
                return Err(e);
            },
        };
        proof {
            assert forall|j: int| 0 <= j < hv.len() implies sorted_by_key(#[trigger] hv[j].1) by {
                assert(hv[j].1 == shard_view(blocks[j].1));
            }
        }
        let queue = SortingPriorityQueue { feature_space, items: heap, feature_names };
        assert(queue.model() == restore_spec(names, snap)->0);
        Ok(queue)
    }

    /// Adds `data` under the path `features` and returns the epoch after.
    /// Refused, with a `Standard` error and nothing changed, where the
    /// features do not match the schema in number or in names, or the schema
    /// has no features (such a queue could never serve the item).
    pub fn enqueue(&mut self, data: Vec<u8>, features: Vec<FeatureValue>) -> (r: Result<
        u64,
        Error,
    >)
        requires
            old(self).wf(),
        ensures
            final(self).wf(),
            enqueue_spec(old(self).model(), data@, views_of(features@)) is None ==> (r matches Err(
                Error::Standard { .. },
            )) && final(self).model() == old(self).model(),
            enqueue_spec(old(self).model(), data@, views_of(features@)) matches Some(res) ==> r
                == Ok::<u64, Error>(res.1) && final(self).model() == res.0,
    {
        let ghost fs = views_of(features@);
        let dimension = self.feature_space.dimension().unwrap();
        if features.len() == 0 {
            return Err(
                Error::new(String::from_str("A queue without features cannot serve items")),
            );
        }
        if features.len() as u64 != dimension {
            return Err(
                Error::new(
                    String::from_str("Invalid feature vector must have same size as feature space"),
                ),
            );
        }
        if !same_names(&self.feature_names, &features) {
            return Err(
                Error::new(
                    String::from_str(
                        "Invalid feature vector must have same feature names as initialization",
                    ),
                ),
            );
        }
        let feature_names_hash = create_feature_names_hash(features.as_slice());
        if feature_names_hash != self.feature_space.feature_names_hash().unwrap() {
            return Err(
                Error::new(
                    String::from_str(
                        "Invalid feature vector must have same feature names as initialization",
                    ),
                ),
            );
        }
        let hash = create_hash(features.as_slice());
        let ghost before = self.feature_space.model();
        proof {
            self.feature_space.lemma_inv();
            self.feature_space.lemma_wf();
        }
        match self.feature_space.add_item(&features, hash) {
            Ok(()) => {},
            Err(e) => {
                return Err(e);
            },
        }
        proof {
            feature_space::lemma_add_item_meta(before, fs, hash);
        }
        let current_epoch_step = self.feature_space.epoch_step().unwrap();
        let ghost q0 = old(self).model();
        let _ = self.items.push(current_epoch_step, hash, data);
        let _ = self.feature_space.increment_total_items();
        proof {
            laws::lemma_enqueue_inv(q0, data@, fs);
        }
        Ok(current_epoch_step)
    }

    /// The number of items enqueued and not yet dequeued.
    pub fn size(&self) -> (r: Result<u64, Error>)
        requires
            self.wf(),
        ensures
            r == Ok::<u64, Error>(self.model().space.total_items()),
    {
        self.feature_space.total_items()
    }

    /// The payload the next dequeue would return, left in place.
    pub fn peek(&self) -> (r: Result<Option<Vec<u8>>, Error>)
        requires
            self.wf(),
        ensures
            peek_spec(self.model()) is None ==> r is Err,
            peek_spec(self.model()) matches Some(p) ==> r is Ok && match r->Ok_0 {
                Some(v) => p == Some(v@),
                None => p is None,
            },
    {
        let maybe_next_leaf_feature = match self.feature_space.peek_next_leaf_feature() {
            Ok(l) => l,
            Err(e) => {
                return Err(e);
            },
        };
        let mut maybe_item: Option<Vec<u8>> = None;
        if let Some(next_leaf_feature) = maybe_next_leaf_feature {
            maybe_item = self.items.peek(next_leaf_feature).unwrap();
            if maybe_item.is_none() {
                return Err(Error::new(String::from_str("Selected bucket holds no item")));
            }
        }
        Ok(maybe_item)
    }

    /// Serves the payload at the head of the bucket that has waited longest,
    /// with the epoch after; none, with the epoch unchanged, where the queue
    /// is empty.
    pub fn dequeue(&mut self) -> (r: Result<(Option<Vec<u8>>, u64), Error>)
        requires
            old(self).wf(),
        ensures
            final(self).wf(),
            dequeue_spec(old(self).model()) is None ==> r is Err && final(self).model() == old(
                self,
            ).model(),
            dequeue_spec(old(self).model()) matches Some(res) ==> r matches Ok(answer) && ({
                let (after, item, epoch) = res;
                let (served_item, served_epoch) = answer;
                &&& final(self).model() == after
                &&& served_epoch == epoch
                &&& match served_item {
                    Some(v) => item == Some(v@),
                    None => item is None,
                }
            }),
    {
        let step = self.feature_space.epoch_step().unwrap();
        proof {
            self.feature_space.lemma_inv();
            self.feature_space.lemma_wf();
        }
        match self.feature_space.select_path() {
            Err(e) => Err(e),
            Ok(None) => Ok((None, step)),
            Ok(Some((path, leaf))) => {
                let total = self.feature_space.total_items().unwrap();
                if step == u64::MAX || total == 0 {
                    return Err(Error::new(String::from_str("Feature space counts are corrupt")));
                }
                if self.items.peek(leaf).unwrap().is_none() {
                    return Err(Error::new(String::from_str("Selected bucket holds no item")));
                }
                let ghost before = self.feature_space.model();
                self.feature_space.serve_path(&path);
                proof {
                    feature_space::lemma_apply_path_frame(before, path@, (step + 1) as u64);
                    crate::counting::lemma_served_space(before);
                    self.feature_space.lemma_wf_from();
                }
                let next_item = self.items.pop(leaf).unwrap();
                let _ = self.feature_space.decrement_total_items();
                proof {
                    laws::lemma_dequeue_inv(old(self).model());
                }
                Ok((next_item, step + 1))
            },
        }
    }

    /// The current epoch: how many successful enqueues and dequeues there
    /// have been.
    pub fn get_epoch(&self) -> (r: Result<u64, Error>)
        requires
            self.wf(),
        ensures
            r == Ok::<u64, Error>(self.model().space.epoch_step()),
    {
        self.feature_space.epoch_step()
    }

    /// What holds of the state of every well-formed queue.
    pub proof fn lemma_wf(&self)
        requires
            self.wf(),
        ensures
            self.model().space.wf(),
            all_sorted(self.model().space.items),
            all_sorted(self.model().space.children),
            forall|p: u64| #[trigger]
                self.model().space.items.contains_key(p) ==> self.model().space.items[p].len() > 0,
            forall|p: u64| #[trigger]
                self.model().space.children.contains_key(p) ==> self.model().space.children[p].len()
                    > 0,
            forall|b: u64| #[trigger]
                self.model().heap.contains_key(b) ==> sorted_by_key(self.model().heap[b]),
            queue_inv(self.model()),
    {
        self.feature_space.lemma_inv();
            self.feature_space.lemma_wf();
        self.items.lemma_wf();
    }

    /// Everything the queue holds, for writing to its folder.
    pub fn snapshot(&self) -> (r: QueueSnapshot)
        requires
            self.wf(),
        ensures
            snapshot_of(r, self.model()),
    {
        let SpaceParts {
            metadata,
            node_has_leaves,
            node_value_items_at_index,
            node_value_child_index,
            value_to_epoch,
        } = self.feature_space.parts();
        QueueSnapshot {
            metadata,
            node_has_leaves,
            node_value_items_at_index,
            node_value_child_index,
            value_to_epoch,
            items: self.items.blocks(),
        }
    }

}

} // verus!
