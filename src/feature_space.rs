use vstd::prelude::*;

use crate::counting::{
    lemma_add_item_space, lemma_exhausted_iff_root_empty, lemma_served_space, root_items, space_inv,
    sum_counts, tree_inv, tree_items,
};
use crate::fairness::reachable_shape;
use crate::error::Error;
use crate::fairness::epochs_bounded;
use crate::features::{
    create_feature_names_hash, create_names_hash, features_hash, names_hash, names_of, prefix_hashes,
    strings_of, value_hash, views_of,
};
pub use crate::features::{create_hash, FeatureValue};
use crate::prefix_storage::{
    all_sorted, blocks_view, entries_at, keys_selected, keys_where, lemma_keys_selected, put_entry,
    sorted_by_key, value_at, Entries, PrefixStorage,
};
use crate::storage::{lists, map_of, Storage};

verus! {

pub const TOTAL_ITEMS_KEY: u64 = 0;

pub const EPOCH_STEP_KEY: u64 = 1;

pub const ROOT_INDEX_KEY: u64 = 2;

pub const DIMENSION_KEY: u64 = 3;

pub const FEATURE_NAMES_KEY: u64 = 4;

/// The state of a feature space, as the views of its five stores.
pub struct SpaceModel {
    /// Counters and set-once values, under the `*_KEY` constants.
    pub meta: Map<u64, u64>,
    /// Whether a node's children are leaf buckets.
    pub leaves: Map<u64, bool>,
    /// Per node, per child value hash: the items in that child's subtree.
    pub items: Map<u64, Entries>,
    /// Per node, per child value hash: the child node, or the leaf bucket.
    pub children: Map<u64, Entries>,
    /// Per value hash: the epoch at which that value was last served.
    pub epochs: Map<u64, u64>,
}

/// How a descent from the root ends.
pub enum Descent {
    /// A store lookup failed or the tree contradicts its own counts.
    Failed,
    /// Nothing to serve.
    Exhausted,
    /// The `(node, value hash)` choices made on the way down, and the leaf
    /// bucket reached.
    Found(Seq<(u64, u64)>, u64),
}

impl SpaceModel {
    pub open spec fn total_items(self) -> u64 {
        self.meta[TOTAL_ITEMS_KEY]
    }

    pub open spec fn epoch_step(self) -> u64 {
        self.meta[EPOCH_STEP_KEY]
    }

    pub open spec fn dimension(self) -> u64 {
        self.meta[DIMENSION_KEY]
    }

    pub open spec fn names_hash(self) -> u64 {
        self.meta[FEATURE_NAMES_KEY]
    }

    pub open spec fn root(self) -> Option<u64> {
        if self.meta.contains_key(ROOT_INDEX_KEY) {
            Some(self.meta[ROOT_INDEX_KEY])
        } else {
            None
        }
    }

    pub open spec fn wf(self) -> bool {
        &&& self.meta.contains_key(TOTAL_ITEMS_KEY)
        &&& self.meta.contains_key(EPOCH_STEP_KEY)
        &&& self.meta.contains_key(DIMENSION_KEY)
        &&& self.meta.contains_key(FEATURE_NAMES_KEY)
        &&& self.total_items() <= self.epoch_step()
    }

    /// The same state with counter `key` set to `v`.
    pub open spec fn with_meta(self, key: u64, v: u64) -> SpaceModel {
        SpaceModel { meta: self.meta.insert(key, v), ..self }
    }
}

/// The metadata a space over `names` starts from, given what its folder
/// held: stored values win, missing ones take a fresh space's values.
pub open spec fn with_defaults(stored: Map<u64, u64>, names: Seq<Seq<char>>) -> Map<u64, u64> {
    let a = if stored.contains_key(FEATURE_NAMES_KEY) {
        stored
    } else {
        stored.insert(FEATURE_NAMES_KEY, names_hash(names))
    };
    let b = if a.contains_key(EPOCH_STEP_KEY) {
        a
    } else {
        a.insert(EPOCH_STEP_KEY, 0)
    };
    let c = if b.contains_key(TOTAL_ITEMS_KEY) {
        b
    } else {
        b.insert(TOTAL_ITEMS_KEY, 0)
    };
    if c.contains_key(DIMENSION_KEY) {
        c
    } else {
        c.insert(DIMENSION_KEY, names.len() as u64)
    }
}

/// The contents of a feature space's five stores, in the shape they take
/// in its folder.
pub struct SpaceParts {
    /// Counters and set-once values by key.
    pub metadata: Vec<(u64, u64)>,
    /// Whether each node's children are leaf buckets.
    pub node_has_leaves: Vec<(u64, bool)>,
    /// Per node: item counts by child value hash, ascending.
    pub node_value_items_at_index: Vec<(u64, Vec<(u64, u64)>)>,
    /// Per node: child ids by child value hash, ascending.
    pub node_value_child_index: Vec<(u64, Vec<(u64, u64)>)>,
    /// Last-served epoch by value hash.
    pub value_to_epoch: Vec<(u64, u64)>,
}

impl SpaceParts {
    /// What an empty folder holds.
    pub fn empty() -> (r: SpaceParts)
        ensures
            r.metadata@.len() == 0,
            r.node_has_leaves@.len() == 0,
            r.node_value_items_at_index@.len() == 0,
            r.node_value_child_index@.len() == 0,
            r.value_to_epoch@.len() == 0,
    {
        SpaceParts {
            metadata: Vec::new(),
            node_has_leaves: Vec::new(),
            node_value_items_at_index: Vec::new(),
            node_value_child_index: Vec::new(),
            value_to_epoch: Vec::new(),
        }
    }
}

/// The state a space over `names` starts from, given stored contents.
pub open spec fn model_of_parts(names: Seq<Seq<char>>, p: SpaceParts) -> SpaceModel {
    SpaceModel {
        meta: with_defaults(map_of(p.metadata@), names),
        leaves: map_of(p.node_has_leaves@),
        items: map_of(blocks_view(p.node_value_items_at_index@)),
        children: map_of(blocks_view(p.node_value_child_index@)),
        epochs: map_of(p.value_to_epoch@),
    }
}

/// Whether stored contents can make up a feature space over `names`:
/// counters that agree, and blocks that are non-empty and ascend by key.
pub open spec fn parts_valid(names: Seq<Seq<char>>, p: SpaceParts) -> bool {
    let meta = with_defaults(map_of(p.metadata@), names);
    let items = blocks_view(p.node_value_items_at_index@);
    let children = blocks_view(p.node_value_child_index@);
    &&& meta[TOTAL_ITEMS_KEY] <= meta[EPOCH_STEP_KEY]
    &&& forall|j: int| 0 <= j < items.len() ==> #[trigger] items[j].1.len() > 0 && sorted_by_key(items[j].1)
    &&& forall|j: int| 0 <= j < children.len() ==> #[trigger] children[j].1.len() > 0 && sorted_by_key(children[j].1)
    &&& space_inv(model_of_parts(names, p))
}

/// What a fresh space over `names` holds.
pub open spec fn fresh_space(names: Seq<Seq<char>>) -> SpaceModel {
    SpaceModel {
        meta: map![
            FEATURE_NAMES_KEY => names_hash(names),
            EPOCH_STEP_KEY => 0u64,
            TOTAL_ITEMS_KEY => 0u64,
            DIMENSION_KEY => names.len() as u64,
        ],
        leaves: Map::empty(),
        items: Map::empty(),
        children: Map::empty(),
        epochs: Map::empty(),
    }
}

/// An empty folder makes a fresh space.
pub proof fn lemma_empty_parts(names: Seq<Seq<char>>, p: SpaceParts)
    requires
        p.metadata@.len() == 0,
        p.node_has_leaves@.len() == 0,
        p.node_value_items_at_index@.len() == 0,
        p.node_value_child_index@.len() == 0,
        p.value_to_epoch@.len() == 0,
    ensures
        parts_valid(names, p),
        model_of_parts(names, p) == fresh_space(names),
{
    let m = model_of_parts(names, p);
    assert(m.meta =~= fresh_space(names).meta);
    assert(m.items =~= Map::<u64, Entries>::empty());
    assert(m.children =~= Map::<u64, Entries>::empty());
    assert(m.leaves =~= Map::<u64, bool>::empty());
    assert(m.epochs =~= Map::<u64, u64>::empty());
}

/// The child value hashes of `node` whose subtrees hold items, in ascending order.
pub open spec fn candidates(m: SpaceModel, node: u64) -> Seq<u64> {
    keys_where(entries_at(m.items, node), |c: u64| c > 0)
}

/// The least recently served of `cands`, scanning in order and keeping the
/// first of equals; only epochs up to `step` are eligible. `None` where a
/// candidate has no recorded epoch.
pub open spec fn pick(cands: Seq<u64>, epochs: Map<u64, u64>, step: u64) -> Option<Option<u64>>
    decreases cands.len(),
{
    if cands.len() == 0 {
        Some(None)
    } else {
        match pick(cands.drop_last(), epochs, step) {
            None => None,
            Some(best) => {
                let k = cands.last();
                if !epochs.contains_key(k) {
                    None
                } else if epochs[k] <= step && (best is None || epochs[k] < epochs[best->0]) {
                    Some(Some(k))
                } else {
                    Some(best)
                }
            },
        }
    }
}

/// Whether `path` already passed through `node`.
pub open spec fn visits(path: Seq<(u64, u64)>, node: u64) -> bool {
    exists|i: int| 0 <= i < path.len() && path[i].0 == node
}

/// The descent from `node` at `layer`, with `path` the choices made above it.
pub open spec fn descend(m: SpaceModel, node: u64, layer: nat, path: Seq<(u64, u64)>) -> Descent
    decreases m.dimension() - layer,
{
    if layer >= m.dimension() {
        if layer == 0 {
            Descent::Exhausted
        } else {
            Descent::Failed
        }
    } else {
        match pick(candidates(m, node), m.epochs, m.epoch_step()) {
            None => Descent::Failed,
            Some(None) => if layer == 0 {
                Descent::Exhausted
            } else {
                Descent::Failed
            },
            Some(Some(vh)) => {
                if !m.leaves.contains_key(node) || value_at(m.children, node, vh) is None {
                    Descent::Failed
                } else {
                    let child = value_at(m.children, node, vh)->0;
                    let next_path = path.push((node, vh));
                    if m.leaves[node] {
                        Descent::Found(next_path, child)
                    } else if visits(next_path, child) {
                        Descent::Failed
                    } else {
                        descend(m, child, layer + 1, next_path)
                    }
                }
            },
        }
    }
}

/// Where the next dequeue would be served from.
pub open spec fn next_leaf(m: SpaceModel) -> Descent {
    match m.root() {
        None => Descent::Exhausted,
        Some(r) => descend(m, r, 0, Seq::empty()),
    }
}

/// A count after one item left it; a missing or zero count stays at zero.
pub open spec fn dec(c: Option<u64>) -> u64 {
    match c {
        Some(x) => if x > 0 {
            (x - 1) as u64
        } else {
            0
        },
        None => 0,
    }
}

/// Serving value `vh` at `node`: one item fewer under it, and the value
/// marked as served at epoch `next`.
pub open spec fn serve(m: SpaceModel, node: u64, vh: u64, next: u64) -> SpaceModel {
    SpaceModel {
        epochs: m.epochs.insert(vh, next),
        items: m.items.insert(
            node,
            put_entry(entries_at(m.items, node), vh, dec(value_at(m.items, node, vh))),
        ),
        ..m
    }
}

/// Serving every choice of `path`, in order, at epoch `next`.
pub open spec fn apply_path(m: SpaceModel, path: Seq<(u64, u64)>, next: u64) -> SpaceModel
    decreases path.len(),
{
    if path.len() == 0 {
        m
    } else {
        let prev = apply_path(m, path.drop_last(), next);
        serve(prev, path.last().0, path.last().1, next)
    }
}

/// The state after serving `path` and advancing the epoch by one.
pub open spec fn served(m: SpaceModel, path: Seq<(u64, u64)>) -> SpaceModel {
    let next = (m.epoch_step() + 1) as u64;
    apply_path(m, path, next).with_meta(EPOCH_STEP_KEY, next)
}

/// What a destructive selection does: `None` where it fails, else the new
/// state and the leaf bucket served, if any.
pub open spec fn use_next(m: SpaceModel) -> Option<(SpaceModel, Option<u64>)> {
    match next_leaf(m) {
        Descent::Failed => None,
        Descent::Exhausted => Some((m, None)),
        Descent::Found(path, leaf) => if m.epoch_step() == u64::MAX {
            None
        } else {
            Some((served(m, path), Some(leaf)))
        },
    }
}

/// The node that collects the children of layer `i` of path `fs`: the root
/// for the outermost layer, else the node named by the prefix above it.
pub open spec fn layer_node(root: u64, fs: Seq<(Seq<char>, usize)>, i: int) -> u64 {
    if i == 0 {
        root
    } else {
        features_hash(fs.take(i))
    }
}

/// What layer `i` of path `fs` points to: the next node, or the leaf bucket.
pub open spec fn layer_child(root: u64, fs: Seq<(Seq<char>, usize)>, leaf: u64, i: int) -> u64 {
    if i == fs.len() - 1 {
        leaf
    } else {
        layer_node(root, fs, i + 1)
    }
}

/// Recording one more item under value `vh` of `node`, whose child is
/// `child`; `last` tells whether `node` is on the innermost layer.
pub open spec fn add_layer(m: SpaceModel, node: u64, vh: u64, child: u64, last: bool) -> SpaceModel {
    match value_at(m.children, node, vh) {
        Some(_) => SpaceModel {
            items: m.items.insert(
                node,
                put_entry(entries_at(m.items, node), vh, (value_at(m.items, node, vh)->0 + 1) as u64),
            ),
            ..m
        },
        None => SpaceModel {
            items: m.items.insert(node, put_entry(entries_at(m.items, node), vh, 1)),
            epochs: if m.epochs.contains_key(vh) {
                m.epochs
            } else {
                m.epochs.insert(vh, 0)
            },
            children: m.children.insert(node, put_entry(entries_at(m.children, node), vh, child)),
            leaves: if entries_at(m.children, node).len() > 0 {
                m.leaves
            } else {
                m.leaves.insert(node, last)
            },
            ..m
        },
    }
}

/// Recording the layers of `fs` from the innermost up to layer `n`.
pub open spec fn add_layers(
    m: SpaceModel,
    root: u64,
    fs: Seq<(Seq<char>, usize)>,
    leaf: u64,
    n: int,
) -> SpaceModel
    decreases fs.len() - n,
{
    if n < 0 || n >= fs.len() {
        m
    } else {
        add_layer(
            add_layers(m, root, fs, leaf, n + 1),
            layer_node(root, fs, n),
            value_hash(fs[n]),
            layer_child(root, fs, leaf, n),
            n == fs.len() - 1,
        )
    }
}

/// The layers of `fs` collect their children in pairwise different nodes.
pub open spec fn layers_distinct(root: u64, fs: Seq<(Seq<char>, usize)>) -> bool {
    forall|i: int, j: int|
        0 <= i < j < fs.len() ==> layer_node(root, fs, i) != layer_node(root, fs, j)
}

/// Every layer of `fs` that is already recorded has a count that can grow,
/// and none that is not recorded has a count.
pub open spec fn layers_ready(m: SpaceModel, root: u64, fs: Seq<(Seq<char>, usize)>) -> bool {
    forall|i: int|
        0 <= i < fs.len() ==> if #[trigger] value_at(
            m.children,
            layer_node(root, fs, i),
            value_hash(fs[i]),
        ) is Some {
            value_at(m.items, layer_node(root, fs, i), value_hash(fs[i])) matches Some(c) && c
                < u64::MAX
        } else {
            value_at(m.items, layer_node(root, fs, i), value_hash(fs[i])) is None
        }
}

/// The root an insertion of `fs` goes through: named by the path's feature
/// names on the first insertion, the recorded one after. `None` where the
/// two disagree with the epoch.
pub open spec fn root_for(m: SpaceModel, fs: Seq<(Seq<char>, usize)>) -> Option<u64> {
    if m.epoch_step() == 0 {
        if m.root() is Some {
            None
        } else {
            Some(names_hash(names_of(fs)))
        }
    } else {
        m.root()
    }
}

/// What inserting path `fs` towards leaf bucket `leaf` does: `None` where it
/// is refused (and nothing changes), as where the path has no value or not
/// one per dimension, else the new state.
pub open spec fn add_item(m: SpaceModel, fs: Seq<(Seq<char>, usize)>, leaf: u64) -> Option<
    SpaceModel,
> {
    if m.epoch_step() == u64::MAX || fs.len() == 0 || fs.len() != m.dimension() as nat {
        None
    } else {
        match root_for(m, fs) {
            None => None,
            Some(root) => if !layers_distinct(root, fs) || !layers_ready(m, root, fs) {
                None
            } else {
                let m1 = m.with_meta(ROOT_INDEX_KEY, root);
                Some(
                    add_layers(m1, root, fs, leaf, 0).with_meta(
                        EPOCH_STEP_KEY,
                        (m.epoch_step() + 1) as u64,
                    ),
                )
            },
        }
    }
}

/// Recording layers below `n` leaves the entries of the layers above it alone.
pub proof fn lemma_add_layers_frame(
    m: SpaceModel,
    root: u64,
    fs: Seq<(Seq<char>, usize)>,
    leaf: u64,
    n: int,
    j: int,
)
    requires
        0 <= j < n <= fs.len(),
        layers_distinct(root, fs),
    ensures
        entries_at(add_layers(m, root, fs, leaf, n).items, layer_node(root, fs, j)) == entries_at(
            m.items,
            layer_node(root, fs, j),
        ),
        entries_at(add_layers(m, root, fs, leaf, n).children, layer_node(root, fs, j))
            == entries_at(m.children, layer_node(root, fs, j)),
        add_layers(m, root, fs, leaf, n).meta == m.meta,
    decreases fs.len() - n,
{
    if n < fs.len() {
        lemma_add_layers_frame(m, root, fs, leaf, n + 1, j);
        assert(layer_node(root, fs, j) != layer_node(root, fs, n));
    }
}

pub proof fn lemma_add_layers_meta(
    m: SpaceModel,
    root: u64,
    fs: Seq<(Seq<char>, usize)>,
    leaf: u64,
    n: int,
)
    ensures
        add_layers(m, root, fs, leaf, n).meta == m.meta,
    decreases fs.len() - n,
{
    if 0 <= n < fs.len() {
        lemma_add_layers_meta(m, root, fs, leaf, n + 1);
    }
}

/// A successful insertion fixes the root, advances the epoch by one and
/// leaves the other counters alone.
pub proof fn lemma_add_item_meta(m: SpaceModel, fs: Seq<(Seq<char>, usize)>, leaf: u64)
    requires
        add_item(m, fs, leaf) is Some,
    ensures
        add_item(m, fs, leaf)->0.meta == m.meta.insert(ROOT_INDEX_KEY, root_for(m, fs)->0).insert(
            EPOCH_STEP_KEY,
            (m.epoch_step() + 1) as u64,
        ),
{
    let root = root_for(m, fs)->0;
    lemma_add_layers_meta(m.with_meta(ROOT_INDEX_KEY, root), root, fs, leaf, 0);
}

/// Serving touches only the item counts and the epochs.
pub proof fn lemma_apply_path_frame(m: SpaceModel, path: Seq<(u64, u64)>, next: u64)
    ensures
        apply_path(m, path, next).meta == m.meta,
        apply_path(m, path, next).leaves == m.leaves,
        apply_path(m, path, next).children == m.children,
    decreases path.len(),
{
    if path.len() > 0 {
        lemma_apply_path_frame(m, path.drop_last(), next);
    }
}

pub proof fn lemma_pick_failed_extends(s: Seq<u64>, epochs: Map<u64, u64>, step: u64, i: int)
    requires
        0 <= i <= s.len(),
        pick(s.take(i), epochs, step) is None,
    ensures
        pick(s, epochs, step) is None,
    decreases s.len() - i,
{
    if i < s.len() {
        assert(s.take(i + 1).drop_last() =~= s.take(i));
        lemma_pick_failed_extends(s, epochs, step, i + 1);
    } else {
        assert(s.take(i) =~= s);
    }
}

/// The feature tree and its fairness state.
pub struct FeatureSpace {
    metadata: Storage<u64>,
    feature_node_has_leaves: Storage<bool>,
    feature_node_value_items_at_index: PrefixStorage,
    feature_node_value_child_index: PrefixStorage,
    feature_value_to_epoch_step: Storage<u64>,
}

impl FeatureSpace {
    pub closed spec fn model(&self) -> SpaceModel {
        SpaceModel {
            meta: self.metadata@,
            leaves: self.feature_node_has_leaves@,
            items: self.feature_node_value_items_at_index@,
            children: self.feature_node_value_child_index@,
            epochs: self.feature_value_to_epoch_step@,
        }
    }

    /// The stores are well-formed: sorted entries, listed keys, counters present.
    pub closed spec fn stores_wf(&self) -> bool {
        &&& self.model().wf()
        &&& self.metadata.wf()
        &&& self.feature_node_has_leaves.wf()
        &&& self.feature_value_to_epoch_step.wf()
        &&& self.feature_node_value_items_at_index.wf()
        &&& self.feature_node_value_child_index.wf()
    }

    pub proof fn lemma_inv(&self)
        requires
            self.wf(),
        ensures
            self.stores_wf(),
            space_inv(self.model()),
            reachable_shape(self.model()),
    {
        self.lemma_wf();
    }

    pub proof fn lemma_wf_from(&self)
        requires
            self.stores_wf(),
            space_inv(self.model()),
        ensures
            self.wf(),
    {
    }

    /// The stores are well-formed and the tree keeps its invariant.
    pub closed spec fn wf(&self) -> bool {
        &&& self.stores_wf()
        &&& space_inv(self.model())
    }

    pub proof fn lemma_wf(&self)
        requires
            self.stores_wf(),
        ensures
            self.model().wf(),
            all_sorted(self.model().items),
            all_sorted(self.model().children),
            forall|p: u64| #[trigger] self.model().items.contains_key(p) ==> self.model().items[p].len() > 0,
            forall|p: u64| #[trigger] self.model().children.contains_key(p) ==> self.model().children[p].len() > 0,
    {
        self.feature_node_value_items_at_index.lemma_wf();
        self.feature_node_value_child_index.lemma_wf();
    }

    pub fn epoch_step(&self) -> (r: Result<u64, Error>)
        requires
            self.wf(),
        ensures
            r == Ok::<u64, Error>(self.model().epoch_step()),
    {
        self.metadata.get(&EPOCH_STEP_KEY)
    }

    pub fn dimension(&self) -> (r: Result<u64, Error>)
        requires
            self.wf(),
        ensures
            r == Ok::<u64, Error>(self.model().dimension()),
    {
        self.metadata.get(&DIMENSION_KEY)
    }

    pub fn feature_names_hash(&self) -> (r: Result<u64, Error>)
        requires
            self.wf(),
        ensures
            r == Ok::<u64, Error>(self.model().names_hash()),
    {
        self.metadata.get(&FEATURE_NAMES_KEY)
    }

    /// The number of items the tree counts at its root: the items currently
    /// enqueued; none before the first insertion.
    pub fn total_items(&self) -> (r: Result<u64, Error>)
        requires
            self.wf(),
        ensures
            root_items(self.model()) <= u64::MAX ==> r == Ok::<u64, Error>(
                root_items(self.model()) as u64,
            ),
            root_items(self.model()) > u64::MAX ==> r matches Err(Error::Standard { .. }),
    {
        let root = match self.root_index() {
            Ok(root) => root,
            Err(_) => {
                return Ok(0);
            },
        };
        let counts = self.feature_node_value_items_at_index.get_at_prefix(&root).unwrap();
        match sum_counts(&counts) {
            Some(v) => Ok(v),
            None => Err(Error::new(String::from_str("Item count does not fit in 64 bits"))),
        }
    }

    fn root_index(&self) -> (r: Result<u64, Error>)
        requires
            self.stores_wf(),
        ensures
            self.model().root() matches Some(v) ==> r == Ok::<u64, Error>(v),
            self.model().root() is None ==> r is Err && r->Err_0.is_empty_kind(),
    {
        self.metadata.get(&ROOT_INDEX_KEY)
    }

    /// The choices a dequeue would make on the way down, and the leaf
    /// bucket it would reach.
    pub(crate) fn select_path(&self) -> (r: Result<Option<(Vec<(u64, u64)>, u64)>, Error>)
        requires
            self.stores_wf(),
        ensures
            next_leaf(self.model()) is Failed ==> r is Err,
            next_leaf(self.model()) is Exhausted ==> r matches Ok(None),
            next_leaf(self.model()) matches Descent::Found(p, l) ==> r matches Ok(Some(found))
                && found.0@ == p && found.1 == l,
    {
        let ghost m = self.model();
        let root = match self.root_index() {
            Ok(root) => root,
            Err(_) => {
                return Ok(None);
            },
        };
        let dim = self.metadata.get(&DIMENSION_KEY).unwrap();
        let mut node = root;
        let mut path: Vec<(u64, u64)> = Vec::new();
        let mut layer: u64 = 0;
        while layer < dim
            invariant
                self.stores_wf(),
                m == self.model(),
                dim == m.dimension(),
                m.root() == Some(root),
                layer <= dim,
                next_leaf(m) == descend(m, node, layer as nat, path@),
            decreases dim - layer,
        {
            let choice = match self.pick_child(node) {
                Ok(c) => c,
                Err(e) => {
                    return Err(e);
                },
            };
            let vh = match choice {
                Some(vh) => vh,
                None => {
                    if layer == 0 {
                        return Ok(None);
                    } else {
                        return Err(
                            Error::new(
                                String::from_str(
                                    "Feature space has lost track of the number of values for each feature",
                                ),
                            ),
                        );
                    }
                },
            };
            let is_leaf = match self.feature_node_has_leaves.get(&node) {
                Ok(b) => b,
                Err(e) => {
                    return Err(e);
                },
            };
            let child = match self.feature_node_value_child_index.get(&node, &vh) {
                Ok(c) => c,
                Err(e) => {
                    return Err(e);
                },
            };
            path.push((node, vh));
            if is_leaf {
                return Ok(Some((path, child)));
            }
            if visits_node(&path, child) {
                return Err(Error::new(String::from_str("Feature space holds a cycle of nodes")));
            }
            node = child;
            layer = layer + 1;
        }
        if layer == 0 {
            Ok(None)
        } else {
            Err(Error::new(String::from_str("Feature tree is deeper than its dimension")))
        }
    }

    /// The leaf bucket the next dequeue would be served from, if any;
    /// nothing changes.
    pub fn peek_next_leaf_feature(&self) -> (r: Result<Option<u64>, Error>)
        requires
            self.wf(),
        ensures
            next_leaf(self.model()) is Failed ==> r is Err,
            next_leaf(self.model()) is Exhausted ==> r == Ok::<Option<u64>, Error>(None),
            next_leaf(self.model()) matches Descent::Found(_, l) ==> r == Ok::<
                Option<u64>,
                Error,
            >(Some(l)),
            r is Ok ==> (r == Ok::<Option<u64>, Error>(None) <==> root_items(self.model()) == 0),
    {
        proof {
            self.lemma_inv();
            lemma_exhausted_iff_root_empty(self.model());
        }
        match self.select_path() {
            Ok(Some((_, leaf))) => Ok(Some(leaf)),
            Ok(None) => Ok(None),
            Err(e) => Err(e),
        }
    }

    /// Serves every choice of `path` at epoch `next`.
    pub(crate) fn apply_path(&mut self, path: &Vec<(u64, u64)>, next: u64)
        requires
            old(self).stores_wf(),
        ensures
            final(self).stores_wf(),
            final(self).model() == apply_path(old(self).model(), path@, next),
    {
        let mut i: usize = 0;
        while i < path.len()
            invariant
                0 <= i <= path@.len(),
                self.stores_wf(),
                self.model() == apply_path(old(self).model(), path@.take(i as int), next),
            decreases path@.len() - i,
        {
            let (node, vh) = path[i];
            let ghost before = self.model();
            let count = match self.feature_node_value_items_at_index.get(&node, &vh) {
                Ok(c) => c,
                Err(_) => 0,
            };
            let left = if count > 0 {
                count - 1
            } else {
                0
            };
            let _ = self.feature_value_to_epoch_step.put(&vh, next);
            let _ = self.feature_node_value_items_at_index.put(&node, &vh, left);
            proof {
                let t = path@.take(i + 1);
                assert(t.drop_last() =~= path@.take(i as int));
                assert(t.last() == (node, vh));
                assert(self.model() == serve(before, node, vh, next));
            }
            i = i + 1;
        }
        assert(path@.take(path@.len() as int) =~= path@);
    }

    fn set_epoch_step(&mut self, v: u64)
        requires
            old(self).stores_wf(),
            old(self).model().epoch_step() <= v,
        ensures
            final(self).stores_wf(),
            final(self).model() == old(self).model().with_meta(EPOCH_STEP_KEY, v),
    {
        let _ = self.metadata.put(&EPOCH_STEP_KEY, v);
    }

    /// Selects the next leaf bucket as `peek_next_leaf_feature` does, and
    /// serves it: every chosen value is marked as served and loses one item,
    /// and the epoch advances by one. Where nothing is found, nothing changes.
    pub fn use_next_leaf_feature(&mut self) -> (r: Result<Option<u64>, Error>)
        requires
            old(self).wf(),
        ensures
            final(self).wf(),
            use_next(old(self).model()) is None ==> r is Err && final(self).model() == old(
                self,
            ).model(),
            use_next(old(self).model()) matches Some(res) ==> r == Ok::<Option<u64>, Error>(res.1)
                && final(self).model() == res.0,
            r is Ok ==> (r == Ok::<Option<u64>, Error>(None) <==> root_items(old(self).model()) == 0),
            r matches Ok(Some(_)) ==> root_items(final(self).model()) == root_items(old(self).model()) - 1,
    {
        proof {
            self.lemma_inv();
            lemma_exhausted_iff_root_empty(self.model());
        }
        let step = self.metadata.get(&EPOCH_STEP_KEY).unwrap();
        match self.select_path() {
            Err(e) => Err(e),
            Ok(None) => Ok(None),
            Ok(Some((path, leaf))) => {
                if step == u64::MAX {
                    return Err(Error::new(String::from_str("Epoch counter exhausted")));
                }
                self.serve_path(&path);
                proof {
                    lemma_served_space(old(self).model());
                }
                Ok(Some(leaf))
            },
        }
    }

    /// Records one more item on path `feature_values`, whose payload lives in
    /// leaf bucket `leaf_index`, and advances the epoch by one. Layers are
    /// recorded from the innermost outwards so that each parent learns the id
    /// of its child; a node or value seen for the first time is created, and
    /// a new value starts as never served (epoch 0). The first insertion also
    /// fixes the root.
    pub fn add_item(&mut self, feature_values: &Vec<FeatureValue>, leaf_index: u64) -> (r: Result<
        (),
        Error,
    >)
        requires
            old(self).wf(),
        ensures
            final(self).wf(),
            add_item(old(self).model(), views_of(feature_values@), leaf_index) is None ==> (r matches Err(
                Error::Standard { .. },
            )) && final(self).model() == old(self).model(),
            add_item(old(self).model(), views_of(feature_values@), leaf_index) matches Some(m)
                ==> r is Ok && final(self).model() == m,
            r is Ok ==> root_items(final(self).model()) == root_items(old(self).model()) + 1,
    {
        let ghost m = self.model();
        let ghost fs = views_of(feature_values@);
        proof {
            self.lemma_inv();
        }
        let step = self.metadata.get(&EPOCH_STEP_KEY).unwrap();
        if step == u64::MAX {
            return Err(Error::new(String::from_str("Epoch counter exhausted")));
        }
        let dimension = self.metadata.get(&DIMENSION_KEY).unwrap();
        if feature_values.len() == 0 || feature_values.len() as u64 != dimension {
            return Err(
                Error::new(String::from_str("Feature path must have one value per dimension")),
            );
        }
        let currently_empty = step == 0;
        let root: u64;
        if currently_empty {
            if self.root_index().is_ok() {
                return Err(Error::new(String::from_str("Queue already initialized with a root node")));
            }
            root = create_feature_names_hash(feature_values.as_slice());
        } else {
            root = match self.root_index() {
                Ok(root) => root,
                Err(_) => {
                    return Err(Error::new(String::from_str("Queue has served items but has no root")));
                },
            };
        }
        assert(root_for(m, fs) == Some(root));
        let n = feature_values.len();
        let prefixes = prefix_hashes(feature_values.as_slice());
        let mut nodes: Vec<u64> = Vec::new();
        let mut values: Vec<u64> = Vec::new();
        let mut i: usize = 0;
        while i < n
            invariant
                0 <= i <= n,
                n == feature_values@.len(),
                fs == views_of(feature_values@),
                prefixes@.len() == n + 1,
                forall|j: int| 0 <= j <= n ==> prefixes@[j] == features_hash(#[trigger] fs.take(j)),
                nodes@.len() == i,
                values@.len() == i,
                forall|j: int| 0 <= j < i ==> nodes@[j] == layer_node(root, fs, j),
                forall|j: int| 0 <= j < i ==> values@[j] == value_hash(#[trigger] fs[j]),
            decreases n - i,
        {
            if i == 0 {
                nodes.push(root);
            } else {
                nodes.push(prefixes[i]);
            }
            values.push(feature_values[i].get_hash());
            i = i + 1;
        }
        // A path that passes a node twice would count its items twice.
        let mut a: usize = 0;
        while a < n
            invariant
                0 <= a <= n,
                self.stores_wf(),
                m == self.model(),
                space_inv(m),
                reachable_shape(m),
                m.epoch_step() != u64::MAX,
                fs == views_of(feature_values@),
                root_for(m, fs) == Some(root),
                fs.len() == n,
                forall|j: int| 0 <= j < n ==> nodes@[j] == layer_node(root, fs, j),
                nodes@.len() == n,
                forall|x: int, y: int| 0 <= x < a && x < y < n ==> nodes@[x] != nodes@[y],
            decreases n - a,
        {
            let mut b: usize = a + 1;
            while b < n
                invariant
                    a < n,
                    a + 1 <= b <= n,
                    self.stores_wf(),
                    m == self.model(),
                    space_inv(m),
                    reachable_shape(m),
                    m.epoch_step() != u64::MAX,
                    fs == views_of(feature_values@),
                    root_for(m, fs) == Some(root),
                    fs.len() == n,
                    forall|j: int| 0 <= j < n ==> nodes@[j] == layer_node(root, fs, j),
                    nodes@.len() == n,
                    forall|x: int, y: int| 0 <= x < a && x < y < n ==> nodes@[x] != nodes@[y],
                    forall|y: int| a < y < b ==> nodes@[a as int] != nodes@[y],
                decreases n - b,
            {
                if nodes[a] == nodes[b] {
                    return Err(Error::new(String::from_str("Feature path passes a node twice")));
                }
                b = b + 1;
            }
            a = a + 1;
        }
        assert(layers_distinct(root, fs));
        let mut c: usize = 0;
        while c < n
            invariant
                0 <= c <= n,
                self.stores_wf(),
                m == self.model(),
                space_inv(m),
                reachable_shape(m),
                m.epoch_step() != u64::MAX,
                fs == views_of(feature_values@),
                root_for(m, fs) == Some(root),
                layers_distinct(root, fs),
                fs.len() == n,
                nodes@.len() == n,
                values@.len() == n,
                forall|j: int| 0 <= j < n ==> nodes@[j] == layer_node(root, fs, j),
                forall|j: int| 0 <= j < n ==> values@[j] == value_hash(#[trigger] fs[j]),
                forall|j: int|
                    0 <= j < c ==> if #[trigger] value_at(
                        m.children,
                        layer_node(root, fs, j),
                        value_hash(fs[j]),
                    ) is Some {
                        value_at(m.items, layer_node(root, fs, j), value_hash(fs[j])) matches Some(
                            x,
                        ) && x < u64::MAX
                    } else {
                        value_at(m.items, layer_node(root, fs, j), value_hash(fs[j])) is None
                    },
            decreases n - c,
        {
            if self.feature_node_value_child_index.get(&nodes[c], &values[c]).is_ok() {
                let ok = match self.feature_node_value_items_at_index.get(&nodes[c], &values[c]) {
                    Ok(count) => count < u64::MAX,
                    Err(_) => false,
                };
                if !ok {
                    proof {
                        let (x, y) = (layer_node(root, fs, c as int), value_hash(fs[c as int]));
                        assert(value_at(m.children, x, y) is Some);
                        assert(!layers_ready(m, root, fs));
                    }
                    return Err(Error::new(String::from_str("Feature count cannot grow")));
                }
            } else if self.feature_node_value_items_at_index.get(&nodes[c], &values[c]).is_ok() {
                proof {
                    let (x, y) = (layer_node(root, fs, c as int), value_hash(fs[c as int]));
                    assert(value_at(m.children, x, y) is None);
                    assert(!layers_ready(m, root, fs));
                }
                return Err(Error::new(String::from_str("Feature count has no child")));
            }
            c = c + 1;
        }
        assert(layers_ready(m, root, fs));
        if currently_empty {
            let _ = self.metadata.put_if_absent(&ROOT_INDEX_KEY, root);
        }
        let ghost m1 = m.with_meta(ROOT_INDEX_KEY, root);
        assert(self.model().meta =~= m1.meta);
        assert(self.model() == m1);
        let mut k: usize = n;
        while k > 0
            invariant
                0 <= k <= n,
                self.stores_wf(),
                fs.len() == n,
                nodes@.len() == n,
                values@.len() == n,
                layers_distinct(root, fs),
                layers_ready(m1, root, fs),
                space_inv(m),
                reachable_shape(m),
                m.epoch_step() != u64::MAX,
                fs == views_of(feature_values@),
                root_for(m, fs) == Some(root),
                m1 == m.with_meta(ROOT_INDEX_KEY, root),
                m1.meta == m.with_meta(ROOT_INDEX_KEY, root).meta,
                m1.wf(),
                forall|j: int| 0 <= j < n ==> nodes@[j] == layer_node(root, fs, j),
                forall|j: int| 0 <= j < n ==> values@[j] == value_hash(#[trigger] fs[j]),
                self.model() == add_layers(m1, root, fs, leaf_index, k as int),
            decreases k,
        {
            let i = k - 1;
            let node = nodes[i];
            let vh = values[i];
            let child = if i == n - 1 {
                leaf_index
            } else {
                nodes[i + 1]
            };
            let ghost before = self.model();
            proof {
                if k < n {
                    lemma_add_layers_frame(m1, root, fs, leaf_index, k as int, i as int);
                }
                assert(value_at(before.items, node, vh) == value_at(m1.items, node, vh));
                assert(value_at(before.children, node, vh) == value_at(m1.children, node, vh));
                if value_at(m1.children, layer_node(root, fs, i as int), value_hash(fs[i as int])) is Some {
                    assert(value_at(m1.items, layer_node(root, fs, i as int), value_hash(fs[i as int])) is Some);
                }
            }
            let has_node = self.feature_node_value_child_index.has_prefix(&node).unwrap();
            if self.feature_node_value_child_index.get(&node, &vh).is_ok() {
                let count = self.feature_node_value_items_at_index.get(&node, &vh).unwrap();
                let _ = self.feature_node_value_items_at_index.put(&node, &vh, count + 1);
            } else {
                let _ = self.feature_node_value_items_at_index.put(&node, &vh, 1);
                let _ = self.feature_value_to_epoch_step.put_if_absent(&vh, 0);
                let _ = self.feature_node_value_child_index.put(&node, &vh, child);
                if !has_node {
                    let _ = self.feature_node_has_leaves.put(&node, i == n - 1);
                }
            }
            proof {
                assert(self.model() == add_layer(before, node, vh, child, i == n - 1));
                if k < n {
                    lemma_add_layers_frame(m1, root, fs, leaf_index, k as int, i as int);
                }
            }
            k = i;
        }
        proof {
            lemma_add_layers_meta(m1, root, fs, leaf_index, 0);
        }
        self.set_epoch_step(step + 1);
        proof {
            lemma_add_item_space(m, fs, leaf_index);
        }
        Ok(())
    }

    /// One more item enqueued; refused where the count would pass the
    /// number of epochs so far.
    pub fn increment_total_items(&mut self) -> (r: Result<u64, Error>)
        requires
            old(self).wf(),
        ensures
            final(self).wf(),
            old(self).model().total_items() < old(self).model().epoch_step() ==> r == Ok::<
                u64,
                Error,
            >((old(self).model().total_items() + 1) as u64) && final(self).model() == old(
                self,
            ).model().with_meta(TOTAL_ITEMS_KEY, (old(self).model().total_items() + 1) as u64),
            old(self).model().total_items() >= old(self).model().epoch_step() ==> r is Err
                && final(self).model() == old(self).model(),
    {
        let total = self.metadata.get(&TOTAL_ITEMS_KEY).unwrap();
        let step = self.metadata.get(&EPOCH_STEP_KEY).unwrap();
        if total >= step {
            return Err(Error::new(String::from_str("More items than enqueues")));
        }
        let _ = self.metadata.put(&TOTAL_ITEMS_KEY, total + 1);
        proof {
            crate::counting::lemma_total_frame(old(self).model(), (total + 1) as u64);
        }
        Ok(total + 1)
    }

    /// One item fewer; refused where there is none.
    pub fn decrement_total_items(&mut self) -> (r: Result<u64, Error>)
        requires
            old(self).wf(),
        ensures
            final(self).wf(),
            old(self).model().total_items() > 0 ==> r == Ok::<u64, Error>(
                (old(self).model().total_items() - 1) as u64,
            ) && final(self).model() == old(self).model().with_meta(
                TOTAL_ITEMS_KEY,
                (old(self).model().total_items() - 1) as u64,
            ),
            old(self).model().total_items() == 0 ==> r is Err && final(self).model() == old(
                self,
            ).model(),
    {
        let total = self.metadata.get(&TOTAL_ITEMS_KEY).unwrap();
        if total == 0 {
            return Err(Error::new(String::from_str("No items left")));
        }
        let _ = self.metadata.put(&TOTAL_ITEMS_KEY, total - 1);
        proof {
            crate::counting::lemma_total_frame(old(self).model(), (total - 1) as u64);
        }
        Ok(total - 1)
    }

    /// Serves `path` and advances the epoch, as a successful
    /// `use_next_leaf_feature` does for the path it selected.
    pub(crate) fn serve_path(&mut self, path: &Vec<(u64, u64)>)
        requires
            old(self).stores_wf(),
            old(self).model().epoch_step() < u64::MAX,
        ensures
            final(self).stores_wf(),
            final(self).model() == served(old(self).model(), path@),
    {
        let step = self.metadata.get(&EPOCH_STEP_KEY).unwrap();
        self.apply_path(path, step + 1);
        proof {
            lemma_apply_path_frame(old(self).model(), path@, (step + 1) as u64);
        }
        self.set_epoch_step(step + 1);
    }

    /// The contents of the five stores.
    pub fn parts(&self) -> (r: SpaceParts)
        requires
            self.wf(),
        ensures
            lists(r.metadata@, self.model().meta),
            lists(r.node_has_leaves@, self.model().leaves),
            lists(blocks_view(r.node_value_items_at_index@), self.model().items),
            lists(blocks_view(r.node_value_child_index@), self.model().children),
            lists(r.value_to_epoch@, self.model().epochs),
    {
        SpaceParts {
            metadata: self.metadata.entries(),
            node_has_leaves: self.feature_node_has_leaves.entries(),
            node_value_items_at_index: self.feature_node_value_items_at_index.blocks(),
            node_value_child_index: self.feature_node_value_child_index.blocks(),
            value_to_epoch: self.feature_value_to_epoch_step.entries(),
        }
    }

    /// The feature space over the schema `features` whose stores start from
    /// `stored`, what its folder holds (nothing, for a new or in-memory
    /// space). Stored values win over what a fresh space starts from: the
    /// schema fingerprint, epoch 0, no items, and the schema's dimension.
    /// Refused where a block is empty or out of order, or the stored counters
    /// contradict each other.
    pub fn new(features: Vec<String>, maybe_folder_path: Option<String>, stored: SpaceParts) -> (r:
        Result<FeatureSpace, Error>)
        ensures
            r is Ok <==> parts_valid(strings_of(features@), stored),
            r matches Ok(fs) ==> fs.wf() && fs.model() == model_of_parts(strings_of(features@), stored),
    {
        let SpaceParts {
            metadata,
            node_has_leaves: has_leaves,
            node_value_items_at_index: items,
            node_value_child_index: children,
            value_to_epoch: epochs,
        } = stored;
        let metadata = &metadata;
        let has_leaves = &has_leaves;
        let epochs = &epochs;
        let feature_names_hash = create_names_hash(features.as_slice());
        let mut metadata_storage = Storage::<u64>::from_entries(
            same_folder(&maybe_folder_path),
            metadata,
        );
        let _ = metadata_storage.put_if_absent(&FEATURE_NAMES_KEY, feature_names_hash);
        let _ = metadata_storage.put_if_absent(&EPOCH_STEP_KEY, 0);
        let _ = metadata_storage.put_if_absent(&TOTAL_ITEMS_KEY, 0);
        let _ = metadata_storage.put_if_absent(&DIMENSION_KEY, features.len() as u64);
        let ghost meta = with_defaults(map_of(metadata@), strings_of(features@));
        assert(metadata_storage@ =~= meta);
        let total = metadata_storage.get(&TOTAL_ITEMS_KEY).unwrap();
        let step = metadata_storage.get(&EPOCH_STEP_KEY).unwrap();
        let ghost iv = blocks_view(items@);
        let ghost cv = blocks_view(children@);
        proof {
            assert(forall|j: int| 0 <= j < items@.len() ==> #[trigger] iv[j].1 == items@[j].1@);
            assert(forall|j: int| 0 <= j < children@.len() ==> #[trigger] cv[j].1 == children@[j].1@);
        }
        if total > step {
            return Err(Error::new(String::from_str("Stored item count passes the epoch")));
        }
        let items_storage = match PrefixStorage::from_blocks(same_folder(&maybe_folder_path), items) {
            Ok(st) => st,
            Err(e) => {
                proof {
                    let j = choose|j: int| 0 <= j < items@.len() && !(#[trigger] items@[j].1@.len() > 0 && sorted_by_key(items@[j].1@));
                    assert(iv[j].1 == items@[j].1@);
                }
                return Err(e);
            },
        };
        let children_storage = match PrefixStorage::from_blocks(same_folder(&maybe_folder_path), children) {
            Ok(st) => st,
            Err(e) => {
                proof {
                    let j = choose|j: int| 0 <= j < children@.len() && !(#[trigger] children@[j].1@.len() > 0 && sorted_by_key(children@[j].1@));
                    assert(cv[j].1 == children@[j].1@);
                }
                return Err(e);
            },
        };
        proof {
            assert forall|j: int| 0 <= j < iv.len() implies #[trigger] iv[j].1.len() > 0 && sorted_by_key(iv[j].1) by {
                assert(iv[j].1 == items@[j].1@);
            }
            assert forall|j: int| 0 <= j < cv.len() implies #[trigger] cv[j].1.len() > 0 && sorted_by_key(cv[j].1) by {
                assert(cv[j].1 == children@[j].1@);
            }
        }
        let space = FeatureSpace {
            metadata: metadata_storage,
            feature_node_has_leaves: Storage::<bool>::from_entries(
                same_folder(&maybe_folder_path),
                has_leaves,
            ),
            feature_node_value_items_at_index: items_storage,
            feature_node_value_child_index: children_storage,
            feature_value_to_epoch_step: Storage::<u64>::from_entries(
                same_folder(&maybe_folder_path),
                epochs,
            ),
        };
        if !space.tree_consistent() {
            return Err(Error::new(String::from_str("Stored tree breaks its invariant")));
        }
        Ok(space)
    }

    /// Whether every recorded epoch is no later than the current one, and
    /// every value counted at some node has one.
    fn epochs_within(&self) -> (r: bool)
        requires
            self.stores_wf(),
        ensures
            r == epochs_bounded(self.model()),
    {
        let ghost m = self.model();
        proof {
            self.lemma_wf();
        }
        let step = self.metadata.get(&EPOCH_STEP_KEY).unwrap();
        let epochs = self.feature_value_to_epoch_step.entries();
        let mut i: usize = 0;
        while i < epochs.len()
            invariant
                0 <= i <= epochs@.len(),
                m == self.model(),
                lists(epochs@, m.epochs),
                step == m.epoch_step(),
                forall|j: int| 0 <= j < i ==> epochs@[j].1 <= step,
            decreases epochs@.len() - i,
        {
            if epochs[i].1 > step {
                proof {
                    let k = epochs@[i as int].0;
                    assert(m.epochs.contains_key(k) && m.epochs[k] == epochs@[i as int].1);
                    assert(!epochs_bounded(m));
                }
                return false;
            }
            i = i + 1;
        }
        proof {
            assert forall|k: u64| #[trigger] m.epochs.contains_key(k) implies m.epochs[k] <= step by {
                let j = choose|j: int| 0 <= j < epochs@.len() && #[trigger] epochs@[j].0 == k;
            }
        }
        let blocks = self.feature_node_value_items_at_index.blocks();
        let ghost bv = blocks_view(blocks@);
        let mut b: usize = 0;
        while b < blocks.len()
            invariant
                self.stores_wf(),
                m == self.model(),
                all_sorted(m.items),
                0 <= b <= blocks@.len(),
                bv == blocks_view(blocks@),
                lists(bv, m.items),
                forall|x: int, e: int|
                    0 <= x < b && 0 <= e < bv[x].1.len() ==> m.epochs.contains_key(
                        #[trigger] bv[x].1[e].0,
                    ),
            decreases blocks@.len() - b,
        {
            let block = &blocks[b].1;
            assert(block@ == bv[b as int].1);
            let mut e: usize = 0;
            while e < block.len()
                invariant
                    self.stores_wf(),
                    m == self.model(),
                    all_sorted(m.items),
                    0 <= b < blocks@.len(),
                    bv == blocks_view(blocks@),
                    lists(bv, m.items),
                    0 <= e <= block@.len(),
                    block@ == bv[b as int].1,
                    forall|y: int| 0 <= y < e ==> m.epochs.contains_key(#[trigger] block@[y].0),
                    forall|x: int, y: int|
                        0 <= x < b && 0 <= y < bv[x].1.len() ==> m.epochs.contains_key(
                            #[trigger] bv[x].1[y].0,
                        ),
                decreases block@.len() - e,
            {
                if self.feature_value_to_epoch_step.get(&block[e].0).is_err() {
                    proof {
                        let p = bv[b as int].0;
                        assert(m.items.contains_key(p) && m.items[p] == bv[b as int].1);
                        assert(sorted_by_key(m.items[p]));
                        crate::prefix_storage::lemma_key_index(m.items[p], block@[e as int].0, e as int);
                        assert(value_at(m.items, p, block@[e as int].0) is Some);
                    }
                    return false;
                }
                e = e + 1;
            }
            assert forall|x: int, y: int|
                0 <= x < b + 1 && 0 <= y < bv[x].1.len() implies m.epochs.contains_key(
                #[trigger] bv[x].1[y].0,
            ) by {
                if x == b {
                    assert(bv[x].1[y] == block@[y]);
                }
            }
            b = b + 1;
        }
        proof {
            assert forall|p: u64, k: u64| #[trigger] value_at(m.items, p, k) is Some implies m.epochs.contains_key(k) by {
                let es = entries_at(m.items, p);
                assert(crate::prefix_storage::has_key(es, k));
                assert(m.items.contains_key(p));
                let x = choose|x: int| 0 <= x < bv.len() && #[trigger] bv[x].0 == p;
                let e = choose|e: int| 0 <= e < es.len() && es[e].0 == k;
                assert(bv[x].1 == es);
                assert(bv[x].1[e].0 == k);
            }
        }
        true
    }

    /// Whether the root counts exactly the items recorded as enqueued, and
    /// the rest of the tree's shape holds: see `tree_inv`.
    pub fn counts_consistent(&self) -> (r: bool)
        requires
            self.wf(),
        ensures
            r == (tree_inv(self.model()) && tree_items(self.model()) == self.model().total_items()),
    {
        proof {
            self.lemma_wf();
        }
        if !self.epochs_within() {
            return false;
        }
        let names = self.metadata.get(&FEATURE_NAMES_KEY).unwrap();
        let total = self.metadata.get(&TOTAL_ITEMS_KEY).unwrap();
        let dimension = self.metadata.get(&DIMENSION_KEY).unwrap();
        let counts = self.feature_node_value_items_at_index.get_at_prefix(&names).unwrap();
        let tree = match sum_counts(&counts) {
            Some(v) => v,
            None => {
                return false;
            },
        };
        if tree != total {
            return false;
        }
        match self.root_index() {
            Ok(root) => {
                if root != names {
                    return false;
                }
            },
            Err(_) => {
                if total != 0 {
                    return false;
                }
            },
        }
        if dimension == 0 && total != 0 {
            return false;
        }
        true
    }

    /// Whether the tree keeps its invariant: see `space_inv`.
    fn tree_consistent(&self) -> (r: bool)
        requires
            self.stores_wf(),
        ensures
            r == space_inv(self.model()),
    {
        if !self.epochs_within() {
            return false;
        }
        match self.root_index() {
            Err(_) => self.feature_node_value_items_at_index.is_empty(),
            Ok(root) => {
                let dimension = self.metadata.get(&DIMENSION_KEY).unwrap();
                if dimension != 0 {
                    return true;
                }
                let counts = self.feature_node_value_items_at_index.get_at_prefix(&root).unwrap();
                match sum_counts(&counts) {
                    Some(v) => v == 0,
                    None => false,
                }
            },
        }
    }

    /// Chooses, among `node`'s children with items, the least recently
    /// served one.
    fn pick_child(&self, node: u64) -> (r: Result<Option<u64>, Error>)
        requires
            self.stores_wf(),
        ensures
            pick(candidates(self.model(), node), self.model().epochs, self.model().epoch_step())
                matches Some(c) ==> r == Ok::<Option<u64>, Error>(c),
            pick(candidates(self.model(), node), self.model().epochs, self.model().epoch_step())
                is None ==> r is Err,
    {
        let step = self.metadata.get(&EPOCH_STEP_KEY).unwrap();
        let positive = |count: u64| -> (b: bool)
            ensures
                b == (count > 0),
            { count > 0 };
        let ghost m = self.model();
        let ghost cands = candidates(m, node);
        let keys = self.feature_node_value_items_at_index.filter_keys_by_prefix(&node, positive).unwrap();
        proof {
            let es = entries_at(m.items, node);
            let outs = choose|outs: Seq<bool>|
                {
                    &&& outs.len() == es.len()
                    &&& forall|i: int|
                        0 <= i < outs.len() ==> positive.ensures((#[trigger] es[i].1,), outs[i])
                    &&& keys@ == keys_selected(es, outs)
                };
            assert forall|i: int| 0 <= i < es.len() implies outs[i] == (|c: u64| c > 0)(
                #[trigger] es[i].1,
            ) by {
                assert(positive.ensures((es[i].1,), outs[i]));
            }
            lemma_keys_selected(es, outs, |c: u64| c > 0);
        }
        let mut best: Option<u64> = None;
        let mut lowest: u64 = 0;
        let mut i: usize = 0;
        while i < keys.len()
            invariant
                0 <= i <= keys@.len(),
                keys@ == cands,
                cands == candidates(m, node),
                step == m.epoch_step(),
                m == self.model(),
                pick(cands.take(i as int), m.epochs, step) == Some(best),
                best matches Some(b) ==> m.epochs.contains_key(b) && lowest == m.epochs[b]
                    && lowest <= step,
            decreases keys@.len() - i,
        {
            let k = keys[i];
            proof {
                assert(cands.take(i + 1).drop_last() =~= cands.take(i as int));
                assert(cands.take(i + 1).last() == k);
            }
            let e = match self.feature_value_to_epoch_step.get(&k) {
                Ok(e) => e,
                Err(err) => {
                    proof {
                        assert(!m.epochs.contains_key(k));
                        assert(pick(cands.take(i + 1), m.epochs, step) is None);
                        lemma_pick_failed_extends(cands, m.epochs, step, i + 1);
                    }
                    return Err(err);
                },
            };
            let better = match best {
                None => e <= step,
                Some(_) => e < lowest,
            };
            if better {
                best = Some(k);
                lowest = e;
            }
            i = i + 1;
        }
        assert(cands.take(cands.len() as int) =~= cands);
        Ok(best)
    }
}

fn visits_node(path: &Vec<(u64, u64)>, node: u64) -> (r: bool)
    ensures
        r == visits(path@, node),
{
    let mut i: usize = 0;
    while i < path.len()
        invariant
            0 <= i <= path@.len(),
            forall|j: int| 0 <= j < i ==> path@[j].0 != node,
        decreases path@.len() - i,
    {
        if path[i].0 == node {
            return true;
        }
        i = i + 1;
    }
    false
}

/// A copy of the queue's folder, handed to each of its stores.
fn same_folder(maybe_folder_path: &Option<String>) -> (r: Option<String>)
    ensures
        r.is_some() == maybe_folder_path.is_some(),
{
    match maybe_folder_path {
        Some(folder) => Some(folder.clone()),
        None => None,
    }
}

} // verus!
