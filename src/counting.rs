use vstd::prelude::*;

use crate::fairness::{epochs_bounded, lemma_candidate, lemma_pick, reachable_shape};
use crate::feature_space::{
    add_item, add_layer, add_layers, apply_path, candidates, dec, descend, layer_child, layer_node,
    layers_distinct, layers_ready, lemma_add_layers_frame, next_leaf, pick, root_for, serve,
    served, visits, Descent, SpaceModel, ROOT_INDEX_KEY,
};
use crate::features::value_hash;
use crate::prefix_storage::{all_sorted, value_at,
    entries_at, has_key, key_index, keys_where, lemma_key_index, lemma_put_entry_sorted,
    put_entry, sorted_by_key, value_of, values_of, Entries,
};

verus! {

/// The sum of a sequence of counts.
pub open spec fn sum_of(s: Seq<u64>) -> int
    decreases s.len(),
{
    if s.len() == 0 {
        0
    } else {
        sum_of(s.drop_last()) + s.last()
    }
}

/// The items counted under `node`.
pub open spec fn count_at(m: Map<u64, Entries>, node: u64) -> int {
    sum_of(values_of(entries_at(m, node)))
}

pub proof fn lemma_sum_nonneg(s: Seq<u64>)
    ensures
        sum_of(s) >= 0,
    decreases s.len(),
{
    if s.len() > 0 {
        lemma_sum_nonneg(s.drop_last());
    }
}

proof fn lemma_sum_update(s: Seq<u64>, i: int, x: u64)
    requires
        0 <= i < s.len(),
    ensures
        sum_of(s.update(i, x)) == sum_of(s) - s[i] + x,
    decreases s.len(),
{
    let t = s.update(i, x);
    if i == s.len() - 1 {
        assert(t.drop_last() =~= s.drop_last());
    } else {
        lemma_sum_update(s.drop_last(), i, x);
        assert(t.drop_last() =~= s.drop_last().update(i, x));
    }
}

proof fn lemma_sum_insert(s: Seq<u64>, i: int, x: u64)
    requires
        0 <= i <= s.len(),
    ensures
        sum_of(s.insert(i, x)) == sum_of(s) + x,
    decreases s.len(),
{
    let t = s.insert(i, x);
    if i == s.len() {
        assert(t.drop_last() =~= s);
    } else {
        lemma_sum_insert(s.drop_last(), i, x);
        assert(t.drop_last() =~= s.drop_last().insert(i, x));
    }
}

/// Storing `v` under `k` changes the sum by the difference to what was there.
pub proof fn lemma_sum_put(s: Entries, k: u64, v: u64)
    requires
        sorted_by_key(s),
    ensures
        sum_of(values_of(put_entry(s, k, v))) == sum_of(values_of(s)) - (match value_of(s, k) {
            Some(c) => c as int,
            None => 0,
        }) + v,
{
    if has_key(s, k) {
        let i = key_index(s, k);
        assert(values_of(s.update(i, (k, v))) =~= values_of(s).update(i, v));
        lemma_sum_update(values_of(s), i, v);
    } else {
        let i = crate::prefix_storage::insert_index(s, k);
        crate::prefix_storage::lemma_insert_point(s, k);
        assert(values_of(s.insert(i, (k, v))) =~= values_of(s).insert(i, v));
        lemma_sum_insert(values_of(s), i, v);
    }
}

/// A prefix of counts sums to no more than the whole.
pub proof fn lemma_sum_prefix(s: Seq<u64>, i: int)
    requires
        0 <= i <= s.len(),
    ensures
        sum_of(s.take(i)) <= sum_of(s),
    decreases s.len() - i,
{
    if i < s.len() {
        lemma_sum_prefix(s, i + 1);
        assert(s.take(i + 1).drop_last() =~= s.take(i));
    } else {
        assert(s.take(i) =~= s);
    }
}

/// The sum of `s`, where it fits in 64 bits.
pub fn sum_counts(s: &Vec<u64>) -> (r: Option<u64>)
    ensures
        r matches Some(v) ==> v == sum_of(s@),
        r is None ==> sum_of(s@) > u64::MAX,
{
    let mut acc: u64 = 0;
    let mut i: usize = 0;
    while i < s.len()
        invariant
            0 <= i <= s@.len(),
            acc == sum_of(s@.take(i as int)),
        decreases s@.len() - i,
    {
        assert(s@.take(i + 1).drop_last() =~= s@.take(i as int));
        if s[i] > u64::MAX - acc {
            proof {
                lemma_sum_prefix(s@, i + 1);
            }
            return None;
        }
        acc = acc + s[i];
        i = i + 1;
    }
    assert(s@.take(s@.len() as int) =~= s@);
    Some(acc)
}

/// A sum of counts is zero exactly when no count is positive.
pub proof fn lemma_sum_zero(s: Entries)
    ensures
        sum_of(values_of(s)) >= 0,
        (sum_of(values_of(s)) == 0) <==> (keys_where(s, |c: u64| c > 0).len() == 0),
    decreases s.len(),
{
    if s.len() > 0 {
        let t = s.drop_last();
        lemma_sum_zero(t);
        assert(values_of(s).drop_last() =~= values_of(t));
    }
}

/// The items the tree of `m` counts, at the node its schema names.
pub open spec fn tree_items(m: SpaceModel) -> int {
    count_at(m.items, m.names_hash())
}

/// The shape of a feature space whose root counts what it holds: sorted
/// stores, recorded epochs no later than the current one, a root named by
/// the schema, and nothing counted before the root exists or where the
/// schema is empty.
pub open spec fn tree_inv(m: SpaceModel) -> bool {
    &&& reachable_shape(m)
    &&& m.root() is Some ==> m.root()->0 == m.names_hash()
    &&& m.root() is None ==> tree_items(m) == 0
    &&& m.dimension() == 0 ==> tree_items(m) == 0
}

/// A descent below the root never runs dry: it ends in a leaf or fails.
proof fn lemma_descend_deep(m: SpaceModel, node: u64, layer: nat, p: Seq<(u64, u64)>)
    requires
        layer > 0,
    ensures
        !(descend(m, node, layer, p) is Exhausted),
    decreases m.dimension() - layer,
{
    if layer < m.dimension() {
        if let Some(Some(vh)) = pick(candidates(m, node), m.epochs, m.epoch_step()) {
            if m.leaves.contains_key(node) && value_at(m.children, node, vh) is Some {
                let child = value_at(m.children, node, vh)->0;
                lemma_descend_deep(m, child, layer + 1, p.push((node, vh)));
            }
        }
    }
}

/// A path found from `node` extends `p` by a choice at `node` with items,
/// and never comes back to a node it passed.
pub proof fn lemma_descend_found(m: SpaceModel, node: u64, layer: nat, p: Seq<(u64, u64)>)
    requires
        all_sorted(m.items),
    ensures
        descend(m, node, layer, p) matches Descent::Found(q, _) ==> {
            &&& q.len() > p.len()
            &&& q.take(p.len() as int) == p
            &&& q[p.len() as int].0 == node
            &&& pick(candidates(m, node), m.epochs, m.epoch_step()) == Some(Some(q[p.len() as int].1))
            &&& value_at(m.items, node, q[p.len() as int].1) matches Some(c) && c > 0
            &&& forall|i: int| p.len() < i < q.len() ==> !visits(q.take(i), #[trigger] q[i].0)
        },
    decreases m.dimension() - layer,
{
    if layer < m.dimension() {
        let cands = candidates(m, node);
        lemma_pick(cands, m.epochs, m.epoch_step());
        if let Some(Some(vh)) = pick(cands, m.epochs, m.epoch_step()) {
            lemma_candidate(m, node, vh);
            if m.leaves.contains_key(node) && value_at(m.children, node, vh) is Some {
                let child = value_at(m.children, node, vh)->0;
                let np = p.push((node, vh));
                if m.leaves[node] {
                    assert(np.take(p.len() as int) =~= p);
                } else if !visits(np, child) {
                    lemma_descend_found(m, child, layer + 1, np);
                    if let Descent::Found(q, _) = descend(m, child, layer + 1, np) {
                        assert(q.take(p.len() as int) =~= np.take(p.len() as int));
                        assert(np.take(p.len() as int) =~= p);
                        assert(q[p.len() as int] == np[p.len() as int]);
                    }
                }
            }
        }
    }
}

/// Serving a path that starts at `root` with items and never returns to it
/// takes exactly one item from `root`'s count.
pub proof fn lemma_apply_path_count(m: SpaceModel, q: Seq<(u64, u64)>, next: u64, root: u64, k: int)
    requires
        all_sorted(m.items),
        1 <= k <= q.len(),
        q[0].0 == root,
        value_at(m.items, root, q[0].1) matches Some(c) && c > 0,
        forall|i: int| 1 <= i < q.len() ==> #[trigger] q[i].0 != root,
    ensures
        count_at(apply_path(m, q.take(k), next).items, root) == count_at(m.items, root) - 1,
    decreases k,
{
    let t = q.take(k);
    if k == 1 {
        assert(t.drop_last() =~= Seq::<(u64, u64)>::empty());
        assert(apply_path(m, t.drop_last(), next) == m);
        assert(t.last() == q[0]);
        let after = serve(m, root, q[0].1, next);
        assert(apply_path(m, t, next) == after);
        lemma_sum_put(entries_at(m.items, root), q[0].1, dec(value_at(m.items, root, q[0].1)));
        assert(entries_at(after.items, root) == put_entry(
            entries_at(m.items, root),
            q[0].1,
            dec(value_at(m.items, root, q[0].1)),
        ));
    } else {
        assert(t.drop_last() =~= q.take(k - 1));
        lemma_apply_path_count(m, q, next, root, k - 1);
        assert(t.last() == q[k - 1]);
        assert(t.last().0 != root);
        let prev = apply_path(m, q.take(k - 1), next);
        let after = serve(prev, t.last().0, t.last().1, next);
        assert(apply_path(m, t, next) == after);
        assert(entries_at(after.items, root) == entries_at(prev.items, root));
    }
}

/// A successful insertion adds exactly one item to its root's count.
pub proof fn lemma_add_item_count(m: SpaceModel, fs: Seq<(Seq<char>, usize)>, leaf: u64)
    requires
        all_sorted(m.items),
        fs.len() > 0,
        add_item(m, fs, leaf) is Some,
    ensures
        count_at(add_item(m, fs, leaf)->0.items, root_for(m, fs)->0) == count_at(m.items, root_for(
            m,
            fs,
        )->0) + 1,
{
    let root = root_for(m, fs)->0;
    let m1 = m.with_meta(ROOT_INDEX_KEY, root);
    let prev = add_layers(m1, root, fs, leaf, 1);
    if fs.len() > 1 {
        lemma_add_layers_frame(m1, root, fs, leaf, 1, 0);
    }
    assert(layer_node(root, fs, 0) == root);
    let vh = value_hash(fs[0]);
    assert(entries_at(prev.items, root) == entries_at(m.items, root));
    assert(entries_at(prev.children, root) == entries_at(m.children, root));
    assert(layers_ready(m, root, fs));
    assert(value_at(m.children, layer_node(root, fs, 0), value_hash(fs[0])) is Some ==> value_at(
        m.items,
        root,
        vh,
    ) is Some);
    match value_at(prev.children, root, vh) {
        Some(_) => {
            lemma_sum_put(
                entries_at(prev.items, root),
                vh,
                (value_at(prev.items, root, vh)->0 + 1) as u64,
            );
        },
        None => {
            lemma_sum_put(entries_at(prev.items, root), vh, 1);
        },
    }
}

/// Where the root counts what the space holds, the descent finds nothing
/// exactly when it holds nothing.
pub proof fn lemma_exhausted_iff_empty(m: SpaceModel)
    requires
        tree_inv(m),
    ensures
        (next_leaf(m) is Exhausted) <==> tree_items(m) == 0,
{
    lemma_sum_zero(entries_at(m.items, m.names_hash()));
    if let Some(r) = m.root() {
        if m.dimension() > 0 {
            let cands = candidates(m, r);
            lemma_pick(cands, m.epochs, m.epoch_step());
            if cands.len() > 0 {
                assert forall|i: int| 0 <= i < cands.len() implies m.epochs.contains_key(
                    #[trigger] cands[i],
                ) by {
                    assert(cands.contains(cands[i]));
                    lemma_candidate(m, r, cands[i]);
                }
                assert(cands.contains(cands[0]));
                lemma_candidate(m, r, cands[0]);
                if let Some(Some(vh)) = pick(cands, m.epochs, m.epoch_step()) {
                    if m.leaves.contains_key(r) && value_at(m.children, r, vh) is Some {
                        let child = value_at(m.children, r, vh)->0;
                        lemma_descend_deep(m, child, 1, seq![(r, vh)]);
                    }
                }
            }
        }
    }
}

/// The items the tree counts at its root; none before there is a root.
pub open spec fn root_items(m: SpaceModel) -> int {
    match m.root() {
        Some(r) => count_at(m.items, r),
        None => 0,
    }
}

/// The invariant of a feature space: recorded epochs are no later than the
/// current one and every counted value has one, nothing is counted before
/// the root exists, and nothing is counted under an empty schema.
pub open spec fn space_inv(m: SpaceModel) -> bool {
    &&& epochs_bounded(m)
    &&& m.root() is None ==> forall|p: u64| #[trigger] entries_at(m.items, p).len() == 0
    &&& m.dimension() == 0 ==> root_items(m) == 0
}

proof fn lemma_count_empty(m: Map<u64, Entries>, p: u64)
    requires
        entries_at(m, p).len() == 0,
    ensures
        count_at(m, p) == 0,
{
    assert(values_of(entries_at(m, p)) =~= Seq::<u64>::empty());
}

/// Changing the count of enqueued items leaves the tree's invariant alone.
pub proof fn lemma_total_frame(m: SpaceModel, v: u64)
    requires
        space_inv(m),
    ensures
        space_inv(m.with_meta(crate::feature_space::TOTAL_ITEMS_KEY, v)),
{
    let m2 = m.with_meta(crate::feature_space::TOTAL_ITEMS_KEY, v);
    assert(m2.epoch_step() == m.epoch_step());
    assert(m2.root() == m.root());
    assert(m2.dimension() == m.dimension());
}

/// Where the space keeps its invariant, the descent finds nothing exactly
/// when the root counts no item.
pub proof fn lemma_exhausted_iff_root_empty(m: SpaceModel)
    requires
        reachable_shape(m),
        space_inv(m),
    ensures
        (next_leaf(m) is Exhausted) <==> root_items(m) == 0,
{
    if let Some(r) = m.root() {
        lemma_sum_zero(entries_at(m.items, r));
        if m.dimension() > 0 {
            let cands = candidates(m, r);
            lemma_pick(cands, m.epochs, m.epoch_step());
            if cands.len() > 0 {
                assert forall|i: int| 0 <= i < cands.len() implies m.epochs.contains_key(
                    #[trigger] cands[i],
                ) by {
                    assert(cands.contains(cands[i]));
                    lemma_candidate(m, r, cands[i]);
                }
                assert(cands.contains(cands[0]));
                lemma_candidate(m, r, cands[0]);
                if let Some(Some(vh)) = pick(cands, m.epochs, m.epoch_step()) {
                    if m.leaves.contains_key(r) && value_at(m.children, r, vh) is Some {
                        let child = value_at(m.children, r, vh)->0;
                        lemma_descend_deep(m, child, 1, seq![(r, vh)]);
                    }
                }
            }
        }
    }
}

/// A successful insertion keeps the invariant and counts one item more at
/// the root.
pub proof fn lemma_add_item_space(m: SpaceModel, fs: Seq<(Seq<char>, usize)>, leaf: u64)
    requires
        reachable_shape(m),
        space_inv(m),
        add_item(m, fs, leaf) is Some,
    ensures
        space_inv(add_item(m, fs, leaf)->0),
        reachable_shape(add_item(m, fs, leaf)->0),
        root_items(add_item(m, fs, leaf)->0) == root_items(m) + 1,
{
    let after = add_item(m, fs, leaf)->0;
    let root = root_for(m, fs)->0;
    crate::fairness::lemma_add_item_shape(m, fs, leaf);
    crate::feature_space::lemma_add_item_meta(m, fs, leaf);
    lemma_add_item_count(m, fs, leaf);
    assert(after.root() == Some(root));
    if m.root() is None {
        lemma_count_empty(m.items, root);
    }
}

/// Serving the path the descent found keeps the invariant and counts one
/// item fewer at the root.
pub proof fn lemma_served_space(m: SpaceModel)
    requires
        reachable_shape(m),
        space_inv(m),
        m.epoch_step() < u64::MAX,
        next_leaf(m) is Found,
    ensures
        space_inv(served(m, next_leaf(m)->0)),
        reachable_shape(served(m, next_leaf(m)->0)),
        root_items(served(m, next_leaf(m)->0)) == root_items(m) - 1,
{
    let path = next_leaf(m)->0;
    let r = m.root()->0;
    let next = (m.epoch_step() + 1) as u64;
    crate::fairness::lemma_served_shape(m, path);
    crate::feature_space::lemma_apply_path_frame(m, path, next);
    lemma_descend_found(m, r, 0, Seq::empty());
    assert forall|i: int| 1 <= i < path.len() implies #[trigger] path[i].0 != r by {
        assert(!visits(path.take(i), path[i].0));
        assert(path.take(i)[0].0 == r);
    }
    assert(path.take(path.len() as int) =~= path);
    lemma_apply_path_count(m, path, next, r, path.len() as int);
}

/// Serving a path that passes `root` only at its start changes `root`'s
/// entries only at the value chosen there, marks every value on the path as
/// served at `next`, and leaves every other value's epoch alone.
pub proof fn lemma_apply_path_effects(m: SpaceModel, q: Seq<(u64, u64)>, next: u64, root: u64, k: int)
    requires
        0 <= k <= q.len(),
        q.len() > 0,
        q[0].0 == root,
        forall|i: int| 1 <= i < q.len() ==> #[trigger] q[i].0 != root,
    ensures
        k >= 1 ==> entries_at(apply_path(m, q.take(k), next).items, root) == put_entry(
            entries_at(m.items, root),
            q[0].1,
            dec(value_at(m.items, root, q[0].1)),
        ),
        forall|y: u64|
            (forall|i: int| 0 <= i < k ==> q[i].1 != y) ==> (#[trigger] apply_path(
                m,
                q.take(k),
                next,
            ).epochs.contains_key(y) == m.epochs.contains_key(y) && apply_path(m, q.take(k), next).epochs[y]
                == m.epochs[y]),
        forall|i: int|
            0 <= i < k ==> apply_path(m, q.take(k), next).epochs.contains_key(#[trigger] q[i].1)
                && apply_path(m, q.take(k), next).epochs[q[i].1] == next,
    decreases k,
{
    let t = q.take(k);
    if k == 0 {
        assert(t =~= Seq::<(u64, u64)>::empty());
    } else {
        assert(t.drop_last() =~= q.take(k - 1));
        lemma_apply_path_effects(m, q, next, root, k - 1);
        let prev = apply_path(m, q.take(k - 1), next);
        assert(t.last() == q[k - 1]);
        let after = serve(prev, q[k - 1].0, q[k - 1].1, next);
        assert(apply_path(m, t, next) == after);
        if k == 1 {
            assert(q.take(0) =~= Seq::<(u64, u64)>::empty());
            assert(prev == m);
        } else {
            assert(entries_at(after.items, root) == entries_at(prev.items, root));
        }
        assert forall|i: int| 0 <= i < k implies after.epochs.contains_key(#[trigger] q[i].1)
            && after.epochs[q[i].1] == next by {
            if i < k - 1 && q[i].1 != q[k - 1].1 {
                assert(prev.epochs.contains_key(q[i].1));
            }
        }
    }
}

} // verus!
