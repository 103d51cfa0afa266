use vstd::prelude::*;

use crate::fairness::{
    clean_run, law_fair_rotation_uses, root_choice, root_served_before, used_path, uses,
    choice, law_fair_rotation, lemma_add_item_shape, lemma_candidate, lemma_served_shape,
    reachable_shape, served_before,
};
use crate::counting::{
    space_inv,
    lemma_add_item_count, lemma_descend_found, lemma_exhausted_iff_empty, lemma_sum_zero,
};
use crate::feature_space::{
    apply_path, descend, pick, served, SpaceModel, TOTAL_ITEMS_KEY, candidates, lemma_add_item_meta, lemma_apply_path_frame, next_leaf, root_for, visits,
    with_defaults, Descent,
};
use crate::features::{features_hash, names_hash, names_of};
use crate::prefix_storage::{all_sorted, blocks_view, entries_at, sorted_by_key, value_at};
use crate::sharded_heap::heap_blocks_view;
use crate::storage::{lemma_map_of_lists, map_of};
use crate::{
    dequeue_spec, enqueue_spec, fresh, peek_spec, queue_inv, restore_spec, snapshot_of, QueueModel,
    QueueSnapshot,
};

verus! {

/// One call on a queue.
pub enum Op {
    Enqueue(Seq<u8>, Seq<(Seq<char>, usize)>),
    Dequeue,
}

/// The state after `op`; a refused or failed call changes nothing.
pub open spec fn apply_op(q: QueueModel, op: Op) -> QueueModel {
    match op {
        Op::Enqueue(data, fs) => match enqueue_spec(q, data, fs) {
            Some(r) => r.0,
            None => q,
        },
        Op::Dequeue => match dequeue_spec(q) {
            Some(r) => r.0,
            None => q,
        },
    }
}

/// The state after the calls `ops`, in order.
pub open spec fn run(q: QueueModel, ops: Seq<Op>) -> QueueModel
    decreases ops.len(),
{
    if ops.len() == 0 {
        q
    } else {
        apply_op(run(q, ops.drop_last()), ops.last())
    }
}

/// How many of the calls `ops` were enqueues that succeeded.
pub open spec fn enqueued(q: QueueModel, ops: Seq<Op>) -> nat
    decreases ops.len(),
{
    if ops.len() == 0 {
        0
    } else {
        let before = run(q, ops.drop_last());
        enqueued(q, ops.drop_last()) + match ops.last() {
            Op::Enqueue(data, fs) => if enqueue_spec(before, data, fs) is Some {
                1nat
            } else {
                0nat
            },
            Op::Dequeue => 0nat,
        }
    }
}

/// How many of the calls `ops` were dequeues that returned an item.
pub open spec fn dequeued(q: QueueModel, ops: Seq<Op>) -> nat
    decreases ops.len(),
{
    if ops.len() == 0 {
        0
    } else {
        let before = run(q, ops.drop_last());
        dequeued(q, ops.drop_last()) + match ops.last() {
            Op::Enqueue(_, _) => 0nat,
            Op::Dequeue => if dequeue_spec(before) matches Some(r) && r.1 is Some {
                1nat
            } else {
                0nat
            },
        }
    }
}

/// A successful enqueue adds one item, advances the epoch by one and returns
/// the new epoch; it keeps the schema.
pub proof fn lemma_enqueue_step(q: QueueModel, data: Seq<u8>, fs: Seq<(Seq<char>, usize)>)
    requires
        q.space.wf(),
        enqueue_spec(q, data, fs) is Some,
    ensures
        ({
            let (after, epoch) = enqueue_spec(q, data, fs)->0;
            &&& after.space.wf()
            &&& after.space.total_items() == q.space.total_items() + 1
            &&& after.space.epoch_step() == q.space.epoch_step() + 1
            &&& epoch == after.space.epoch_step()
            &&& after.space.names_hash() == q.space.names_hash()
            &&& after.space.dimension() == q.space.dimension()
        }),
{
    lemma_add_item_meta(q.space, fs, features_hash(fs));
}

/// A dequeue that returns an item removes it and advances the epoch by one;
/// one that returns none changes nothing. Either way the schema stays.
pub proof fn lemma_dequeue_step(q: QueueModel)
    requires
        q.space.wf(),
        dequeue_spec(q) is Some,
    ensures
        ({
            let (after, item, epoch) = dequeue_spec(q)->0;
            &&& after.space.wf()
            &&& epoch == after.space.epoch_step()
            &&& after.space.names_hash() == q.space.names_hash()
            &&& after.space.dimension() == q.space.dimension()
            &&& item is Some ==> after.space.total_items() == q.space.total_items() - 1
                && after.space.epoch_step() == q.space.epoch_step() + 1
            &&& item is None ==> after == q
        }),
{
    if let Descent::Found(path, leaf) = next_leaf(q.space) {
        lemma_apply_path_frame(q.space, path, (q.space.epoch_step() + 1) as u64);
    }
}

/// Schema immutability: whatever calls a queue built over `names` has seen,
/// its schema is still `names`, and an enqueue whose feature names are not
/// `names` is refused.
pub proof fn law_schema_immutable(
    names: Seq<Seq<char>>,
    ops: Seq<Op>,
    data: Seq<u8>,
    fs: Seq<(Seq<char>, usize)>,
)
    requires
        names_of(fs) != names,
    ensures
        run(fresh(names), ops).space.names_hash() == names_hash(names),
        run(fresh(names), ops).space.dimension() == names.len() as u64,
        enqueue_spec(run(fresh(names), ops), data, fs) is None,
    decreases ops.len(),
{
    lemma_schema_kept(names, ops);
}

proof fn lemma_schema_kept(names: Seq<Seq<char>>, ops: Seq<Op>)
    ensures
        run(fresh(names), ops).names == names,
        run(fresh(names), ops).space.wf(),
        run(fresh(names), ops).space.names_hash() == names_hash(names),
        run(fresh(names), ops).space.dimension() == names.len() as u64,
    decreases ops.len(),
{
    if ops.len() > 0 {
        lemma_schema_kept(names, ops.drop_last());
        let before = run(fresh(names), ops.drop_last());
        match ops.last() {
            Op::Enqueue(data, fs) => {
                if enqueue_spec(before, data, fs) is Some {
                    lemma_enqueue_step(before, data, fs);
                }
            },
            Op::Dequeue => {
                if dequeue_spec(before) is Some {
                    lemma_dequeue_step(before);
                }
            },
        }
    }
}

/// Arity: an enqueue with a number of features other than the dimension is
/// refused.
pub proof fn law_arity(q: QueueModel, data: Seq<u8>, fs: Seq<(Seq<char>, usize)>)
    requires
        fs.len() != q.space.dimension() as nat,
    ensures
        enqueue_spec(q, data, fs) is None,
{
}

/// Size accounting: after any calls on a fresh queue, its size is the number
/// of successful enqueues less the number of dequeues that returned an item.
pub proof fn law_size_accounting(names: Seq<Seq<char>>, ops: Seq<Op>)
    ensures
        run(fresh(names), ops).space.total_items() == enqueued(fresh(names), ops) - dequeued(
            fresh(names),
            ops,
        ),
    decreases ops.len(),
{
    lemma_schema_kept(names, ops);
    if ops.len() > 0 {
        lemma_schema_kept(names, ops.drop_last());
        law_size_accounting(names, ops.drop_last());
        let before = run(fresh(names), ops.drop_last());
        match ops.last() {
            Op::Enqueue(data, fs) => {
                if enqueue_spec(before, data, fs) is Some {
                    lemma_enqueue_step(before, data, fs);
                }
            },
            Op::Dequeue => {
                if dequeue_spec(before) is Some {
                    lemma_dequeue_step(before);
                }
            },
        }
    }
}

/// Epoch monotonicity: a successful enqueue, and a dequeue that returns an
/// item, each leave the epoch strictly greater; a dequeue that returns none
/// leaves it as it was.
pub proof fn law_epoch_monotonic(q: QueueModel, data: Seq<u8>, fs: Seq<(Seq<char>, usize)>)
    requires
        q.space.wf(),
    ensures
        enqueue_spec(q, data, fs) matches Some(r) ==> r.0.space.epoch_step()
            > q.space.epoch_step(),
        dequeue_spec(q) matches Some(r) ==> (r.1 is Some ==> r.0.space.epoch_step()
            > q.space.epoch_step()) && (r.1 is None ==> r.0.space.epoch_step()
            == q.space.epoch_step()),
{
    if enqueue_spec(q, data, fs) is Some {
        lemma_enqueue_step(q, data, fs);
    }
    if dequeue_spec(q) is Some {
        lemma_dequeue_step(q);
    }
}

/// Non-destructive peek: a peek shows exactly the item that the next dequeue
/// returns (none where it returns none); a peek changes nothing, so two in a
/// row agree and the size stays.
pub proof fn law_peek_shows_next(q: QueueModel)
    requires
        dequeue_spec(q) is Some,
    ensures
        ({
            let (_, item, _) = dequeue_spec(q)->0;
            peek_spec(q) == Some(item)
        }),
{
}

/// Every state that calls on a fresh queue reach has the scheduler's shape.
pub proof fn lemma_reachable_shape(names: Seq<Seq<char>>, ops: Seq<Op>)
    ensures
        reachable_shape(run(fresh(names), ops).space),
    decreases ops.len(),
{
    if ops.len() == 0 {
        let m = fresh(names).space;
        assert(forall|p: u64| #[trigger] m.items.contains_key(p) ==> sorted_by_key(m.items[p]));
        assert forall|p: u64, k: u64| #[trigger] value_at(m.items, p, k) is Some implies m.epochs.contains_key(k) by {
            assert(entries_at(m.items, p).len() == 0);
        }
    } else {
        lemma_reachable_shape(names, ops.drop_last());
        let before = run(fresh(names), ops.drop_last());
        match ops.last() {
            Op::Enqueue(data, fs) => {
                if enqueue_spec(before, data, fs) is Some {
                    lemma_enqueue_step(before, data, fs);
                    lemma_add_item_shape(before.space, fs, features_hash(fs));
                }
            },
            Op::Dequeue => {
                if dequeue_spec(before) is Some {
                    lemma_dequeue_step(before);
                    if let Descent::Found(path, leaf) = next_leaf(before.space) {
                        let (_, item, _) = dequeue_spec(before)->0;
                        if item is Some {
                            lemma_served_shape(before.space, path);
                        }
                    }
                }
            },
        }
    }
}

/// Fair rotation, at every node of every queue that calls on a fresh one
/// reach: serving the node round after round takes, while a child with
/// items has not been served yet, one that has not; so every child is
/// served exactly once before any is served again.
pub proof fn law_fair_rotation_reachable(names: Seq<Seq<char>>, ops: Seq<Op>, node: u64, t: nat)
    requires
        run(fresh(names), ops).space.epoch_step() + t < u64::MAX,
        exists|y: u64|
            candidates(run(fresh(names), ops).space, node).contains(y) && !#[trigger] served_before(
                run(fresh(names), ops).space,
                node,
                t,
                y,
            ),
    ensures
        candidates(run(fresh(names), ops).space, node).contains(
            choice(run(fresh(names), ops).space, node, t),
        ),
        !served_before(
            run(fresh(names), ops).space,
            node,
            t,
            choice(run(fresh(names), ops).space, node, t),
        ),
{
    let m = run(fresh(names), ops).space;
    lemma_reachable_shape(names, ops);
    assert forall|y: u64| #[trigger] candidates(m, node).contains(y) implies m.epochs.contains_key(y)
        && m.epochs[y] <= m.epoch_step() by {
        lemma_candidate(m, node, y);
    }
    law_fair_rotation(m, node, t);
}

/// A successful enqueue keeps the queue's invariant.
pub proof fn lemma_enqueue_inv(q: QueueModel, data: Seq<u8>, fs: Seq<(Seq<char>, usize)>)
    requires
        queue_inv(q),
        enqueue_spec(q, data, fs) is Some,
    ensures
        ({
            let (after, _) = enqueue_spec(q, data, fs)->0;
            queue_inv(after)
        }),
{
    let bucket = features_hash(fs);
    lemma_enqueue_step(q, data, fs);
    lemma_add_item_shape(q.space, fs, bucket);
    lemma_add_item_meta(q.space, fs, bucket);
    lemma_add_item_count(q.space, fs, bucket);
    let root = root_for(q.space, fs)->0;
    assert(root == q.space.names_hash());
}

/// A successful dequeue keeps the queue's invariant.
pub proof fn lemma_dequeue_inv(q: QueueModel)
    requires
        queue_inv(q),
        dequeue_spec(q) is Some,
    ensures
        ({
            let (after, _, _) = dequeue_spec(q)->0;
            queue_inv(after)
        }),
{
    lemma_dequeue_step(q);
    if let Descent::Found(path, leaf) = next_leaf(q.space) {
        let r = q.space.root()->0;
        let next = (q.space.epoch_step() + 1) as u64;
        lemma_served_shape(q.space, path);
        lemma_apply_path_frame(q.space, path, next);
        lemma_descend_found(q.space, r, 0, Seq::empty());
        assert forall|i: int| 1 <= i < path.len() implies #[trigger] path[i].0 != r by {
            assert(!visits(path.take(i), path[i].0));
            assert(path.take(i)[0].0 == r);
        }
        assert(path.take(path.len() as int) =~= path);
        crate::counting::lemma_apply_path_count(q.space, path, next, r, path.len() as int);
    }
}

/// Every queue that calls on a fresh one reach keeps the invariant.
pub proof fn lemma_reachable_inv(names: Seq<Seq<char>>, ops: Seq<Op>)
    ensures
        queue_inv(run(fresh(names), ops)),
    decreases ops.len(),
{
    if ops.len() == 0 {
        lemma_reachable_shape(names, ops);
        lemma_sum_zero(entries_at(fresh(names).space.items, names_hash(names)));
        assert(entries_at(fresh(names).space.items, names_hash(names)) =~= Seq::<(u64, u64)>::empty());
    } else {
        lemma_reachable_inv(names, ops.drop_last());
        let before = run(fresh(names), ops.drop_last());
        match ops.last() {
            Op::Enqueue(data, fs) => {
                if enqueue_spec(before, data, fs) is Some {
                    lemma_enqueue_inv(before, data, fs);
                }
            },
            Op::Dequeue => {
                if dequeue_spec(before) is Some {
                    lemma_dequeue_inv(before);
                }
            },
        }
    }
}

/// Nothing is served exactly when the queue is empty: a dequeue that
/// succeeds returns none, a peek that succeeds shows none, and the descent
/// finds no leaf, each exactly when the size is 0.
pub proof fn law_none_iff_empty(q: QueueModel)
    requires
        queue_inv(q),
    ensures
        (next_leaf(q.space) is Exhausted) <==> q.space.total_items() == 0,
        dequeue_spec(q) matches Some(r) ==> (r.1 is None <==> q.space.total_items() == 0),
        peek_spec(q) matches Some(p) ==> (p is None <==> q.space.total_items() == 0),
{
    lemma_exhausted_iff_empty(q.space);
}

/// The state after `t` successive dequeues; a failed one changes nothing.
pub open spec fn dequeues(q: QueueModel, t: nat) -> QueueModel
    decreases t,
{
    if t == 0 {
        q
    } else {
        let prev = dequeues(q, (t - 1) as nat);
        match dequeue_spec(prev) {
            Some(r) => r.0,
            None => prev,
        }
    }
}

/// The path the dequeue after `t` earlier ones serves.
pub open spec fn dequeue_path(q: QueueModel, t: nat) -> Seq<(u64, u64)> {
    next_leaf(dequeues(q, t).space)->0
}

/// The root child that the dequeue after `t` earlier ones serves.
pub open spec fn dequeue_choice(q: QueueModel, t: nat) -> u64 {
    dequeue_path(q, t)[0].1
}

/// Whether `y` was served at the root by one of the first `t` dequeues.
pub open spec fn dequeue_served_before(q: QueueModel, t: nat, y: u64) -> bool {
    exists|i: nat| i < t && dequeue_choice(q, i) == y
}

proof fn lemma_descend_ignores_total(m: SpaceModel, v: u64, node: u64, layer: nat, p: Seq<(u64, u64)>)
    ensures
        descend(m.with_meta(TOTAL_ITEMS_KEY, v), node, layer, p) == descend(m, node, layer, p),
    decreases m.dimension() - layer,
{
    let m2 = m.with_meta(TOTAL_ITEMS_KEY, v);
    assert(m2.dimension() == m.dimension());
    assert(m2.epoch_step() == m.epoch_step());
    assert(candidates(m2, node) == candidates(m, node));
    if layer < m.dimension() {
        if let Some(Some(vh)) = pick(candidates(m, node), m.epochs, m.epoch_step()) {
            if m.leaves.contains_key(node) && value_at(m.children, node, vh) is Some {
                let child = value_at(m.children, node, vh)->0;
                lemma_descend_ignores_total(m, v, child, layer + 1, p.push((node, vh)));
            }
        }
    }
}

proof fn lemma_apply_path_total(m: SpaceModel, v: u64, path: Seq<(u64, u64)>, next: u64)
    ensures
        apply_path(m.with_meta(TOTAL_ITEMS_KEY, v), path, next) == apply_path(m, path, next).with_meta(
            TOTAL_ITEMS_KEY,
            v,
        ),
    decreases path.len(),
{
    if path.len() > 0 {
        lemma_apply_path_total(m, v, path.drop_last(), next);
    }
}

/// Dequeues that each serve an item move the feature space as successive
/// selections do, apart from the count of enqueued items.
proof fn lemma_dequeues_are_uses(q: QueueModel, t: nat)
    requires
        q.space.meta.contains_key(TOTAL_ITEMS_KEY),
        forall|i: nat| i < t ==> (#[trigger] dequeue_spec(dequeues(q, i)) matches Some(r) && r.1 is Some),
    ensures
        dequeues(q, t).space == uses(q.space, t).with_meta(
            TOTAL_ITEMS_KEY,
            dequeues(q, t).space.total_items(),
        ),
    decreases t,
{
    if t == 0 {
        assert(q.space.meta.insert(TOTAL_ITEMS_KEY, q.space.total_items()) =~= q.space.meta);
    } else {
        let p = (t - 1) as nat;
        lemma_dequeues_are_uses(q, p);
        let d = dequeues(q, p);
        let u = uses(q.space, p);
        let a = d.space.total_items();
        assert(dequeue_spec(d) matches Some(r) && r.1 is Some);
        lemma_descend_ignores_total(u, a, u.root()->0, 0, Seq::empty());
        assert(d.space.root() == u.root());
        assert(next_leaf(d.space) == next_leaf(u));
        let path = next_leaf(u)->0;
        let next = (u.epoch_step() + 1) as u64;
        lemma_apply_path_total(u, a, path, next);
        let d2 = dequeues(q, t);
        let u2 = uses(q.space, t);
        assert(u2 == served(u, path));
        assert(d2.space.meta =~= u2.with_meta(TOTAL_ITEMS_KEY, d2.space.total_items()).meta);
    }
}

/// Fair rotation over successive dequeues: while each dequeue serves an item
/// and none chooses a child value of the root below the root (as when every
/// name of the schema differs), each serves at the root a child that has
/// items and has not been served yet, as long as such a child is left; so
/// every child of the root is served exactly once before any is served
/// again.
pub proof fn law_fair_rotation_dequeues(q: QueueModel, t: nat)
    requires
        queue_inv(q),
        q.space.root() is Some,
        q.space.epoch_step() + t < u64::MAX,
        forall|i: nat| i <= t ==> (#[trigger] dequeue_spec(dequeues(q, i)) matches Some(r) && r.1 is Some),
        forall|i: nat, j: int|
            i < t && 1 <= j < dequeue_path(q, i).len() ==> !candidates(
                q.space,
                q.space.root()->0,
            ).contains(#[trigger] dequeue_path(q, i)[j].1),
        exists|y: u64|
            candidates(q.space, q.space.root()->0).contains(y) && !#[trigger] dequeue_served_before(
                q,
                t,
                y,
            ),
    ensures
        candidates(q.space, q.space.root()->0).contains(dequeue_choice(q, t)),
        !dequeue_served_before(q, t, dequeue_choice(q, t)),
{
    let m = q.space;
    let r = m.root()->0;
    assert forall|i: nat| i <= t implies next_leaf(#[trigger] dequeues(q, i).space) == next_leaf(uses(m, i)) && next_leaf(uses(m, i)) is Found by {
        lemma_dequeues_are_uses(q, i);
        let u = uses(m, i);
        lemma_descend_ignores_total(u, dequeues(q, i).space.total_items(), u.root()->0, 0, Seq::empty());
        assert(dequeues(q, i).space.root() == u.root());
        assert(dequeue_spec(dequeues(q, i)) matches Some(x) && x.1 is Some);
    }
    assert forall|i: nat| i <= t implies #[trigger] dequeue_choice(q, i) == root_choice(m, i) by {
        assert(next_leaf(dequeues(q, i).space) == next_leaf(uses(m, i)));
    }
    assert(clean_run(m, r, t)) by {
        assert forall|i: nat| i <= t implies #[trigger] next_leaf(uses(m, i)) is Found by {
            assert(next_leaf(dequeues(q, i).space) == next_leaf(uses(m, i)));
        }
        assert forall|i: nat, j: int|
            i < t && 1 <= j < used_path(m, i).len() implies !candidates(m, r).contains(
            #[trigger] used_path(m, i)[j].1,
        ) by {
            assert(next_leaf(dequeues(q, i).space) == next_leaf(uses(m, i)));
            assert(dequeue_path(q, i) == used_path(m, i));
            assert(!candidates(m, r).contains(dequeue_path(q, i)[j].1));
        }
    }
    let y = choose|y: u64| candidates(m, r).contains(y) && !#[trigger] dequeue_served_before(q, t, y);
    assert(!root_served_before(m, t, y)) by {
        if root_served_before(m, t, y) {
            let i = choose|i: nat| i < t && root_choice(m, i) == y;
            assert(dequeue_choice(q, i) == y);
        }
    }
    law_fair_rotation_uses(m, t);
    if dequeue_served_before(q, t, dequeue_choice(q, t)) {
        let i = choose|i: nat| i < t && dequeue_choice(q, i) == dequeue_choice(q, t);
        assert(root_choice(m, i) == root_choice(m, t));
    }
}

/// Durability: rebuilding a queue from a snapshot of its whole state, under
/// the same schema, gives back that state: the same epoch, the same items
/// and the same fairness memory, hence the same order of service.
pub proof fn law_durable_round_trip(names: Seq<Seq<char>>, q: QueueModel, s: QueueSnapshot)
    requires
        q.space.wf(),
        all_sorted(q.space.items),
        all_sorted(q.space.children),
        forall|p: u64| #[trigger] q.space.items.contains_key(p) ==> q.space.items[p].len() > 0,
        forall|p: u64| #[trigger] q.space.children.contains_key(p) ==> q.space.children[p].len() > 0,
        forall|b: u64| #[trigger] q.heap.contains_key(b) ==> sorted_by_key(q.heap[b]),
        queue_inv(q),
        space_inv(q.space),
        q.names == names,
        snapshot_of(s, q),
    ensures
        restore_spec(names, s) == Some(q),
{
    lemma_map_of_lists(s.metadata@, q.space.meta);
    lemma_map_of_lists(s.node_has_leaves@, q.space.leaves);
    lemma_map_of_lists(blocks_view(s.node_value_items_at_index@), q.space.items);
    lemma_map_of_lists(blocks_view(s.node_value_child_index@), q.space.children);
    lemma_map_of_lists(s.value_to_epoch@, q.space.epochs);
    lemma_map_of_lists(heap_blocks_view(s.items@), q.heap);
    let meta = with_defaults(map_of(s.metadata@), names);
    assert(meta == q.space.meta);
    let iv = blocks_view(s.node_value_items_at_index@);
    let cv = blocks_view(s.node_value_child_index@);
    let hv = heap_blocks_view(s.items@);
    assert forall|j: int| 0 <= j < iv.len() implies #[trigger] iv[j].1.len() > 0 && sorted_by_key(iv[j].1) by {
        assert(q.space.items.contains_key(iv[j].0));
    }
    assert forall|j: int| 0 <= j < cv.len() implies #[trigger] cv[j].1.len() > 0 && sorted_by_key(cv[j].1) by {
        assert(q.space.children.contains_key(cv[j].0));
    }
    assert forall|j: int| 0 <= j < hv.len() implies sorted_by_key(#[trigger] hv[j].1) by {
        assert(q.heap.contains_key(hv[j].0));
    }
}

} // verus!
