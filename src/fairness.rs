use vstd::prelude::*;

use crate::feature_space::{
    add_item, add_layers, candidates, dec, apply_path, lemma_add_layers_frame, lemma_add_layers_meta,
    lemma_apply_path_frame, layer_child, layer_node, layers_distinct, layers_ready, pick, root_for,
    serve, served, SpaceModel, EPOCH_STEP_KEY, ROOT_INDEX_KEY,
};
use crate::features::value_hash;
use crate::counting::{lemma_apply_path_effects, lemma_descend_found};
use crate::feature_space::{next_leaf, use_next, visits};
use crate::prefix_storage::{
    all_sorted, entries_at, has_key, key_index, keys_where, lemma_key_index, lemma_put_entry_sorted, put_entry,
    sorted_by_key, value_at, value_of, Entries,
};

verus! {

/// The child of `node` that the scheduler serves next.
pub open spec fn chosen_at(m: SpaceModel, node: u64) -> u64 {
    pick(candidates(m, node), m.epochs, m.epoch_step())->0->0
}

/// Serving the next child of `node` once, and advancing the epoch.
pub open spec fn serve_next_at(m: SpaceModel, node: u64) -> SpaceModel {
    let next = (m.epoch_step() + 1) as u64;
    serve(m, node, chosen_at(m, node), next).with_meta(EPOCH_STEP_KEY, next)
}

/// The state after `t` successive services at `node`.
pub open spec fn rounds(m: SpaceModel, node: u64, t: nat) -> SpaceModel
    decreases t,
{
    if t == 0 {
        m
    } else {
        serve_next_at(rounds(m, node, (t - 1) as nat), node)
    }
}

/// The child served in round `t` (counting from 0) at `node`.
pub open spec fn choice(m: SpaceModel, node: u64, t: nat) -> u64 {
    chosen_at(rounds(m, node, t), node)
}

/// Whether `y` was served in one of the first `t` rounds.
pub open spec fn served_before(m: SpaceModel, node: u64, t: nat, y: u64) -> bool {
    exists|i: nat| i < t && choice(m, node, i) == y
}

pub proof fn lemma_pick(cs: Seq<u64>, ep: Map<u64, u64>, step: u64)
    ensures
        (forall|i: int| 0 <= i < cs.len() ==> ep.contains_key(#[trigger] cs[i])) ==> pick(
            cs,
            ep,
            step,
        ) is Some,
        pick(cs, ep, step) matches Some(Some(x)) ==> cs.contains(x) && ep.contains_key(x)
            && ep[x] <= step && forall|i: int|
            0 <= i < cs.len() && ep.contains_key(#[trigger] cs[i]) && ep[cs[i]] <= step
                ==> ep[x] <= ep[cs[i]],
        pick(cs, ep, step) matches Some(None) ==> forall|i: int|
            0 <= i < cs.len() ==> !(ep.contains_key(#[trigger] cs[i]) && ep[cs[i]] <= step),
    decreases cs.len(),
{
    if cs.len() > 0 {
        let t = cs.drop_last();
        lemma_pick(t, ep, step);
        assert(forall|i: int| 0 <= i < t.len() ==> t[i] == cs[i]);
        if let Some(Some(x)) = pick(t, ep, step) {
            assert(t.contains(x));
        }
        if (forall|i: int| 0 <= i < cs.len() ==> ep.contains_key(#[trigger] cs[i])) {
            assert(forall|i: int| 0 <= i < t.len() ==> ep.contains_key(#[trigger] t[i]));
            assert(ep.contains_key(cs[cs.len() - 1]));
        }
    }
}

proof fn lemma_keys_where_contains(s: Entries, pred: spec_fn(u64) -> bool, y: u64)
    requires
        sorted_by_key(s),
    ensures
        keys_where(s, pred).contains(y) <==> (value_of(s, y) matches Some(v) && pred(v)),
    decreases s.len(),
{
    if s.len() > 0 {
        let t = s.drop_last();
        assert(sorted_by_key(t));
        lemma_keys_where_contains(t, pred, y);
        let n = s.len() - 1;
        if s[n].0 == y {
            lemma_key_index(s, y, n);
            assert(!has_key(t, y)) by {
                if has_key(t, y) {
                    let j = choose|j: int| 0 <= j < t.len() && t[j].0 == y;
                    assert(s[j].0 < s[n].0);
                }
            }
            if pred(s[n].1) {
                assert(keys_where(s, pred) == keys_where(t, pred).push(y));
                assert(keys_where(s, pred)[keys_where(t, pred).len() as int] == y);
            }
        } else {
            if has_key(s, y) {
                let j = key_index(s, y);
                assert(j < n);
                lemma_key_index(t, y, j);
            }
            if has_key(t, y) {
                let j = key_index(t, y);
                lemma_key_index(s, y, j);
            }
            if keys_where(s, pred).contains(y) {
                let w = choose|w: int| 0 <= w < keys_where(s, pred).len() && keys_where(s, pred)[w] == y;
                if pred(s[n].1) {
                    assert(w < keys_where(t, pred).len());
                    assert(keys_where(t, pred)[w] == y);
                }
            }
            if keys_where(t, pred).contains(y) {
                let w = choose|w: int| 0 <= w < keys_where(t, pred).len() && keys_where(t, pred)[w] == y;
                if pred(s[n].1) {
                    assert(keys_where(s, pred)[w] == y);
                }
            }
        }
    }
}


/// Whether `y` is a child of `node` with items.
pub proof fn lemma_candidate(m: SpaceModel, node: u64, y: u64)
    requires
        all_sorted(m.items),
    ensures
        candidates(m, node).contains(y) <==> (value_at(m.items, node, y) matches Some(c) && c > 0),
{
    lemma_keys_where_contains(entries_at(m.items, node), |c: u64| c > 0, y);
}

/// The scheduler state along the rounds at `node`.
spec fn round_inv(m: SpaceModel, node: u64, t: nat) -> bool {
    let r = rounds(m, node, t);
    let cs = candidates(m, node);
    &&& all_sorted(r.items)
    &&& r.meta.contains_key(EPOCH_STEP_KEY)
    &&& r.epoch_step() == m.epoch_step() + t
    &&& forall|y: u64| #[trigger]
        candidates(r, node).contains(y) ==> cs.contains(y) && r.epochs.contains_key(y)
            && r.epochs[y] <= r.epoch_step()
    &&& forall|y: u64|
        cs.contains(y) && !#[trigger] served_before(m, node, t, y) ==> candidates(
            r,
            node,
        ).contains(y) && r.epochs[y] == m.epochs[y]
    &&& forall|i: nat|
        i < t ==> r.epochs.contains_key(#[trigger] choice(m, node, i)) && r.epochs[choice(
            m,
            node,
            i,
        )] > m.epoch_step()
}

proof fn lemma_round_inv(m: SpaceModel, node: u64, t: nat)
    requires
        all_sorted(m.items),
        m.meta.contains_key(EPOCH_STEP_KEY),
        m.epoch_step() + t < u64::MAX,
        forall|y: u64| #[trigger]
            candidates(m, node).contains(y) ==> m.epochs.contains_key(y) && m.epochs[y]
                <= m.epoch_step(),
    ensures
        round_inv(m, node, t),
    decreases t,
{
    let cs = candidates(m, node);
    if t == 0 {
        assert forall|y: u64| cs.contains(y) && !#[trigger] served_before(m, node, 0, y) implies candidates(
            m,
            node,
        ).contains(y) && m.epochs[y] == m.epochs[y] by {}
    } else {
        let p = (t - 1) as nat;
        lemma_round_inv(m, node, p);
        let r = rounds(m, node, p);
        let x = chosen_at(r, node);
        let next = (r.epoch_step() + 1) as u64;
        let r2 = rounds(m, node, t);
        assert(r2 == serve(r, node, x, next).with_meta(EPOCH_STEP_KEY, next));
        let es = entries_at(r.items, node);
        assert(sorted_by_key(es));
        lemma_put_entry_sorted(es, x, dec(value_at(r.items, node, x)));
        assert(all_sorted(r2.items)) by {
            assert forall|q: u64| #[trigger] r2.items.contains_key(q) implies sorted_by_key(
                r2.items[q],
            ) by {
                if q != node {
                    assert(r.items.contains_key(q));
                }
            }
        }
        assert forall|y: u64| #[trigger] candidates(r2, node).contains(y) implies cs.contains(y)
            && r2.epochs.contains_key(y) && r2.epochs[y] <= r2.epoch_step() by {
            lemma_candidate(r2, node, y);
            lemma_candidate(r, node, y);
            if y != x {
                assert(value_at(r2.items, node, y) == value_at(r.items, node, y));
            } else {
                assert(value_at(r2.items, node, y) == Some(dec(value_at(r.items, node, y))));
            }
        }
        assert forall|y: u64| cs.contains(y) && !#[trigger] served_before(m, node, t, y) implies candidates(
            r2,
            node,
        ).contains(y) && r2.epochs[y] == m.epochs[y] by {
            assert(!served_before(m, node, p, y)) by {
                if served_before(m, node, p, y) {
                    let i = choose|i: nat| i < p && choice(m, node, i) == y;
                    assert(i < t);
                }
            }
            assert(choice(m, node, p) != y);
            assert(x != y);
            lemma_candidate(r2, node, y);
            lemma_candidate(r, node, y);
            assert(value_at(r2.items, node, y) == value_at(r.items, node, y));
        }
        assert forall|i: nat| i < t implies r2.epochs.contains_key(#[trigger] choice(m, node, i))
            && r2.epochs[choice(m, node, i)] > m.epoch_step() by {
            if i < p {
                assert(r.epochs.contains_key(choice(m, node, i)));
            }
        }
    }
}

/// Fair rotation: at any node whose children with items all carry a served
/// epoch no later than the current one, serving the node round after round
/// takes, in each round, a child that has not been served yet, as long as
/// one is left; so every child is served exactly once before any is served
/// again.
pub proof fn law_fair_rotation(m: SpaceModel, node: u64, t: nat)
    requires
        all_sorted(m.items),
        m.meta.contains_key(EPOCH_STEP_KEY),
        m.epoch_step() + t < u64::MAX,
        forall|y: u64| #[trigger]
            candidates(m, node).contains(y) ==> m.epochs.contains_key(y) && m.epochs[y]
                <= m.epoch_step(),
        exists|y: u64| candidates(m, node).contains(y) && !#[trigger] served_before(m, node, t, y),
    ensures
        candidates(m, node).contains(choice(m, node, t)),
        !served_before(m, node, t, choice(m, node, t)),
{
    lemma_round_inv(m, node, t);
    let r = rounds(m, node, t);
    let cs = candidates(m, node);
    let rc = candidates(r, node);
    let y = choose|y: u64| cs.contains(y) && !#[trigger] served_before(m, node, t, y);
    assert(rc.contains(y));
    lemma_pick(rc, r.epochs, r.epoch_step());
    assert(forall|i: int| 0 <= i < rc.len() ==> r.epochs.contains_key(#[trigger] rc[i])) by {
        assert forall|i: int| 0 <= i < rc.len() implies r.epochs.contains_key(#[trigger] rc[i]) by {
            assert(rc.contains(rc[i]));
        }
    }
    let k = choose|k: int| 0 <= k < rc.len() && rc[k] == y;
    let x = choice(m, node, t);
    assert(pick(rc, r.epochs, r.epoch_step()) == Some(Some(x)));
    assert(r.epochs[x] <= r.epochs[rc[k]]);
    assert(r.epochs[y] <= m.epoch_step());
    if served_before(m, node, t, x) {
        let i = choose|i: nat| i < t && choice(m, node, i) == x;
        assert(r.epochs[choice(m, node, i)] > m.epoch_step());
    }
}

/// Every value counted at some node has a last-served epoch, and no such
/// epoch lies past the current one.
pub open spec fn epochs_bounded(m: SpaceModel) -> bool {
    &&& forall|p: u64, k: u64| #[trigger] value_at(m.items, p, k) is Some ==> m.epochs.contains_key(k)
    &&& forall|k: u64| #[trigger] m.epochs.contains_key(k) ==> m.epochs[k] <= m.epoch_step()
}

/// The shape every reachable scheduler state has.
pub open spec fn reachable_shape(m: SpaceModel) -> bool {
    &&& m.wf()
    &&& all_sorted(m.items)
    &&& all_sorted(m.children)
    &&& epochs_bounded(m)
}

proof fn lemma_put_sorted(m: Map<u64, Entries>, node: u64, k: u64, v: u64)
    requires
        all_sorted(m),
    ensures
        all_sorted(m.insert(node, put_entry(entries_at(m, node), k, v))),
        forall|p: u64, k2: u64|
            #[trigger] value_at(m.insert(node, put_entry(entries_at(m, node), k, v)), p, k2) is Some
                ==> (p == node && k2 == k) || value_at(m, p, k2) is Some,
{
    let es = entries_at(m, node);
    assert(sorted_by_key(es));
    lemma_put_entry_sorted(es, k, v);
    let m2 = m.insert(node, put_entry(es, k, v));
    assert forall|q: u64| #[trigger] m2.contains_key(q) implies sorted_by_key(m2[q]) by {
        if q != node {
            assert(m.contains_key(q));
        }
    }
    assert forall|p: u64, k2: u64| #[trigger] value_at(m2, p, k2) is Some implies (p == node && k2
        == k) || value_at(m, p, k2) is Some by {
        if p != node {
            assert(entries_at(m2, p) == entries_at(m, p));
        }
    }
}

proof fn lemma_add_layers_shape(
    m: SpaceModel,
    root: u64,
    fs: Seq<(Seq<char>, usize)>,
    leaf: u64,
    n: int,
)
    requires
        reachable_shape(m),
        layers_ready(m, root, fs),
        layers_distinct(root, fs),
    ensures
        reachable_shape(add_layers(m, root, fs, leaf, n)),
    decreases fs.len() - n,
{
    if 0 <= n < fs.len() {
        lemma_add_layers_shape(m, root, fs, leaf, n + 1);
        let prev = add_layers(m, root, fs, leaf, n + 1);
        let node = layer_node(root, fs, n);
        let vh = value_hash(fs[n]);
        let child = layer_child(root, fs, leaf, n);
        lemma_add_layers_meta(m, root, fs, leaf, n + 1);
        match value_at(prev.children, node, vh) {
            Some(_) => {
                if n + 1 < fs.len() {
                    lemma_add_layers_frame(m, root, fs, leaf, n + 1, n);
                }
                assert(value_at(m.children, node, vh) is Some);
                assert(value_at(m.items, node, vh) is Some);
                assert(value_at(prev.items, node, vh) is Some);
                lemma_put_sorted(prev.items, node, vh, (value_at(prev.items, node, vh)->0 + 1) as u64);
            },
            None => {
                lemma_put_sorted(prev.items, node, vh, 1);
                lemma_put_sorted(prev.children, node, vh, child);
            },
        }
    }
}

proof fn lemma_apply_path_shape(m: SpaceModel, path: Seq<(u64, u64)>, next: u64)
    requires
        all_sorted(m.items),
        forall|p: u64, k: u64| #[trigger] value_at(m.items, p, k) is Some ==> m.epochs.contains_key(k),
        forall|k: u64| #[trigger] m.epochs.contains_key(k) ==> m.epochs[k] <= next,
    ensures
        all_sorted(apply_path(m, path, next).items),
        forall|p: u64, k: u64| #[trigger] value_at(apply_path(m, path, next).items, p, k) is Some
            ==> apply_path(m, path, next).epochs.contains_key(k),
        forall|k: u64| #[trigger] apply_path(m, path, next).epochs.contains_key(k)
            ==> apply_path(m, path, next).epochs[k] <= next,
    decreases path.len(),
{
    if path.len() > 0 {
        lemma_apply_path_shape(m, path.drop_last(), next);
        let prev = apply_path(m, path.drop_last(), next);
        let (node, vh) = path.last();
        lemma_put_sorted(prev.items, node, vh, dec(value_at(prev.items, node, vh)));
    }
}

/// A successful enqueue keeps the scheduler's shape.
pub proof fn lemma_add_item_shape(m: SpaceModel, fs: Seq<(Seq<char>, usize)>, leaf: u64)
    requires
        reachable_shape(m),
        add_item(m, fs, leaf) is Some,
    ensures
        reachable_shape(add_item(m, fs, leaf)->0),
{
    let root = root_for(m, fs)->0;
    let m1 = m.with_meta(ROOT_INDEX_KEY, root);
    lemma_add_layers_shape(m1, root, fs, leaf, 0);
    lemma_add_layers_meta(m1, root, fs, leaf, 0);
    let m2 = add_layers(m1, root, fs, leaf, 0);
    let m3 = add_item(m, fs, leaf)->0;
    assert(m3.epochs == m2.epochs);
    assert(m3.epoch_step() == m.epoch_step() + 1);
}

/// Serving a path keeps the scheduler's shape.
pub proof fn lemma_served_shape(m: SpaceModel, path: Seq<(u64, u64)>)
    requires
        reachable_shape(m),
        m.epoch_step() < u64::MAX,
    ensures
        reachable_shape(served(m, path)),
{
    let next = (m.epoch_step() + 1) as u64;
    lemma_apply_path_shape(m, path, next);
    lemma_apply_path_frame(m, path, next);
}

/// The state after `t` successive selections with `use_next_leaf_feature`;
/// a selection that fails or finds nothing changes nothing.
pub open spec fn uses(m: SpaceModel, t: nat) -> SpaceModel
    decreases t,
{
    if t == 0 {
        m
    } else {
        let prev = uses(m, (t - 1) as nat);
        match use_next(prev) {
            Some(r) => r.0,
            None => prev,
        }
    }
}

/// The path the selection after `t` earlier ones serves.
pub open spec fn used_path(m: SpaceModel, t: nat) -> Seq<(u64, u64)> {
    next_leaf(uses(m, t))->0
}

/// The root child that selection serves.
pub open spec fn root_choice(m: SpaceModel, t: nat) -> u64 {
    used_path(m, t)[0].1
}

/// Whether `y` was served at the root by one of the first `t` selections.
pub open spec fn root_served_before(m: SpaceModel, t: nat, y: u64) -> bool {
    exists|i: nat| i < t && root_choice(m, i) == y
}

/// The conditions of a run of `t` selections that each serve a leaf and
/// never choose a child value of the root below the root.
pub open spec fn clean_run(m: SpaceModel, r: u64, t: nat) -> bool {
    &&& forall|i: nat| i <= t ==> #[trigger] next_leaf(uses(m, i)) is Found
    &&& forall|i: nat, j: int|
        i < t && 1 <= j < used_path(m, i).len() ==> !candidates(m, r).contains(
            #[trigger] used_path(m, i)[j].1,
        )
}

spec fn uses_inv(m: SpaceModel, r: u64, t: nat) -> bool {
    let s = uses(m, t);
    let cs = candidates(m, r);
    &&& reachable_shape(s)
    &&& s.root() == Some(r)
    &&& s.epoch_step() == m.epoch_step() + t
    &&& forall|y: u64| #[trigger] candidates(s, r).contains(y) ==> cs.contains(y)
    &&& forall|y: u64|
        cs.contains(y) && !#[trigger] root_served_before(m, t, y) ==> candidates(s, r).contains(y)
            && s.epochs.contains_key(y) && s.epochs[y] == m.epochs[y]
    &&& forall|i: nat|
        i < t ==> s.epochs.contains_key(#[trigger] root_choice(m, i)) && s.epochs[root_choice(
            m,
            i,
        )] > m.epoch_step()
}

proof fn lemma_uses_inv(m: SpaceModel, r: u64, t: nat)
    requires
        reachable_shape(m),
        m.root() == Some(r),
        m.epoch_step() + t < u64::MAX,
        clean_run(m, r, t),
    ensures
        uses_inv(m, r, t),
    decreases t,
{
    let cs = candidates(m, r);
    if t == 0 {
        assert forall|y: u64| cs.contains(y) && !#[trigger] root_served_before(m, 0, y) implies candidates(
            m,
            r,
        ).contains(y) && m.epochs.contains_key(y) && m.epochs[y] == m.epochs[y] by {
            lemma_candidate(m, r, y);
        }
    } else {
        let p = (t - 1) as nat;
        assert(clean_run(m, r, p));
        lemma_uses_inv(m, r, p);
        let s = uses(m, p);
        let path = used_path(m, p);
        let next = (s.epoch_step() + 1) as u64;
        assert(next_leaf(s) is Found);
        let s2 = uses(m, t);
        assert(s2 == served(s, path));
        lemma_served_shape(s, path);
        lemma_apply_path_frame(s, path, next);
        lemma_descend_found(s, r, 0, Seq::empty());
        assert forall|i: int| 1 <= i < path.len() implies #[trigger] path[i].0 != r by {
            assert(!visits(path.take(i), path[i].0));
            assert(path.take(i)[0].0 == r);
        }
        lemma_apply_path_effects(s, path, next, r, path.len() as int);
        assert(path.take(path.len() as int) =~= path);
        let x = path[0].1;
        assert(root_choice(m, p) == x);
        let es = entries_at(s.items, r);
        assert(sorted_by_key(es));
        lemma_put_entry_sorted(es, x, dec(value_at(s.items, r, x)));
        assert(entries_at(s2.items, r) == put_entry(es, x, dec(value_at(s.items, r, x))));
        assert forall|y: u64| #[trigger] candidates(s2, r).contains(y) implies cs.contains(y) by {
            lemma_candidate(s2, r, y);
            lemma_candidate(s, r, y);
        }
        assert forall|y: u64| cs.contains(y) && !#[trigger] root_served_before(m, t, y) implies candidates(
            s2,
            r,
        ).contains(y) && s2.epochs.contains_key(y) && s2.epochs[y] == m.epochs[y] by {
            assert(!root_served_before(m, p, y)) by {
                if root_served_before(m, p, y) {
                    let i = choose|i: nat| i < p && root_choice(m, i) == y;
                    assert(i < t);
                }
            }
            assert(root_choice(m, p) != y);
            assert forall|i: int| 0 <= i < path.len() implies path[i].1 != y by {
                if i >= 1 {
                    assert(!cs.contains(used_path(m, p)[i].1));
                }
            }
            lemma_candidate(s2, r, y);
            lemma_candidate(s, r, y);
        }
        assert forall|i: nat| i < t implies s2.epochs.contains_key(#[trigger] root_choice(m, i))
            && s2.epochs[root_choice(m, i)] > m.epoch_step() by {
            let c = root_choice(m, i);
            if i == p {
                assert(path[0].1 == c);
            } else if exists|j: int| 0 <= j < path.len() && path[j].1 == c {
                let j = choose|j: int| 0 <= j < path.len() && path[j].1 == c;
                assert(s2.epochs[path[j].1] == next);
            } else {
                assert(s.epochs.contains_key(c));
            }
        }
    }
}

/// Fair rotation over successive selections: while the selections each
/// serve a leaf and choose no child value of the root below the root (as
/// when every name of the schema differs), each one serves at the root a
/// child that has items and has not been served yet, as long as such a
/// child is left; so every child of the root is served exactly once before
/// any is served again.
pub proof fn law_fair_rotation_uses(m: SpaceModel, t: nat)
    requires
        reachable_shape(m),
        m.root() is Some,
        m.epoch_step() + t < u64::MAX,
        clean_run(m, m.root()->0, t),
        exists|y: u64|
            candidates(m, m.root()->0).contains(y) && !#[trigger] root_served_before(m, t, y),
    ensures
        candidates(m, m.root()->0).contains(root_choice(m, t)),
        !root_served_before(m, t, root_choice(m, t)),
{
    let r = m.root()->0;
    lemma_uses_inv(m, r, t);
    let s = uses(m, t);
    let cs = candidates(m, r);
    let rc = candidates(s, r);
    let y = choose|y: u64| cs.contains(y) && !#[trigger] root_served_before(m, t, y);
    assert(rc.contains(y));
    lemma_candidate(m, r, y);
    lemma_descend_found(s, r, 0, Seq::empty());
    let x = root_choice(m, t);
    assert(pick(rc, s.epochs, s.epoch_step()) == Some(Some(x)));
    lemma_pick(rc, s.epochs, s.epoch_step());
    let k = choose|k: int| 0 <= k < rc.len() && rc[k] == y;
    assert(s.epochs[x] <= s.epochs[rc[k]]);
    if root_served_before(m, t, x) {
        let i = choose|i: nat| i < t && root_choice(m, i) == x;
        assert(s.epochs[root_choice(m, i)] > m.epoch_step());
    }
}

} // verus!
