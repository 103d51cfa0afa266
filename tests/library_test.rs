use sp_queue::codec::{
    bool_from_bytes, bool_to_bytes, create_composite_key, integer_from_bytes, integer_to_bytes,
    split_composite_key,
};
use sp_queue::error::Error;
use sp_queue::feature_space::{FeatureSpace, SpaceParts};
use sp_queue::features::{
    create_feature_names_hash, create_hash, create_names_hash, prefix_hashes, FeatureValue,
};
use sp_queue::health::{DefaultHealthService, ServingStatus};
use sp_queue::prefix_storage::PrefixStorage;
use sp_queue::sharded_heap::ShardedHeap;
use sp_queue::storage::{Storage, StorageType};
use sp_queue::{QueueSnapshot, SortingPriorityQueue};
use std::collections::hash_map::DefaultHasher;
use std::hash::{Hash, Hasher};

fn fv(name: &str, value: usize) -> FeatureValue {
    FeatureValue::new(name.to_string(), value)
}

fn rl(root: usize, leaf: usize) -> Vec<FeatureValue> {
    vec![fv("root", root), fv("leaf", leaf)]
}

fn rl_queue() -> SortingPriorityQueue {
    SortingPriorityQueue::new(vec!["root".to_string(), "leaf".to_string()]).unwrap()
}

fn drain(queue: &mut SortingPriorityQueue) -> Vec<Vec<u8>> {
    let mut out = vec![];
    while let (Some(item), _) = queue.dequeue().unwrap() {
        out.push(item);
    }
    out
}

// Codecs

#[test]
fn integer_encoding_is_big_endian() {
    let bytes = integer_to_bytes(0x0102030405060708);
    assert_eq!(bytes, vec![1, 2, 3, 4, 5, 6, 7, 8]);
    assert_eq!(integer_from_bytes(&bytes), Ok(0x0102030405060708));
}

#[test]
fn integer_round_trip_at_the_extremes() {
    for x in [0u64, 1, 255, 256, u64::MAX - 1, u64::MAX] {
        assert_eq!(integer_from_bytes(&integer_to_bytes(x)), Ok(x));
    }
}

#[test]
fn integer_decoding_reads_the_first_eight_bytes() {
    assert_eq!(integer_from_bytes(&vec![0, 0, 0, 0, 0, 0, 1, 0, 9]), Ok(256));
}

#[test]
fn integer_decoding_refuses_short_input() {
    let result = integer_from_bytes(&vec![1, 2, 3]);
    assert!(matches!(result, Err(Error::Standard { .. })));
}

#[test]
fn boolean_encoding_is_one_byte() {
    assert_eq!(bool_to_bytes(true), vec![1]);
    assert_eq!(bool_to_bytes(false), vec![0]);
    assert_eq!(bool_from_bytes(&vec![1]), Ok(true));
    assert_eq!(bool_from_bytes(&vec![0]), Ok(false));
}

#[test]
fn boolean_decoding_refuses_other_bytes() {
    assert!(matches!(bool_from_bytes(&vec![2]), Err(Error::Standard { .. })));
    assert!(matches!(bool_from_bytes(&vec![]), Err(Error::Standard { .. })));
    assert!(matches!(bool_from_bytes(&vec![1, 0]), Err(Error::Standard { .. })));
}

#[test]
fn composite_key_is_prefix_then_key() {
    let key = create_composite_key(&1, &0x0203);
    assert_eq!(key, [0, 0, 0, 0, 0, 0, 0, 1, 0, 0, 0, 0, 0, 0, 2, 3]);
}

#[test]
fn composite_key_splits_back() {
    let key = create_composite_key(&u64::MAX, &7).to_vec();
    assert_eq!(split_composite_key(&key), Ok((u64::MAX, 7)));
    assert!(matches!(split_composite_key(&vec![0; 15]), Err(Error::Standard { .. })));
    assert!(split_composite_key(&vec![0; 17]).is_err());
}

// Hashes

#[test]
fn feature_hash_is_value_then_name() {
    let mut hasher = DefaultHasher::new();
    7usize.hash(&mut hasher);
    "leaf".to_string().hash(&mut hasher);
    assert_eq!(fv("leaf", 7).get_hash(), hasher.finish());
}

#[test]
fn feature_hash_tells_values_and_names_apart() {
    assert_ne!(fv("leaf", 1).get_hash(), fv("leaf", 2).get_hash());
    assert_ne!(fv("leaf", 1).get_hash(), fv("root", 1).get_hash());
}

#[test]
fn path_hash_hashes_each_feature_in_order() {
    let mut hasher = DefaultHasher::new();
    1usize.hash(&mut hasher);
    "root".to_string().hash(&mut hasher);
    2usize.hash(&mut hasher);
    "leaf".to_string().hash(&mut hasher);
    assert_eq!(create_hash(&rl(1, 2)), hasher.finish());
    assert_ne!(create_hash(&rl(1, 2)), create_hash(&rl(2, 1)));
}

#[test]
fn names_hash_matches_hashing_the_strings() {
    let names = vec!["root".to_string(), "leaf".to_string()];
    let mut hasher = DefaultHasher::new();
    for name in names.iter() {
        name.hash(&mut hasher);
    }
    assert_eq!(create_names_hash(&names), hasher.finish());
    assert_eq!(create_feature_names_hash(&rl(5, 9)), hasher.finish());
}

#[test]
fn names_hash_is_order_sensitive() {
    let a = vec!["root".to_string(), "leaf".to_string()];
    let b = vec!["leaf".to_string(), "root".to_string()];
    assert_ne!(create_names_hash(&a), create_names_hash(&b));
}

#[test]
fn prefix_hashes_cover_every_prefix() {
    let features = rl(3, 4);
    let hashes = prefix_hashes(&features);
    assert_eq!(hashes.len(), 3);
    assert_eq!(hashes[0], create_hash(&[]));
    assert_eq!(hashes[1], create_hash(&features[..1]));
    assert_eq!(hashes[2], create_hash(&features));
}

#[test]
fn feature_value_keeps_its_parts() {
    let f = fv("root", 3);
    assert_eq!(f.get_name(), "root");
    assert_eq!(f.get_value(), 3);
}

// Errors

#[test]
fn error_new_is_standard() {
    let e = Error::new("boom".to_string());
    assert_eq!(e, Error::Standard { message: "boom".to_string() });
    assert_eq!(e.into_string(), "boom".to_string());
}

#[test]
fn empty_error_carries_its_message() {
    let e = Error::Empty { message: "nothing".to_string() };
    assert_eq!(e.as_ref(), "nothing");
    assert_eq!(e.into_string(), "nothing".to_string());
}

// Byte-value store

#[test]
fn storage_get_of_missing_key_is_empty() {
    let storage = Storage::<u64>::new_integer(None);
    assert!(storage.is_empty());
    assert!(matches!(storage.get(&3), Err(Error::Empty { .. })));
}

#[test]
fn storage_put_then_get() {
    let mut storage = Storage::<u64>::new_integer(None);
    storage.put(&3, 30).unwrap();
    storage.put(&3, 31).unwrap();
    assert_eq!(storage.get(&3), Ok(31));
    assert!(!storage.is_empty());
}

#[test]
fn storage_put_if_absent_keeps_the_first_value() {
    let mut storage = Storage::<u64>::new_integer(None);
    assert_eq!(storage.put_if_absent(&1, 10), Ok(true));
    assert_eq!(storage.put_if_absent(&1, 20), Ok(false));
    assert_eq!(storage.get(&1), Ok(10));
}

#[test]
fn storage_update_applies_the_function() {
    let mut storage = Storage::<u64>::new_integer(None);
    assert!(matches!(storage.update(&1, |v| v + 1), Err(Error::Empty { .. })));
    storage.put(&1, 41).unwrap();
    assert_eq!(storage.update(&1, |v| v + 1), Ok(42));
    assert_eq!(storage.get(&1), Ok(42));
}

#[test]
fn storage_of_booleans() {
    let mut storage = Storage::<bool>::new_bool(Some("/var/lib/queue".to_string()));
    assert_eq!(storage.storage_type(), StorageType::Durable);
    storage.put(&9, true).unwrap();
    assert_eq!(storage.get(&9), Ok(true));
    let memory = Storage::<bool>::new(None);
    assert_eq!(memory.storage_type(), StorageType::Memory);
}

// Prefix store

#[test]
fn prefix_storage_iterates_keys_in_ascending_order() {
    let mut storage = PrefixStorage::new_integer(None);
    storage.put(&7, &30, 3).unwrap();
    storage.put(&7, &10, 0).unwrap();
    storage.put(&7, &20, 2).unwrap();
    storage.put(&8, &5, 1).unwrap();
    assert_eq!(storage.get_at_prefix(&7), Ok(vec![0, 2, 3]));
    assert_eq!(storage.filter_keys_by_prefix(&7, |v| v > 0), Ok(vec![20, 30]));
    assert_eq!(storage.filter_keys_by_prefix(&7, |_| true), Ok(vec![10, 20, 30]));
    assert_eq!(storage.get_at_prefix(&9), Ok(vec![]));
}

#[test]
fn prefix_storage_keeps_prefixes_apart() {
    let mut storage = PrefixStorage::new_integer(None);
    assert!(storage.is_empty());
    storage.put(&1, &2, 12).unwrap();
    assert_eq!(storage.has_prefix(&1), Ok(true));
    assert_eq!(storage.has_prefix(&2), Ok(false));
    assert_eq!(storage.get(&1, &2), Ok(12));
    assert!(matches!(storage.get(&2, &1), Err(Error::Empty { .. })));
    assert!(!storage.is_empty());
}

#[test]
fn prefix_storage_update_replaces_the_value() {
    let mut storage = PrefixStorage::new_integer(None);
    assert!(matches!(storage.update(&1, &1, |v| v * 2), Err(Error::Empty { .. })));
    storage.put(&1, &1, 21).unwrap();
    storage.update(&1, &1, |v| v * 2).unwrap();
    assert_eq!(storage.get(&1, &1), Ok(42));
    assert_eq!(storage.get_at_prefix(&1), Ok(vec![42]));
}

// Sharded heap

#[test]
fn heap_serves_lowest_epoch_first() {
    let mut heap = ShardedHeap::new(None).unwrap();
    heap.push(5, 1, vec![5]).unwrap();
    heap.push(3, 1, vec![3]).unwrap();
    heap.push(4, 2, vec![4]).unwrap();
    assert_eq!(heap.peek(1), Ok(Some(vec![3])));
    assert_eq!(heap.pop(1), Ok(Some(vec![3])));
    assert_eq!(heap.pop(1), Ok(Some(vec![5])));
    assert_eq!(heap.pop(1), Ok(None));
    assert_eq!(heap.pop(2), Ok(Some(vec![4])));
}

#[test]
fn heap_unknown_bucket_gives_none() {
    let mut heap = ShardedHeap::new(None).unwrap();
    assert_eq!(heap.peek(77), Ok(None));
    assert_eq!(heap.pop(77), Ok(None));
}

#[test]
fn heap_push_at_a_held_epoch_replaces() {
    let mut heap = ShardedHeap::new(None).unwrap();
    heap.push(1, 9, vec![1]).unwrap();
    heap.push(1, 9, vec![2]).unwrap();
    assert_eq!(heap.pop(9), Ok(Some(vec![2])));
    assert_eq!(heap.pop(9), Ok(None));
}

// Feature space

#[test]
fn fresh_feature_space_counters() {
    let names = vec!["root".to_string(), "leaf".to_string()];
    let space = FeatureSpace::new(names.clone(), None, SpaceParts::empty()).unwrap();
    assert_eq!(space.epoch_step(), Ok(0));
    assert_eq!(space.dimension(), Ok(2));
    assert_eq!(space.total_items(), Ok(0));
    assert_eq!(space.feature_names_hash(), Ok(create_names_hash(&names)));
    assert_eq!(space.peek_next_leaf_feature(), Ok(None));
}

#[test]
fn feature_space_serves_the_leaf_it_was_given() {
    let mut space = FeatureSpace::new(vec!["leaf".to_string()], None, SpaceParts::empty()).unwrap();
    space.add_item(&vec![fv("leaf", 1)], 1000).unwrap();
    space.add_item(&vec![fv("leaf", 2)], 2000).unwrap();
    assert_eq!(space.epoch_step(), Ok(2));
    assert_eq!(space.peek_next_leaf_feature(), Ok(Some(1000)));
    assert_eq!(space.use_next_leaf_feature(), Ok(Some(1000)));
    assert_eq!(space.epoch_step(), Ok(3));
    assert_eq!(space.use_next_leaf_feature(), Ok(Some(2000)));
    assert_eq!(space.use_next_leaf_feature(), Ok(None));
    assert_eq!(space.epoch_step(), Ok(4));
}

#[test]
fn feature_space_total_items_counter() {
    let mut space = FeatureSpace::new(vec!["leaf".to_string()], None, SpaceParts::empty()).unwrap();
    assert!(space.decrement_total_items().is_err());
    assert!(space.increment_total_items().is_err());
    space.add_item(&vec![fv("leaf", 1)], 1).unwrap();
    assert_eq!(space.increment_total_items(), Ok(1));
    assert_eq!(space.decrement_total_items(), Ok(0));
}

// Queue: scenarios and properties

#[test]
fn leaf_value_balance_full_order() {
    let mut queue = SortingPriorityQueue::new(vec!["leaf".to_string()]).unwrap();
    queue.enqueue(vec![1], vec![fv("leaf", 1)]).unwrap();
    queue.enqueue(vec![2], vec![fv("leaf", 1)]).unwrap();
    queue.enqueue(vec![3], vec![fv("leaf", 2)]).unwrap();
    assert_eq!(drain(&mut queue), vec![vec![1], vec![3], vec![2]]);
}

#[test]
fn hierarchical_balance_full_order() {
    let mut queue = rl_queue();
    queue.enqueue(vec![3], rl(1, 1)).unwrap();
    queue.enqueue(vec![2], rl(1, 1)).unwrap();
    queue.enqueue(vec![1], rl(2, 1)).unwrap();
    assert_eq!(drain(&mut queue), vec![vec![3], vec![1], vec![2]]);
}

#[test]
fn cross_path_fairness_full_order() {
    let mut queue = rl_queue();
    queue.enqueue(vec![3], rl(1, 1)).unwrap();
    queue.enqueue(vec![2], rl(2, 1)).unwrap();
    queue.enqueue(vec![1], rl(2, 2)).unwrap();
    assert_eq!(drain(&mut queue), vec![vec![3], vec![1], vec![2]]);
}

#[test]
fn refused_names_change_nothing() {
    let mut queue = rl_queue();
    queue.enqueue(vec![1], rl(1, 1)).unwrap();
    let wrong = vec![fv("leaf", 1), fv("root", 1)];
    assert!(matches!(queue.enqueue(vec![2], wrong), Err(Error::Standard { .. })));
    let renamed = vec![fv("root", 1), fv("other", 1)];
    assert!(queue.enqueue(vec![2], renamed).is_err());
    assert_eq!(queue.size(), Ok(1));
    assert_eq!(queue.get_epoch(), Ok(1));
    assert_eq!(drain(&mut queue), vec![vec![1]]);
}

#[test]
fn refused_arity_changes_nothing() {
    let mut queue = rl_queue();
    assert!(matches!(queue.enqueue(vec![1], vec![fv("root", 1)]), Err(Error::Standard { .. })));
    let three = vec![fv("root", 1), fv("leaf", 1), fv("leaf", 2)];
    assert!(queue.enqueue(vec![1], three).is_err());
    assert_eq!(queue.size(), Ok(0));
    assert_eq!(queue.get_epoch(), Ok(0));
}

#[test]
fn size_counts_enqueues_less_served_dequeues() {
    let mut queue = rl_queue();
    queue.enqueue(vec![1], rl(1, 1)).unwrap();
    queue.enqueue(vec![2], rl(1, 2)).unwrap();
    queue.enqueue(vec![3], rl(2, 1)).unwrap();
    let _ = queue.enqueue(vec![4], vec![fv("root", 1)]);
    queue.dequeue().unwrap();
    assert_eq!(queue.size(), Ok(2));
    queue.dequeue().unwrap();
    queue.dequeue().unwrap();
    queue.dequeue().unwrap();
    assert_eq!(queue.size(), Ok(0));
}

#[test]
fn epoch_advances_only_on_success() {
    let mut queue = rl_queue();
    assert_eq!(queue.dequeue(), Ok((None, 0)));
    assert_eq!(queue.enqueue(vec![1], rl(1, 1)), Ok(1));
    assert!(queue.enqueue(vec![1], vec![fv("root", 1)]).is_err());
    assert_eq!(queue.get_epoch(), Ok(1));
    assert_eq!(queue.dequeue(), Ok((Some(vec![1]), 2)));
    assert_eq!(queue.dequeue(), Ok((None, 2)));
    assert_eq!(queue.get_epoch(), Ok(2));
}

#[test]
fn peek_shows_what_dequeue_takes() {
    let mut queue = rl_queue();
    assert_eq!(queue.peek(), Ok(None));
    queue.enqueue(vec![1], rl(1, 1)).unwrap();
    queue.enqueue(vec![2], rl(1, 1)).unwrap();
    queue.enqueue(vec![3], rl(2, 1)).unwrap();
    queue.dequeue().unwrap();
    for _ in 0..2 {
        let first = queue.peek().unwrap();
        let second = queue.peek().unwrap();
        assert_eq!(first, second);
        assert_eq!(queue.size(), Ok(queue.size().unwrap()));
        let (taken, _) = queue.dequeue().unwrap();
        assert_eq!(first, taken);
    }
}

#[test]
fn peek_after_a_dequeue_of_the_same_value() {
    let mut queue = SortingPriorityQueue::new(vec!["leaf".to_string()]).unwrap();
    queue.enqueue(vec![1], vec![fv("leaf", 1)]).unwrap();
    queue.enqueue(vec![2], vec![fv("leaf", 1)]).unwrap();
    queue.dequeue().unwrap();
    assert_eq!(queue.peek(), Ok(Some(vec![2])));
    assert_eq!(queue.size(), Ok(1));
}

#[test]
fn every_child_is_served_once_before_any_again() {
    let mut queue = SortingPriorityQueue::new(vec!["leaf".to_string()]).unwrap();
    for round in 0..2u8 {
        for value in 1..=3usize {
            queue.enqueue(vec![value as u8, round], vec![fv("leaf", value)]).unwrap();
        }
    }
    let served = drain(&mut queue);
    assert_eq!(served.len(), 6);
    let mut first_round: Vec<u8> = served[..3].iter().map(|item| item[0]).collect();
    first_round.sort();
    assert_eq!(first_round, vec![1, 2, 3]);
    assert!(served[..3].iter().all(|item| item[1] == 0));
    assert!(served[3..].iter().all(|item| item[1] == 1));
}

#[test]
fn items_within_a_path_leave_in_insertion_order() {
    let mut queue = rl_queue();
    for i in 0..5u8 {
        queue.enqueue(vec![i], rl(1, 1)).unwrap();
    }
    assert_eq!(drain(&mut queue), vec![vec![0], vec![1], vec![2], vec![3], vec![4]]);
}

#[test]
fn three_layer_schema_serves_every_item() {
    let names = vec!["a".to_string(), "b".to_string(), "c".to_string()];
    let mut queue = SortingPriorityQueue::new(names).unwrap();
    let paths = [(1, 1, 1), (1, 2, 1), (1, 1, 2), (2, 1, 1)];
    for (i, (a, b, c)) in paths.iter().enumerate() {
        let features = vec![fv("a", *a), fv("b", *b), fv("c", *c)];
        queue.enqueue(vec![i as u8], features).unwrap();
    }
    let mut served = drain(&mut queue);
    served.sort();
    assert_eq!(served, vec![vec![0], vec![1], vec![2], vec![3]]);
    assert_eq!(queue.size(), Ok(0));
    assert_eq!(queue.get_epoch(), Ok(8));
}

#[test]
fn empty_schema_refuses_items() {
    let mut queue = SortingPriorityQueue::new(vec![]).unwrap();
    assert!(matches!(queue.enqueue(vec![1], vec![]), Err(Error::Standard { .. })));
    assert_eq!(queue.size(), Ok(0));
    assert_eq!(queue.get_epoch(), Ok(0));
    assert_eq!(queue.dequeue(), Ok((None, 0)));
    assert_eq!(queue.peek(), Ok(None));
}

#[test]
fn restore_refuses_counts_the_tree_does_not_hold() {
    let mut snapshot = empty_snapshot();
    snapshot.metadata = vec![(0, 1), (1, 1)];
    let result = SortingPriorityQueue::new_durable(vec!["leaf".to_string()], "/q".to_string(), snapshot);
    assert!(matches!(result, Err(Error::Standard { .. })));
}

#[test]
fn restore_refuses_a_root_the_schema_does_not_name() {
    let mut snapshot = empty_snapshot();
    snapshot.metadata = vec![(2, 12345), (1, 1)];
    let result = SortingPriorityQueue::new_durable(vec!["leaf".to_string()], "/q".to_string(), snapshot);
    assert!(result.is_err());
}

#[test]
fn durable_queue_starts_like_a_memory_queue() {
    let mut queue = SortingPriorityQueue::new_durable(
        vec!["leaf".to_string()],
        "/var/lib/q".to_string(),
        empty_snapshot(),
    )
    .unwrap();
    assert_eq!(queue.get_epoch(), Ok(0));
    assert_eq!(queue.enqueue(vec![1], vec![fv("leaf", 1)]), Ok(1));
    assert_eq!(queue.dequeue(), Ok((Some(vec![1]), 2)));
}

#[test]
fn health_check_reports_serving() {
    let service = DefaultHealthService::new();
    assert_eq!(service.check(), ServingStatus::Serving);
}

// Snapshots and reopening

fn empty_snapshot() -> QueueSnapshot {
    QueueSnapshot {
        metadata: vec![],
        node_has_leaves: vec![],
        node_value_items_at_index: vec![],
        node_value_child_index: vec![],
        value_to_epoch: vec![],
        items: vec![],
    }
}

#[test]
fn snapshot_lists_every_part() {
    let mut queue = rl_queue();
    queue.enqueue(vec![7], rl(1, 2)).unwrap();
    let snapshot = queue.snapshot();
    assert_eq!(snapshot.metadata.len(), 5);
    assert_eq!(snapshot.node_has_leaves.len(), 2);
    assert_eq!(snapshot.node_value_items_at_index.len(), 2);
    assert_eq!(snapshot.node_value_child_index.len(), 2);
    assert_eq!(snapshot.value_to_epoch.len(), 2);
    assert_eq!(snapshot.items, vec![(create_hash(&rl(1, 2)), vec![(1, vec![7])])]);
}

#[test]
fn restore_from_nothing_is_a_fresh_queue() {
    let names = vec!["leaf".to_string()];
    let queue = SortingPriorityQueue::new_durable(names, "/var/lib/q".to_string(), empty_snapshot()).unwrap();
    assert_eq!(queue.get_epoch(), Ok(0));
    assert_eq!(queue.size(), Ok(0));
}

#[test]
fn restore_keeps_stored_metadata() {
    let mut snapshot = empty_snapshot();
    snapshot.metadata = vec![(1, 9), (0, 0)];
    let queue = SortingPriorityQueue::new_durable(vec!["leaf".to_string()], "/q".to_string(), snapshot).unwrap();
    assert_eq!(queue.get_epoch(), Ok(9));
}

#[test]
fn restore_refuses_counts_past_the_epoch() {
    let mut snapshot = empty_snapshot();
    snapshot.metadata = vec![(0, 3), (1, 2)];
    let result = SortingPriorityQueue::new_durable(vec!["leaf".to_string()], "/q".to_string(), snapshot);
    assert!(matches!(result, Err(Error::Standard { .. })));
}

#[test]
fn restore_refuses_unordered_blocks() {
    let mut snapshot = empty_snapshot();
    snapshot.node_value_items_at_index = vec![(1, vec![(5, 1), (4, 1)])];
    assert!(SortingPriorityQueue::new_durable(vec!["leaf".to_string()], "/q".to_string(), snapshot).is_err());
    let mut snapshot = empty_snapshot();
    snapshot.node_value_child_index = vec![(1, vec![])];
    assert!(SortingPriorityQueue::new_durable(vec!["leaf".to_string()], "/q".to_string(), snapshot).is_err());
    let mut snapshot = empty_snapshot();
    snapshot.items = vec![(1, vec![(2, vec![1]), (2, vec![2])])];
    assert!(SortingPriorityQueue::new_durable(vec!["leaf".to_string()], "/q".to_string(), snapshot).is_err());
}

#[test]
fn store_snapshots_rebuild_the_stores() {
    let mut storage = Storage::<u64>::new_integer(None);
    storage.put(&2, 20).unwrap();
    storage.put(&1, 10).unwrap();
    let rebuilt = Storage::<u64>::from_entries(None, &storage.entries());
    assert_eq!(rebuilt.get(&1), Ok(10));
    assert_eq!(rebuilt.get(&2), Ok(20));
    let mut prefixes = PrefixStorage::new_integer(None);
    prefixes.put(&1, &2, 3).unwrap();
    prefixes.put(&1, &1, 4).unwrap();
    let blocks = prefixes.blocks();
    assert_eq!(blocks, vec![(1, vec![(1, 4), (2, 3)])]);
    let rebuilt = PrefixStorage::from_blocks(None, blocks).unwrap();
    assert_eq!(rebuilt.get_at_prefix(&1), Ok(vec![4, 3]));
    let mut heap = ShardedHeap::new(None).unwrap();
    heap.push(2, 5, vec![2]).unwrap();
    let rebuilt = ShardedHeap::from_blocks(None, heap.blocks()).unwrap();
    assert_eq!(rebuilt.peek(5), Ok(Some(vec![2])));
}

#[test]
fn feature_space_total_items_counts_the_tree() {
    let mut space = FeatureSpace::new(
        vec!["root".to_string(), "leaf".to_string()],
        None,
        SpaceParts::empty(),
    )
    .unwrap();
    assert_eq!(space.total_items(), Ok(0));
    assert_eq!(space.peek_next_leaf_feature(), Ok(None));
    space.add_item(&rl(1, 1), 11).unwrap();
    space.add_item(&rl(2, 1), 21).unwrap();
    assert_eq!(space.total_items(), Ok(2));
    assert!(space.peek_next_leaf_feature().unwrap().is_some());
    assert!(space.use_next_leaf_feature().unwrap().is_some());
    assert_eq!(space.total_items(), Ok(1));
    assert!(space.use_next_leaf_feature().unwrap().is_some());
    assert_eq!(space.total_items(), Ok(0));
    assert_eq!(space.use_next_leaf_feature(), Ok(None));
    assert_eq!(space.peek_next_leaf_feature(), Ok(None));
}

#[test]
fn feature_space_refuses_a_path_of_the_wrong_length() {
    let mut space = FeatureSpace::new(
        vec!["root".to_string(), "leaf".to_string()],
        None,
        SpaceParts::empty(),
    )
    .unwrap();
    let result = space.add_item(&vec![fv("root", 1)], 1);
    assert!(matches!(result, Err(Error::Standard { .. })));
    assert_eq!(space.epoch_step(), Ok(0));
    assert_eq!(space.total_items(), Ok(0));
}

#[test]
fn dequeues_rotate_over_root_values() {
    let mut queue = rl_queue();
    for round in 0..2u8 {
        for root in 1..=3usize {
            queue.enqueue(vec![root as u8, round], rl(root, 7)).unwrap();
        }
    }
    let served = drain(&mut queue);
    let mut first: Vec<u8> = served[..3].iter().map(|item| item[0]).collect();
    first.sort();
    assert_eq!(first, vec![1, 2, 3]);
    let mut second: Vec<u8> = served[3..].iter().map(|item| item[0]).collect();
    second.sort();
    assert_eq!(second, vec![1, 2, 3]);
}
