use hyperscale::hash::Hash32;
use hyperscale::shard::{exact_log2, leading_bits, prefix_bit, ShardId, ShardTrie};
use hyperscale::storage::canonical::{
    compute_writes_root, filter_genesis_updates_for_shard, filter_updates_for_shard,
    has_partition_reset, sort_database_updates,
};
use hyperscale::storage::state_key::{vm_db_node_key, vm_db_node_key_owner, VM_PARTITION};
use hyperscale::storage::updates::{
    DatabaseUpdate, DatabaseUpdates, NodeDatabaseUpdates, PartitionDatabaseUpdates,
};
use radix_common::prelude::{basic_encode, DatabaseUpdate as OuterUpdate};
use radix_substate_store_interface::interface::{
    DatabaseUpdates as OuterUpdates, DbSortKey, NodeDatabaseUpdates as OuterNode,
    PartitionDatabaseUpdates as OuterPartition,
};

/// A `DatabaseUpdates` holding one cell under `owner`.
fn set_update(owner: [u8; 16], local: [u8; 16], value: Vec<u8>) -> DatabaseUpdates {
    DatabaseUpdates {
        node_updates: vec![(
            vm_db_node_key(&owner),
            NodeDatabaseUpdates {
                partition_updates: vec![(
                    VM_PARTITION,
                    PartitionDatabaseUpdates::Delta {
                        substate_updates: vec![(local.to_vec(), DatabaseUpdate::Put(value))],
                    },
                )],
            },
        )],
    }
}

fn merge(mut a: DatabaseUpdates, b: DatabaseUpdates) -> DatabaseUpdates {
    a.node_updates.extend(b.node_updates);
    a
}

#[test]
fn compute_writes_root_empty_is_zero() {
    assert_eq!(compute_writes_root(&DatabaseUpdates::new()), Some(Hash32([0; 32])));
}

#[test]
fn compute_writes_root_is_insertion_order_independent() {
    let (a, b) = ([1u8; 16], [2u8; 16]);
    let forward = merge(set_update(a, [0; 16], vec![1]), set_update(b, [0; 16], vec![1]));
    let reverse = merge(set_update(b, [0; 16], vec![1]), set_update(a, [0; 16], vec![1]));
    assert_eq!(compute_writes_root(&forward), compute_writes_root(&reverse));
}

#[test]
fn compute_writes_root_distinguishes_inputs() {
    let a = set_update([1u8; 16], [0; 16], vec![1]);
    let b = set_update([2u8; 16], [0; 16], vec![1]);
    assert_ne!(compute_writes_root(&a), compute_writes_root(&b));
}

#[test]
fn filter_for_shard_keeps_only_this_shard_prefixes() {
    let trie = ShardTrie::uniform_from_count(2).unwrap();
    let left = [0x00; 16];
    let right = [0xFF; 16];
    assert_ne!(trie.shard_for_prefix(&left), trie.shard_for_prefix(&right));
    let updates = merge(
        set_update(left, [1; 16], vec![1]),
        set_update(right, [1; 16], vec![2]),
    );

    let filtered = filter_updates_for_shard(&updates, trie.shard_for_prefix(&left), &trie);
    assert_eq!(filtered.node_updates.len(), 1);
    assert_eq!(vm_db_node_key_owner(&filtered.node_updates[0].0), Some(left));
    let genesis = filter_genesis_updates_for_shard(&updates, trie.shard_for_prefix(&left), &trie);
    assert_eq!(genesis, filtered);
}

#[test]
fn filter_for_shard_drops_keys_outside_the_namespace() {
    let mut updates = set_update([1u8; 16], [0; 16], vec![1]);
    let value = updates.node_updates.remove(0).1;
    updates.node_updates.push((vec![0xAA; 50], value));

    let filtered = filter_updates_for_shard(
        &updates,
        ShardId::root(),
        &ShardTrie::uniform_from_count(1).unwrap(),
    );
    assert!(filtered.node_updates.is_empty());
}

#[test]
fn a_root_is_the_digest_of_the_sorted_updates() {
    let updates = merge(
        set_update([2; 16], [0; 16], vec![1]),
        set_update([1; 16], [0; 16], vec![1]),
    );
    let digest = compute_writes_root(&updates).unwrap();
    assert_ne!(digest, Hash32([0; 32]));
    let mut sorted = updates;
    sort_database_updates(&mut sorted);
    assert_eq!(sorted.node_updates[0].0, vm_db_node_key(&[1; 16]));
    assert_eq!(compute_writes_root(&sorted), Some(digest));
}

#[test]
fn resets_are_told_apart_from_deltas() {
    let mut updates = set_update([1; 16], [0; 16], vec![1]);
    assert!(!has_partition_reset(&updates));
    updates.node_updates[0].1.partition_updates.push((
        7,
        PartitionDatabaseUpdates::Reset { new_substate_values: vec![] },
    ));
    assert!(has_partition_reset(&updates));
}

#[test]
fn a_uniform_trie_routes_by_leading_bits() {
    let trie = ShardTrie::uniform(2);
    assert_eq!(trie.leaves.len(), 4);
    assert_eq!(trie.shard_for_prefix(&[0b1100_0000; 16]), ShardId::leaf(2, 3));
    assert_eq!(trie.shard_for_prefix(&[0b0100_0000; 16]), ShardId::leaf(2, 1));
    assert_eq!(ShardTrie::single().shard_for_prefix(&[9; 16]), ShardId::root());
    assert!(ShardTrie::uniform_from_count(3).is_none());
    assert!(ShardTrie::uniform_from_count(0).is_none());
    assert_eq!(exact_log2(8), Some(3));
    assert_eq!(exact_log2(6), None);
    assert!(prefix_bit(&[0b0100_0000], 1));
    assert_eq!(leading_bits(&[0b1010_0000; 16], 3), 5);
}

#[test]
fn a_root_is_the_hash_of_what_the_store_interface_encodes() {
    let outer = |owner: u8| {
        let cells = [(DbSortKey(vec![0; 16]), OuterUpdate::Set(vec![1]))];
        let parts = [(
            VM_PARTITION,
            OuterPartition::Delta { substate_updates: cells.into_iter().collect() },
        )];
        (
            vm_db_node_key(&[owner; 16]),
            OuterNode { partition_updates: parts.into_iter().collect() },
        )
    };
    let expected =
        OuterUpdates { node_updates: [outer(1), outer(2)].into_iter().collect() };
    let updates = merge(
        set_update([2; 16], [0; 16], vec![1]),
        set_update([1; 16], [0; 16], vec![1]),
    );
    assert_eq!(
        compute_writes_root(&updates).unwrap().0,
        *blake3::hash(&basic_encode(&expected).unwrap()).as_bytes()
    );
}
