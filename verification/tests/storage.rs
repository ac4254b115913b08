use hyperscale::sorted::SortedMap;
use hyperscale::storage::database::{empty_substate_database, SubstateDatabase};
use hyperscale::storage::entry_key::{
    entry_range_bounds, scan_entries, EntryKey, EntryKeyCodec, SubstateKeyCodec,
    VersionedEntryKeyCodec,
};
use hyperscale::storage::history::{leaf_keys, value_at_version, HistoryKey, SimSnapshot};
use hyperscale::storage::keys::{
    next_prefix, partition_prefix, to_storage_key, DbPartitionKey, DbSortKey,
};
use hyperscale::storage::state_key::{
    vm_db_node_key, vm_db_node_key_owner, vm_flat_key, vm_flat_key_parts,
};
use hyperscale::storage::writes::{
    filter_writes_to_prefix, key_under_prefix, merge_state_writes, merge_writes_from_receipts,
    StateWrites,
};
use hyperscale::types::SubstateKey;

fn entry(order: u128) -> EntryKey {
    let mut owner = [7u8; 32];
    owner[0] = 2;
    EntryKey { owner, collection: [4; 16], order }
}

#[test]
fn round_trips_and_orders_by_order_key() {
    let key = entry(300);
    assert_eq!(EntryKeyCodec.decode(&EntryKeyCodec.encode(&key)), key);
    assert!(EntryKeyCodec.encode(&entry(2)) < EntryKeyCodec.encode(&entry(300)));

    let versioned = (key, 42u64);
    assert_eq!(
        VersionedEntryKeyCodec.decode(&VersionedEntryKeyCodec.encode(&versioned)),
        versioned
    );
    assert!(VersionedEntryKeyCodec.encode(&(key, 1)) < VersionedEntryKeyCodec.encode(&(key, 2)));
}

#[test]
fn range_bounds_cover_plain_and_versioned_rows() {
    let (start, end) = entry_range_bounds(entry(0).owner, entry(0).collection, 2, 300);
    for order in [2u128, 100, 300] {
        let plain = EntryKeyCodec.encode(&entry(order));
        assert!(start <= plain && plain < end, "plain row at {order}");
        let versioned = VersionedEntryKeyCodec.encode(&(entry(order), u64::MAX));
        assert!(start <= versioned && versioned < end, "versioned at {order}");
    }
    assert!(EntryKeyCodec.encode(&entry(1)) < start);
    assert!(EntryKeyCodec.encode(&entry(301)) >= end);
}

#[test]
fn a_scan_stops_at_its_bound_and_at_its_limit() {
    let rows: Vec<(Vec<u8>, Vec<u8>)> = [2u128, 100, 300, 301]
        .iter()
        .map(|order| (EntryKeyCodec.encode(&entry(*order)), vec![*order as u8]))
        .collect();
    let all = scan_entries(&rows, entry(0).owner, entry(0).collection, 300, None);
    assert_eq!(all, vec![(2, vec![2]), (100, vec![100]), (300, vec![44])]);
    let two = scan_entries(&rows, entry(0).owner, entry(0).collection, 300, Some(2));
    assert_eq!(two, vec![(2, vec![2]), (100, vec![100])]);
}

#[test]
fn a_cell_key_is_its_owner_then_its_local_key() {
    let key = SubstateKey { owner: [3; 16], local: [5; 16] };
    let mut buf = vec![9];
    SubstateKeyCodec.encode_to(&key, &mut buf);
    assert_eq!(buf, [vec![9], vec![3; 16], vec![5; 16]].concat());
    assert_eq!(SubstateKeyCodec.decode(&buf[1..]), key);
}

fn writes_for(owner: [u8; 16], value: u8) -> StateWrites {
    let mut writes = StateWrites::new();
    writes.insert(SubstateKey { owner, local: [1; 16] }, Some(vec![value]));
    writes
}

fn cells(writes: &StateWrites) -> Vec<(SubstateKey, Option<Vec<u8>>)> {
    (0..writes.len())
        .map(|i| (writes.key_at(i), writes.change_at(i).clone()))
        .collect()
}

#[test]
fn later_writes_win_per_cell() {
    let merged = merge_state_writes(&[&writes_for([1; 16], 1), &writes_for([1; 16], 2)]);
    assert_eq!(merged.len(), 1);
    assert_eq!(merged.change_at(0), &Some(vec![2]));
}

#[test]
fn prefix_filter_splits_on_the_leading_bit() {
    let low = writes_for([0x00; 16], 1);
    let high = writes_for([0xFF; 16], 2);
    let merged = merge_state_writes(&[&low, &high]);

    assert_eq!(cells(&filter_writes_to_prefix(&merged, &[false])), cells(&low));
    assert_eq!(cells(&filter_writes_to_prefix(&merged, &[true])), cells(&high));
    assert_eq!(cells(&filter_writes_to_prefix(&merged, &[])), cells(&merged));
}

#[test]
fn receipts_without_writes_merge_to_what_the_others_hold() {
    let merged = merge_writes_from_receipts(&[
        None,
        Some(writes_for([1; 16], 1)),
        None,
        Some(writes_for([2; 16], 2)),
    ]);
    assert_eq!(merged.len(), 2);
    assert_eq!(merge_writes_from_receipts(&[None]).len(), 0);
}

#[test]
fn prefix_bits_are_read_highest_first() {
    assert!(key_under_prefix(&[0b1010_0000], &[true, false, true]));
    assert!(!key_under_prefix(&[0b1010_0000], &[true, true]));
    assert!(key_under_prefix(&[0, 0b1000_0000], &[
        false, false, false, false, false, false, false, false, true
    ]));
}

fn at(key: SubstateKey, version: u64) -> HistoryKey {
    HistoryKey { key, version }
}

#[test]
fn a_past_read_sees_what_the_next_write_replaced() {
    let key = SubstateKey { owner: [1; 16], local: [2; 16] };
    let mut current = SortedMap::new();
    current.insert(key, vec![3]);
    let mut history = SortedMap::new();
    history.insert(at(key, 2), None);
    history.insert(at(key, 5), Some(vec![1]));

    let read = |version: u64| value_at_version(&current, &history, key, version, 9);
    assert_eq!(read(1), None);
    assert_eq!(read(2), Some(vec![1]));
    assert_eq!(read(4), Some(vec![1]));
    assert_eq!(read(5), Some(vec![3]));
    assert_eq!(read(9), Some(vec![3]));

    let snapshot = SimSnapshot {
        current_state: current,
        state_history: history,
        version: 4,
        current_version: 9,
    };
    assert_eq!(snapshot.substate(key), Some(vec![1]));
    assert_eq!(empty_substate_database().substate(key), None);
}

#[test]
fn proofs_take_only_keys_of_leaf_width() {
    assert_eq!(leaf_keys(&[vec![1; 32], vec![2; 32]]), Some(vec![[1; 32], [2; 32]]));
    assert_eq!(leaf_keys(&[vec![1; 32], vec![2; 31]]), None);
}

#[test]
fn storage_keys_concatenate_node_partition_and_sort_key() {
    let partition = DbPartitionKey { node_key: vec![1, 2], partition_num: 3 };
    assert_eq!(to_storage_key(&partition, &DbSortKey(vec![4, 5])), vec![1, 2, 3, 4, 5]);
    assert_eq!(partition_prefix(&partition), vec![1, 2, 3]);
}

#[test]
fn the_next_prefix_carries_over_full_bytes() {
    assert_eq!(next_prefix(&[1, 2]), Some(vec![1, 3]));
    assert_eq!(next_prefix(&[1, 0xFF]), Some(vec![2, 0]));
    assert_eq!(next_prefix(&[0xFF, 0xFF]), None);
}

#[test]
fn flat_keys_name_their_cells() {
    let key = SubstateKey { owner: [8; 16], local: [9; 16] };
    assert_eq!(vm_flat_key(&key), [vec![8; 16], vec![0], vec![9; 16]].concat());
    assert_eq!(vm_flat_key_parts(&vm_flat_key(&key)), Some(key));
    assert_eq!(vm_flat_key_parts(&vec![1; 32]), None);
    assert_eq!(vm_db_node_key_owner(&vm_db_node_key(&[8; 16])), Some([8; 16]));
    assert_eq!(vm_db_node_key_owner(&vec![0xAA; 50]), None);
}
