use std::collections::BTreeSet;
use std::sync::Arc;

use hyperscale::mempool::lock_tracker::{BlockScope, LockTracker};
use hyperscale::mempool::ready_set::{DeferralStats, ReadySet, Transaction};
use hyperscale::time::{Duration, LocalTimestamp};
use hyperscale::types::{DeclaredKey, TxHash};

const START: LocalTimestamp = LocalTimestamp { millis: 0 };

fn key(seed: u8) -> DeclaredKey {
    DeclaredKey::prefix([seed; 16])
}

fn tx_rw(seed: u8, reads: &[u8], writes: &[u8]) -> (TxHash, Arc<Transaction>) {
    let hash = TxHash([seed; 32]);
    let tx = Transaction {
        hash,
        reads: reads.iter().map(|n| key(*n)).collect(),
        writes: writes.iter().map(|n| key(*n)).collect(),
    };
    (hash, Arc::new(tx))
}

fn tx_with(seed: u8, nodes: &[u8]) -> (TxHash, Arc<Transaction>) {
    tx_rw(seed, nodes, nodes)
}

/// The indices answer for exactly what is ready and what is deferred.
fn check_invariants(rs: &ReadySet) {
    let ready = rs.iter_ready(Duration::from_millis(0), START);
    assert_eq!(ready.len(), rs.ready_count());
    let hashes: BTreeSet<TxHash> = ready.iter().map(|tx| tx.hash()).collect();
    assert_eq!(hashes.len(), ready.len());
    let claimed: BTreeSet<DeclaredKey> =
        ready.iter().flat_map(|tx| tx.admission_keys()).collect();
    assert_eq!(claimed.len(), rs.ready_txs_by_key_len());
    assert_eq!(rs.deferred_count() == 0, rs.txs_deferred_by_key_len() == 0);
}

#[test]
fn read_share_admits_read_read_overlap_and_defers_the_writer() {
    let mut rs = ReadySet::with_read_share(true);
    let locks = LockTracker::with_read_share(true);

    // Two readers of node 10 (each writing its own node) share the claim.
    let (h1, tx1) = tx_rw(1, &[10], &[1]);
    let (h2, tx2) = tx_rw(2, &[10], &[2]);
    rs.add(h1, tx1, START, START, &locks);
    rs.add(h2, tx2, START, START, &locks);
    assert_eq!(rs.ready_count(), 2);
    assert_eq!(rs.deferral_stats().deferral_events, 0);

    // A writer of node 10 defers on the read claims, classified
    // write-involved.
    let (h3, tx3) = tx_rw(3, &[], &[10]);
    rs.add(h3, tx3, START, START, &locks);
    assert_eq!(rs.ready_count(), 2);
    assert_eq!(rs.deferred_count(), 1);
    assert_eq!(rs.deferral_stats().write_involved_deferrals, 1);
    check_invariants(&rs);
}

#[test]
fn read_share_defers_readers_on_a_write_lock_and_promotes_on_release() {
    let mut rs = ReadySet::with_read_share(true);
    let mut locks = LockTracker::with_read_share(true);
    locks.lock_declared(&[], &[key(10)]);

    let (h, tx) = tx_rw(1, &[10], &[1]);
    rs.add(
        h,
        Arc::clone(&tx),
        START,
        START,
        &locks,
    );
    assert_eq!(rs.deferred_count(), 1);
    assert_eq!(rs.deferral_stats().write_involved_deferrals, 1);

    let promotable_keys = locks.unlock_declared(&[], &[key(10)]);
    assert_eq!(promotable_keys, vec![key(10)]);
    for node in promotable_keys {
        for hash in rs.promotable_for_key(node) {
            assert_eq!(hash, h);
            rs.add(
                hash,
                Arc::clone(&tx),
                START,
                LocalTimestamp::from_millis(70),
                &locks,
            );
        }
    }
    assert_eq!(rs.ready_count(), 1);
    assert_eq!(rs.deferral_stats().promotions, 1);
    assert_eq!(
        rs.deferral_stats().total_deferral_wait,
        Duration::from_millis(70)
    );
    check_invariants(&rs);
}

#[test]
fn read_share_block_scope_writers_only_leaves_readers_ready() {
    let mut rs = ReadySet::with_read_share(true);
    let locks = LockTracker::with_read_share(true);

    let (h_reader, tx_reader) = tx_rw(1, &[10], &[1]);
    let (h_writer, tx_writer) = tx_rw(2, &[], &[10]);
    rs.add(
        h_reader,
        tx_reader,
        START,
        START,
        &locks,
    );
    // The writer defers on the reader's claim already; block the node
    // for writers when another reader's lock lands.
    rs.add(
        h_writer,
        tx_writer,
        START,
        START,
        &locks,
    );
    rs.block_key(
        key(10),
        BlockScope::WritersOnly,
        false,
        START,
    );
    // The reader keeps its ready seat; only writers are held back.
    assert_eq!(rs.ready_count(), 1);
    assert_eq!(rs.deferred_count(), 1);
    check_invariants(&rs);
}

#[test]
fn fresh_set_is_empty() {
    let rs = ReadySet::with_read_share(false);
    assert_eq!(rs.ready_count(), 0);
    assert_eq!(rs.deferred_count(), 0);
    assert_eq!(rs.ready_txs_by_key_len(), 0);
    assert_eq!(rs.txs_deferred_by_key_len(), 0);
    check_invariants(&rs);
}

#[test]
fn add_with_no_locks_lands_in_ready_set() {
    let mut rs = ReadySet::with_read_share(false);
    let locks = LockTracker::with_read_share(false);
    let (hash, tx) = tx_with(1, &[10]);

    rs.add(hash, tx, START, START, &locks);
    assert_eq!(rs.ready_count(), 1);
    assert_eq!(rs.deferred_count(), 0);
    check_invariants(&rs);
}

#[test]
fn add_with_locked_node_lands_in_deferred() {
    let mut rs = ReadySet::with_read_share(false);
    let mut locks = LockTracker::with_read_share(false);
    locks.lock_keys(&[key(10)]);

    let (hash, tx) = tx_with(1, &[10]);
    rs.add(hash, tx, START, START, &locks);
    assert_eq!(rs.ready_count(), 0);
    assert_eq!(rs.deferred_count(), 1);
    check_invariants(&rs);
}

#[test]
fn second_tx_touching_same_node_as_ready_tx_is_deferred() {
    let mut rs = ReadySet::with_read_share(false);
    let locks = LockTracker::with_read_share(false);
    let (h1, tx1) = tx_with(1, &[10]);
    let (h2, tx2) = tx_with(2, &[10]);

    rs.add(h1, tx1, START, START, &locks);
    rs.add(h2, tx2, START, START, &locks);
    assert_eq!(rs.ready_count(), 1);
    assert_eq!(rs.deferred_count(), 1);
    check_invariants(&rs);
}

#[test]
fn remove_ready_tx_frees_its_nodes() {
    let mut rs = ReadySet::with_read_share(false);
    let locks = LockTracker::with_read_share(false);
    let (h, tx) = tx_with(1, &[10, 20]);

    rs.add(h, tx, START, START, &locks);
    // `all_declared_nodes` iterates reads then writes; the fixture passes
    // the same nodes for both, so duplicates in `freed` are expected.
    // Only membership matters — the caller feeds each node through the
    // idempotent promote path.
    let freed = rs.remove(&h);
    assert!(freed.contains(&key(10)));
    assert!(freed.contains(&key(20)));
    check_invariants(&rs);
}

#[test]
fn remove_deferred_tx_returns_no_freed_nodes() {
    let mut rs = ReadySet::with_read_share(false);
    let mut locks = LockTracker::with_read_share(false);
    locks.lock_keys(&[key(10)]);
    let (h, tx) = tx_with(1, &[10]);

    rs.add(h, tx, START, START, &locks);
    let freed = rs.remove(&h);
    assert!(freed.is_empty());
    check_invariants(&rs);
}

#[test]
fn block_key_moves_ready_tx_to_deferred() {
    let mut rs = ReadySet::with_read_share(false);
    let locks = LockTracker::with_read_share(false);
    let (h, tx) = tx_with(1, &[10]);
    rs.add(h, tx, START, START, &locks);

    rs.block_key(key(10), BlockScope::All, false, START);
    assert_eq!(rs.ready_count(), 0);
    assert_eq!(rs.deferred_count(), 1);
    check_invariants(&rs);
}

#[test]
fn promotable_for_key_lists_only_last_blocker_txs() {
    let mut rs = ReadySet::with_read_share(false);
    let mut locks = LockTracker::with_read_share(false);
    locks.lock_keys(&[key(10), key(20)]);

    // Single-blocker tx: only blocked by node 10.
    let (h_single, tx_single) = tx_with(1, &[10]);
    rs.add(
        h_single,
        tx_single,
        START,
        START,
        &locks,
    );

    // Dual-blocker tx: blocked by both 10 and 20. Removing node 10 from
    // its blocker set should NOT mark it promotable (20 still blocks).
    let (h_dual, tx_dual) = tx_with(2, &[10, 20]);
    rs.add(
        h_dual,
        tx_dual,
        START,
        START,
        &locks,
    );

    let promotable = rs.promotable_for_key(key(10));
    assert_eq!(promotable, vec![h_single]);
    assert_eq!(rs.deferred_count(), 1);
    check_invariants(&rs);
}

#[test]
fn iter_ready_filters_below_dwell() {
    let mut rs = ReadySet::with_read_share(false);
    let locks = LockTracker::with_read_share(false);
    let (h, tx) = tx_with(1, &[10]);
    rs.add(
        h,
        tx,
        LocalTimestamp::from_millis(100),
        LocalTimestamp::from_millis(100),
        &locks,
    );

    assert!(
        rs.iter_ready(Duration::from_millis(200), LocalTimestamp::from_millis(250))
            .is_empty()
    );

    assert_eq!(
        rs.iter_ready(Duration::from_millis(100), LocalTimestamp::from_millis(250))
            .len(),
        1
    );
}

#[test]
fn iter_ready_yields_hash_order() {
    let mut rs = ReadySet::with_read_share(false);
    let locks = LockTracker::with_read_share(false);
    // Two non-conflicting txs on different nodes.
    let (h1, tx1) = tx_with(1, &[10]);
    let (h2, tx2) = tx_with(2, &[20]);

    rs.add(h1, tx1, START, START, &locks);
    rs.add(h2, tx2, START, START, &locks);

    let order: Vec<_> = rs
        .iter_ready(Duration::from_millis(0), LocalTimestamp::from_millis(1_000))
        .iter()
        .map(|tx| tx.hash())
        .collect();
    let mut sorted = order.clone();
    sorted.sort();
    assert_eq!(order, sorted);
}

#[derive(Clone, Copy, Debug)]
enum Op {
    Add(u8),
    Remove(u8),
    BlockNode(u8),
    UnlockNode(u8),
}

fn cascade_promote(
    rs: &mut ReadySet,
    locks: &LockTracker,
    fixture: &[(TxHash, Arc<Transaction>)],
    key: DeclaredKey,
) {
    let mut promotable = rs.promotable_for_key(key);
    promotable.sort();
    for hash in promotable {
        if let Some((_, tx)) = fixture.iter().find(|(h, _)| *h == hash) {
            rs.add(hash, Arc::clone(tx), START, START, locks);
        }
    }
}

fn apply(
    op: Op,
    rs: &mut ReadySet,
    locks: &mut LockTracker,
    fixture: &[(TxHash, Arc<Transaction>)],
) {
    match op {
        Op::Add(i) => {
            let (hash, tx) = &fixture[(i as usize) % fixture.len()];
            rs.add(*hash, Arc::clone(tx), START, START, locks);
        }
        Op::Remove(i) => {
            let (hash, _) = &fixture[(i as usize) % fixture.len()];
            for freed in rs.remove(hash) {
                cascade_promote(rs, locks, fixture, freed);
            }
        }
        Op::BlockNode(n) => {
            if !locks.lock_keys(&[key(n)]).is_empty() {
                rs.block_key(key(n), BlockScope::All, false, START);
            }
        }
        Op::UnlockNode(n) => {
            if !locks.unlock_keys(&[key(n)]).is_empty() {
                cascade_promote(rs, locks, fixture, key(n));
            }
        }
    }
}

#[test]
fn invariants_hold_under_arbitrary_op_sequences() {
    let fixture: Vec<(TxHash, Arc<Transaction>)> = (0..8u8)
        .map(|seed| tx_with(seed, &[0, 1, 2, 3][..=((seed as usize) % 4)]))
        .collect();
    let mut state: u64 = 0x9e37_79b9_7f4a_7c15;
    for _ in 0..256 {
        let mut rs = ReadySet::with_read_share(false);
        let mut locks = LockTracker::with_read_share(false);
        for _ in 0..40 {
            state = state.wrapping_mul(6_364_136_223_846_793_005).wrapping_add(1);
            let n = (state >> 40) as u8;
            let op = match (state >> 62) & 3 {
                0 => Op::Add(n),
                1 => Op::Remove(n),
                2 => Op::BlockNode(n % 5),
                _ => Op::UnlockNode(n % 5),
            };
            apply(op, &mut rs, &mut locks, &fixture);
            check_invariants(&rs);
        }
    }
}

#[test]
fn a_block_under_a_write_lock_counts_its_displacements() {
    let mut rs = ReadySet::with_read_share(false);
    let locks = LockTracker::with_read_share(false);
    let (h, tx) = tx_rw(1, &[10], &[]);
    rs.add(h, tx, START, START, &locks);
    rs.block_key(key(10), BlockScope::All, true, START);
    let stats = rs.deferral_stats();
    assert_eq!(stats.deferral_events, 1);
    assert_eq!(stats.write_involved_deferrals, 1);
    assert_eq!(stats.read_read_deferrals, 0);
}

#[test]
fn absorbed_statistics_sum_and_keep_the_greater_peaks() {
    let mut rs = ReadySet::with_read_share(false);
    let mut locks = LockTracker::with_read_share(false);
    locks.lock_keys(&[key(10)]);
    let (h1, tx1) = tx_with(1, &[10]);
    let (h2, tx2) = tx_with(2, &[10]);
    rs.add(h1, tx1, START, START, &locks);
    rs.add(h2, tx2, START, START, &locks);
    let mut total = DeferralStats::default();
    total.absorb(&rs.deferral_stats());
    total.absorb(&rs.deferral_stats());
    assert_eq!(total.deferral_events, 4);
    assert_eq!(total.peak_deferred_queue_depth, 2);
}

#[test]
fn removal_drops_the_time_of_first_deferral() {
    let mut rs = ReadySet::with_read_share(false);
    let mut locks = LockTracker::with_read_share(false);
    locks.lock_keys(&[key(10)]);
    let (h, tx) = tx_with(1, &[10]);
    rs.add(h, Arc::clone(&tx), START, START, &locks);
    locks.unlock_keys(&[key(10)]);
    assert_eq!(rs.promotable_for_key(key(10)), vec![h]);
    rs.remove(&h);
    rs.add(h, tx, START, LocalTimestamp::from_millis(70), &locks);
    assert_eq!(rs.ready_count(), 1);
    let stats = rs.deferral_stats();
    assert_eq!(stats.promotions, 0);
    assert_eq!(stats.total_deferral_wait, Duration::from_millis(0));
    assert_eq!(
        stats.deferral_events,
        stats.read_read_deferrals + stats.write_involved_deferrals
    );
    check_invariants(&rs);
}
