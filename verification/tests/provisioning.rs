use hyperscale::engine::baseline::SubstateEntry;
use hyperscale::execution::provisioning::{ProvisionEntry, ProvisioningTracker, Provisions};
use hyperscale::shard::ShardId;
use hyperscale::sorted::SortedSet;
use hyperscale::time::{Duration, WeightedTimestamp};
use hyperscale::types::TxHash;

const HORIZON: Duration = Duration { millis: 300_000 };

fn named(name: &str) -> TxHash {
    TxHash(*blake3::hash(name.as_bytes()).as_bytes())
}

fn shard(n: u64) -> ShardId {
    ShardId::leaf(2, n)
}

fn shards(paths: &[u64]) -> SortedSet<ShardId> {
    let mut set = SortedSet::new();
    for n in paths {
        set.insert(shard(*n));
    }
    set
}

fn make_provisions_at(
    source: ShardId,
    source_block_ts: WeightedTimestamp,
    tx_hashes: Vec<TxHash>,
) -> Provisions {
    Provisions {
        source_shard: source,
        source_block_ts,
        transactions: tx_hashes
            .into_iter()
            .map(|tx_hash| ProvisionEntry { tx_hash, entries: vec![], owned_nodes: vec![] })
            .collect(),
    }
}

fn make_provisions(source: ShardId, tx_hashes: Vec<TxHash>) -> Provisions {
    make_provisions_at(source, WeightedTimestamp::zero(), tx_hashes)
}

#[test]
fn fresh_tracker_reports_no_state() {
    let t = ProvisioningTracker::new(HORIZON);
    assert_eq!(t.verified_len(), 0);
    assert_eq!(t.required_len(), 0);
    assert_eq!(t.received_len(), 0);
    assert!(!t.is_fully_provisioned(named("missing")));
}

#[test]
fn has_received_from_tracks_absorbed_sources() {
    let mut t = ProvisioningTracker::new(HORIZON);
    let tx = named("tx");
    assert!(!t.has_received_from(tx, shard(1)));

    // An empty-entry bundle — the payer shard's engagement evidence
    // for a commutative leg — counts exactly like a state-carrying
    // one: absorption is the commitment axis.
    let batch = make_provisions(shard(1), vec![tx]);
    t.absorb_provisions(&batch);
    assert!(t.has_received_from(tx, shard(1)));
    assert!(!t.has_received_from(tx, shard(2)));
}

#[test]
fn is_fully_provisioned_requires_required_subset_of_received() {
    let mut t = ProvisioningTracker::new(HORIZON);
    let tx = named("tx");
    t.record_required(tx, shards(&[1, 2]));

    assert!(!t.is_fully_provisioned(tx));

    // Only shard 1 landed.
    let batch1 = make_provisions(shard(1), vec![tx]);
    t.absorb_provisions(&batch1);
    assert!(!t.is_fully_provisioned(tx));

    // Shard 2 lands → fully provisioned.
    let batch2 = make_provisions(shard(2), vec![tx]);
    t.absorb_provisions(&batch2);
    assert!(t.is_fully_provisioned(tx));
}

#[test]
fn an_empty_requirement_is_immediately_satisfied() {
    // The dependency-free cross-shard leg: requirements recorded as
    // the empty set dispatch without any provision landing.
    let mut t = ProvisioningTracker::new(HORIZON);
    let tx = named("delta-only");
    t.record_required(tx, shards(&[]));
    assert!(t.is_fully_provisioned(tx));
}

#[test]
fn is_fully_provisioned_false_without_required_entry() {
    let mut t = ProvisioningTracker::new(HORIZON);
    let tx = named("tx");
    // Absorbed provisions records `received[tx]` but there's no `required` —
    // the query must not report fully-provisioned just because
    // anything landed.
    let provisions = make_provisions(shard(1), vec![tx]);
    t.absorb_provisions(&provisions);
    assert!(!t.is_fully_provisioned(tx));
}

#[test]
fn absorb_provisions_returns_touched_tx_hashes_in_order() {
    let mut t = ProvisioningTracker::new(HORIZON);
    let tx_a = named("a");
    let tx_b = named("b");
    let provisions = make_provisions(shard(1), vec![tx_a, tx_b]);
    let touched = t.absorb_provisions(&provisions);
    assert_eq!(touched, vec![tx_a, tx_b]);
}

#[test]
fn absorb_provisions_populates_verified_and_received_maps() {
    let mut t = ProvisioningTracker::new(HORIZON);
    let tx = named("tx");
    let provisions = make_provisions(shard(1), vec![tx]);
    t.absorb_provisions(&provisions);

    assert_eq!(t.verified_len(), 1);
    assert_eq!(t.received_len(), 1);
    assert_eq!(
        t.provisions_for(tx).map_or(0, Vec::len),
        1,
        "one provision recorded per provisions entry"
    );
}

#[test]
fn absorb_multiple_batches_for_same_tx_accumulates() {
    let mut t = ProvisioningTracker::new(HORIZON);
    let tx = named("tx");
    t.absorb_provisions(&make_provisions(shard(1), vec![tx]));
    t.absorb_provisions(&make_provisions(shard(2), vec![tx]));

    // Two distinct source shards → two verified entry lists and two
    // received entries.
    assert_eq!(t.provisions_for(tx).map_or(0, Vec::len), 2);
    assert_eq!(
        t.received_shards(tx),
        2,
        "received set contains both source shards"
    );
}

#[test]
fn payer_clock_reads_the_payer_bundles_source_anchor() {
    let mut t = ProvisioningTracker::new(HORIZON);
    let tx = named("tx");
    t.record_required(tx, shards(&[1, 2]));
    t.record_payer_shard(tx, shard(2));

    // A read-set owner's bundle lands first: no payer clock yet.
    t.absorb_provisions(&make_provisions_at(
        shard(1),
        WeightedTimestamp::from_millis(7_000),
        vec![tx],
    ));
    assert_eq!(t.payer_clock(tx), None);

    // The payer's bundle carries the committing block's anchor.
    t.absorb_provisions(&make_provisions_at(
        shard(2),
        WeightedTimestamp::from_millis(9_500),
        vec![tx],
    ));
    assert_eq!(
        t.payer_clock(tx),
        Some(WeightedTimestamp::from_millis(9_500))
    );

    t.remove_tx(tx);
    assert_eq!(t.payer_clock(tx), None);
}

#[test]
fn remove_tx_drops_state_from_every_owned_map() {
    let mut t = ProvisioningTracker::new(HORIZON);
    let tx = named("tx");
    t.record_required(tx, shards(&[1]));
    let provisions = make_provisions(shard(1), vec![tx]);
    t.absorb_provisions(&provisions);
    assert!(t.is_fully_provisioned(tx));

    t.remove_tx(tx);

    assert!(!t.is_fully_provisioned(tx));
    assert_eq!(t.verified_len(), 0);
    assert_eq!(t.required_len(), 0);
    assert_eq!(t.received_len(), 0);
}

#[test]
fn record_required_overwrites_existing_entry() {
    let mut t = ProvisioningTracker::new(HORIZON);
    let tx = named("tx");
    t.record_required(tx, shards(&[1]));
    // Re-record with a different requirement set.
    t.record_required(tx, shards(&[1, 2]));
    assert_eq!(t.required_shards(tx), 2);
}

#[test]
fn gc_stale_provisions_evicts_past_horizon_and_keeps_fresh() {
    let mut t = ProvisioningTracker::new(HORIZON);
    let tx_old = named("old");
    let tx_fresh = named("fresh");

    // Old tx absorbed at clock = ms(1_000).
    t.advance_clock(WeightedTimestamp::from_millis(1_000));
    t.record_required(tx_old, shards(&[1]));
    t.absorb_provisions(&make_provisions(
        shard(1),
        vec![tx_old],
    ));

    // Fresh tx absorbed at clock = ms(60_000).
    t.advance_clock(WeightedTimestamp::from_millis(60_000));
    t.record_required(tx_fresh, shards(&[1]));
    t.absorb_provisions(&make_provisions(
        shard(1),
        vec![tx_fresh],
    ));

    let horizon_ms = HORIZON.millis;
    // Past tx_old's deadline (1_000 + horizon) but not tx_fresh's
    // (60_000 + horizon).
    let now = WeightedTimestamp::from_millis(1_000 + horizon_ms + 1);
    assert!(now.as_millis() < 60_000 + horizon_ms);

    let evicted = t.gc_stale_provisions(now);
    assert_eq!(evicted, 1);

    assert!(t.provisions_for(tx_old).is_none());
    assert!(!t.has_received_from(tx_old, shard(1)));
    assert!(t.required_shards(tx_old) == 0);
    assert!(t.provisions_for(tx_fresh).is_some());
    assert!(t.has_received_from(tx_fresh, shard(1)));
    assert!(t.required_shards(tx_fresh) == 1);
}

#[test]
fn gc_stale_provisions_late_insert_extends_deadline() {
    let mut t = ProvisioningTracker::new(HORIZON);
    let tx = named("tx");

    // First insert at clock = ms(1_000) → deadline = 1_000 + horizon.
    t.advance_clock(WeightedTimestamp::from_millis(1_000));
    t.absorb_provisions(&make_provisions(shard(1), vec![tx]));

    // Second insert at clock = ms(60_000) → deadline extended to
    // 60_000 + horizon.
    t.advance_clock(WeightedTimestamp::from_millis(60_000));
    t.absorb_provisions(&make_provisions(shard(2), vec![tx]));

    let horizon_ms = HORIZON.millis;
    // Past the FIRST deadline but not the SECOND. Entry must survive.
    let now = WeightedTimestamp::from_millis(1_000 + horizon_ms + 1);
    assert_eq!(t.gc_stale_provisions(now), 0);
    assert!(t.provisions_for(tx).is_some());
}

#[test]
fn owned_nodes_of_every_bundle_merge_and_the_later_owner_wins() {
    let mut t = ProvisioningTracker::new(HORIZON);
    let tx = named("tx");
    for owner in [7u8, 9u8] {
        t.absorb_provisions(&Provisions {
            source_shard: shard(u64::from(owner)),
            source_block_ts: WeightedTimestamp::zero(),
            transactions: vec![ProvisionEntry {
                tx_hash: tx,
                entries: vec![SubstateEntry { storage_key: vec![owner], value: None }],
                owned_nodes: vec![([1; 30], [owner; 30]), ([owner; 30], [2; 30])],
            }],
        });
    }
    let owners = t.ownership_for(tx);
    assert_eq!(owners.len(), 3);
    assert_eq!(owners.get(&[1; 30]), Some(&[9; 30]));
    assert_eq!(owners.get(&[7; 30]), Some(&[2; 30]));
    assert_eq!(t.provisions_for(tx).unwrap()[1][0].storage_key, vec![9]);
}

#[test]
fn a_clock_never_steps_back() {
    let mut t = ProvisioningTracker::new(HORIZON);
    let tx = named("tx");
    t.advance_clock(WeightedTimestamp::from_millis(5_000));
    t.advance_clock(WeightedTimestamp::from_millis(1_000));
    t.record_required(tx, shards(&[1]));
    assert_eq!(t.gc_stale_provisions(WeightedTimestamp::from_millis(5_000 + HORIZON.millis - 1)), 0);
    assert_eq!(t.gc_stale_provisions(WeightedTimestamp::from_millis(5_000 + HORIZON.millis)), 1);
}

#[test]
fn readiness_counts_from_the_last_removal() {
    let mut t = ProvisioningTracker::new(HORIZON);
    let tx = named("tx");
    t.absorb_provisions(&make_provisions(shard(1), vec![tx]));
    assert!(!t.is_fully_provisioned(tx), "nothing is recorded as needed");
    t.record_required(tx, shards(&[1]));
    assert!(t.is_fully_provisioned(tx));
    t.remove_tx(tx);
    t.record_required(tx, shards(&[1]));
    assert!(!t.is_fully_provisioned(tx), "what landed before the removal is gone");
    t.record_required(tx, shards(&[]));
    assert!(t.is_fully_provisioned(tx));
}

#[test]
fn a_second_sweep_at_the_same_clock_finds_nothing() {
    let mut t = ProvisioningTracker::new(HORIZON);
    t.record_required(named("a"), shards(&[1]));
    t.record_required(named("b"), shards(&[1]));
    let now = WeightedTimestamp::from_millis(HORIZON.millis);
    assert_eq!(t.gc_stale_provisions(now), 2);
    assert_eq!(t.gc_stale_provisions(now), 0);
}
