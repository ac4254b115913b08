use std::collections::BTreeMap;

use hyperscale::bridge::account::{vm_account_address, VM_XRD};
use hyperscale::bridge::artifact::attach_metadata;
use hyperscale::bridge::checks::MetadataLimits;
use hyperscale::bridge::envelope::{encode_tree, EnvelopeTree, IntentDecl, ManifestGraph};
use hyperscale::bridge::metadata::PackageMetadata;
use hyperscale::bridge::roles::CellRole;
use hyperscale::bridge::signature::MethodSignature;
use hyperscale::bridge::staking::{
    BeaconWitnessEvent, InstanceMeta, InstanceRegistry, PackageHash, PoolRegistry, StakePoolId,
    VmEvent, STAKED,
};
use hyperscale::bridge::statics::{Effect, EffectTarget, Mode, SnapshotPin};
use hyperscale::crypto::ed25519::ed25519_keypair_from_seed;
use hyperscale::engine::baseline::{
    BatchInput, Deployment, InputBody, PreparedTx, SubstateEntry, VmInput,
};
use hyperscale::engine::batch::{settle_batch, BatchFault, ReceiptSubject, Scene};
use hyperscale::engine::fold::{
    encode_amount, fold_delta, Delta, FoldFault, Locality, Movement, Outcome, Receipt, VmBase,
};
use hyperscale::engine::genesis::vm_genesis_updates;
use hyperscale::engine::packages::{absorb_cell, absorb_committed_cells};
use hyperscale::engine::plan::{
    plan_cross_shard_batch, plan_wave_batch, prepare, BatchTx, CrossShardTxInput, SubintentRecord,
    TreeFate, TxAnchor,
};
use hyperscale::engine::preview::{PreviewOutcome, PreviewReport, ResourceChange};
use hyperscale::engine::receipt::{AbortReason, ConsensusReceipt, ExecutedTx};
use hyperscale::engine::run::{KernelOutcome, VmExecutor};
use hyperscale::hash::{protocol_hash, Hash32};
use hyperscale::shard::{ShardId, ShardTrie};
use hyperscale::sorted::SortedMap;
use hyperscale::storage::history::SimSnapshot;
use hyperscale::storage::state_key::{vm_db_node_key, vm_flat_key, VM_PARTITION};
use hyperscale::storage::updates::{DatabaseUpdate, DatabaseUpdates, PartitionDatabaseUpdates};
use hyperscale::storage::writes::StateWrites;
use hyperscale::types::{SubstateKey, TxHash};

const ALICE: [u8; 16] = [0x11; 16];
const BOB: [u8; 16] = [0x22; 16];
/// An account whose prefix routes to the other half of a two-shard trie.
const FAR: [u8; 16] = [0x88; 16];

const LIMITS: MetadataLimits = MetadataLimits {
    max_bytes: 65_536,
    max_event_types: 64,
    max_clause_depth: 4,
    max_expr_depth: 8,
    max_value_depth: 8,
    max_effects: 128,
};

/// What running a transfer consumes.
const FUEL: u64 = 5_000;
/// What declaring one is worth.
const DECLARED: u64 = 40;

fn cell_key(role: CellRole) -> SubstateKey {
    let (owner, tag) = match role {
        CellRole::Vault { owner, resource } => (owner, [vec![0], resource.to_vec()].concat()),
        CellRole::Entropy { owner } => (owner, vec![1]),
        CellRole::Validator { owner, id } => (owner, [vec![2], id.to_le_bytes().to_vec()].concat()),
        CellRole::Package { owner, package } => (owner, [vec![3], package.to_vec()].concat()),
    };
    let mut local = [0u8; 16];
    local.copy_from_slice(&blake3::hash(&tag).as_bytes()[..16]);
    SubstateKey { owner, local }
}

fn vault_key(owner: [u8; 16]) -> SubstateKey {
    cell_key(CellRole::Vault { owner, resource: VM_XRD })
}

fn receipt_hash(subject: &ReceiptSubject) -> Hash32 {
    let mut bytes = subject.writes_root.0.to_vec();
    for event in &subject.events {
        bytes.extend_from_slice(&event.emitter);
        bytes.extend_from_slice(&event.event_type.to_le_bytes());
        bytes.extend_from_slice(&event.payload);
    }
    Hash32(*blake3::hash(&bytes).as_bytes())
}

fn amount_in(cell: &[u8]) -> u128 {
    u128::from_le_bytes(cell.try_into().unwrap())
}

/// A store that holds the cells that updates set.
fn apply(store: &mut BTreeMap<SubstateKey, Vec<u8>>, updates: &DatabaseUpdates) {
    for (node, node_updates) in &updates.node_updates {
        for (_, partition) in &node_updates.partition_updates {
            let PartitionDatabaseUpdates::Delta { substate_updates } = partition else {
                panic!("updates are deltas only");
            };
            for (sort_key, update) in substate_updates {
                let key = SubstateKey {
                    owner: node.as_slice().try_into().unwrap(),
                    local: sort_key.as_slice().try_into().unwrap(),
                };
                match update {
                    DatabaseUpdate::Put(value) => {
                        store.insert(key, value.clone());
                    }
                    DatabaseUpdate::Delete => {
                        store.remove(&key);
                    }
                }
            }
        }
    }
}

fn genesis(accounts: &[([u8; 16], u128)]) -> BTreeMap<SubstateKey, Vec<u8>> {
    let mut store = BTreeMap::new();
    apply(&mut store, &vm_genesis_updates(None, accounts, &[], &cell_key));
    store
}

fn snapshot(store: &BTreeMap<SubstateKey, Vec<u8>>) -> SimSnapshot {
    let mut current_state = SortedMap::new();
    for (key, value) in store {
        current_state.insert(*key, value.clone());
    }
    SimSnapshot { current_state, state_history: SortedMap::new(), version: 1, current_version: 1 }
}

#[derive(Clone, Copy)]
struct Transfer {
    tx: u8,
    payer: [u8; 16],
    from: [u8; 16],
    to: [u8; 16],
    amount: u128,
    /// The least the recipient accepts.
    min: u128,
    max_fee: u128,
}

/// A transfer that an account outside the snapshot pays for.
fn sponsored(tx: u8, from: [u8; 16], to: [u8; 16], amount: u128) -> Transfer {
    Transfer { tx, payer: fee_payer(tx), from, to, amount, min: 0, max_fee: 1_000_000 }
}

fn paid_by_sender(tx: u8, from: [u8; 16], to: [u8; 16], amount: u128, max_fee: u128) -> Transfer {
    Transfer { tx, payer: from, from, to, amount, min: 0, max_fee }
}

/// The account that a signing key owns.
fn fee_payer(seed: u8) -> [u8; 16] {
    vm_account_address(&ed25519_keypair_from_seed(&[seed; 32]).public_key())
}

/// The wire bytes of a tree that calls nothing.
fn idle_tree() -> Vec<u8> {
    let root = IntentDecl { graph: ManifestGraph { nodes: vec![] }, params: vec![] };
    encode_tree(&EnvelopeTree { root, root_bindings: vec![], subintents: vec![] }).unwrap()
}

fn idle_input(tx: TxHash) -> BatchInput {
    BatchInput {
        tx,
        vm: Some(VmInput {
            body: InputBody::Call(idle_tree()),
            snapshot_pins: vec![],
            fee_vault: None,
            max_fee: 0,
            abort_floor: 0,
        }),
    }
}

fn routed(effects: Vec<Effect>) -> TreeFate {
    TreeFate::Routed { manifest: vec![], per_shard: vec![effects], subintents: vec![] }
}

impl Transfer {
    fn hash(&self) -> TxHash {
        let mut bytes = vec![self.tx];
        bytes.extend_from_slice(&self.from);
        bytes.extend_from_slice(&self.to);
        bytes.extend_from_slice(&self.amount.to_le_bytes());
        TxHash(*blake3::hash(&bytes).as_bytes())
    }

    fn input(&self) -> BatchInput {
        BatchInput {
            tx: self.hash(),
            vm: Some(VmInput {
                body: InputBody::Call(idle_tree()),
                snapshot_pins: vec![],
                fee_vault: Some(vault_key(self.payer)),
                max_fee: self.max_fee,
                abort_floor: self.max_fee / 10,
            }),
        }
    }

    fn fate(&self) -> TreeFate {
        routed(vec![
            Effect {
                target: EffectTarget::Point(vault_key(self.from)),
                mode: Mode::Reserve { amount: self.amount },
            },
            Effect { target: EffectTarget::Point(vault_key(self.to)), mode: Mode::Delta },
        ])
    }

    /// Runs against the balances that the batch has come to, and moves them.
    fn run(&self, balances: &mut BTreeMap<SubstateKey, u128>) -> Receipt {
        let (from, to) = (vault_key(self.from), vault_key(self.to));
        let held = *balances.get(&from).unwrap_or(&0);
        if held < self.amount || self.amount < self.min {
            return Receipt {
                outcome: Outcome::Infeasible { key: from, amount: self.amount },
                fuel: 0,
                declared_work: DECLARED,
                delta: Delta { cells: vec![], movements: vec![], settles: vec![], entries: 0 },
                events: vec![],
            };
        }
        balances.insert(from, held - self.amount);
        *balances.entry(to).or_insert(0) += self.amount;
        Receipt {
            outcome: Outcome::Completed,
            fuel: FUEL,
            declared_work: DECLARED,
            delta: Delta {
                cells: vec![],
                movements: vec![(to, Movement { credit: self.amount, debit: 0 })],
                settles: vec![(from, self.amount)],
                entries: 0,
            },
            events: vec![
                VmEvent { emitter: self.from, event_type: 0, payload: vec![] },
                VmEvent { emitter: self.to, event_type: 1, payload: vec![] },
            ],
        }
    }
}

fn store_of(balances: &BTreeMap<SubstateKey, u128>) -> SimSnapshot {
    let cells = balances
        .iter()
        .filter(|(_, amount)| **amount > 0)
        .map(|(key, amount)| (*key, amount.to_le_bytes().to_vec()))
        .collect();
    snapshot(&cells)
}

fn scene<'a>(
    locality: Locality<'a>,
    pools: &'a PoolRegistry,
    instances: &'a InstanceRegistry,
) -> Scene<'a> {
    Scene { locality, pools, instances, staking_package: PackageHash([0; 32]) }
}

/// The balances that transfers start from.
fn opening(base: &VmBase, transfers: &[Transfer]) -> BTreeMap<SubstateKey, u128> {
    let mut balances: BTreeMap<SubstateKey, u128> = BTreeMap::new();
    for transfer in transfers {
        for key in [vault_key(transfer.from), vault_key(transfer.to)] {
            if let Some(cell) = base.cell(&key) {
                balances.insert(key, amount_in(&cell));
            }
        }
    }
    balances
}

fn planned<'a>(transfers: &'a [Transfer], tx: &BatchTx) -> &'a Transfer {
    transfers.iter().find(|t| t.hash() == tx.tx).unwrap()
}

/// Runs a batch one transaction after the other.
fn serial(base: &VmBase, batch: &[BatchTx], transfers: &[Transfer]) -> KernelOutcome<SimSnapshot> {
    let mut balances = opening(base, transfers);
    let mut receipts = SortedMap::new();
    for tx in batch {
        receipts.insert(tx.tx, planned(transfers, tx).run(&mut balances));
    }
    KernelOutcome { receipts, store: store_of(&balances) }
}

/// Runs a batch on two workers that share nothing: each takes every other
/// transaction, the last first, and works out alone what came before it.
fn parallel(
    base: &VmBase,
    batch: &[BatchTx],
    transfers: &[Transfer],
) -> KernelOutcome<SimSnapshot> {
    let mut receipts = SortedMap::new();
    for worker in [1, 0] {
        for index in (0..batch.len()).rev().filter(|index| index % 2 == worker) {
            let mut balances = opening(base, transfers);
            for earlier in &batch[..index] {
                planned(transfers, earlier).run(&mut balances);
            }
            let tx = &batch[index];
            receipts.insert(tx.tx, planned(transfers, tx).run(&mut balances));
        }
    }
    let store = serial(base, batch, transfers).store;
    KernelOutcome { receipts, store }
}

fn execute_scheduled(
    store: &BTreeMap<SubstateKey, Vec<u8>>,
    local_shard: ShardId,
    trie: &ShardTrie,
    transfers: &[Transfer],
    schedule: fn(&VmBase, &[BatchTx], &[Transfer]) -> KernelOutcome<SimSnapshot>,
) -> Vec<ExecutedTx> {
    let transactions: Vec<BatchInput> = transfers.iter().map(Transfer::input).collect();
    let fates = transfers.iter().map(Transfer::fate).collect();
    let executor = VmExecutor {
        kernel: |base: &VmBase, batch: &Vec<BatchTx>, _: &SortedMap<TxHash, PreparedTx>| {
            schedule(base, batch, transfers)
        },
        receipt_hash,
        limits: LIMITS,
    };
    let (pools, instances) = (PoolRegistry::new(), InstanceRegistry::new());
    let scene =
        scene(Locality { cross_shard: false, local_shard, trie }, &pools, &instances);
    executor
        .execute_wave_batch(
            &transactions,
            fates,
            1_000,
            Hash32([0; 32]),
            &scene,
            &snapshot(store),
        )
        .expect("the batch settles")
}

fn execute_batch_on(
    store: &BTreeMap<SubstateKey, Vec<u8>>,
    transfers: &[Transfer],
) -> Vec<ExecutedTx> {
    execute_scheduled(store, ShardId::root(), &ShardTrie::single(), transfers, serial)
}

fn execute_on(accounts: &[([u8; 16], u128)], transfers: &[Transfer]) -> Vec<ExecutedTx> {
    execute_batch_on(&genesis(accounts), transfers)
}

fn execute(transfers: &[Transfer]) -> Vec<ExecutedTx> {
    execute_on(&[(ALICE, 1_000), (BOB, 50)], transfers)
}

fn updates_of(receipt: &ConsensusReceipt) -> &DatabaseUpdates {
    let ConsensusReceipt::Succeeded { database_updates, .. } = receipt else {
        panic!("the transaction must succeed: {receipt:?}");
    };
    database_updates
}

fn update_at(updates: &DatabaseUpdates, key: SubstateKey) -> Option<&DatabaseUpdate> {
    let (_, node) =
        updates.node_updates.iter().find(|(node, _)| *node == vm_db_node_key(&key.owner))?;
    let (_, partition) = node.partition_updates.iter().find(|(n, _)| *n == VM_PARTITION)?;
    let PartitionDatabaseUpdates::Delta { substate_updates } = partition else {
        return None;
    };
    substate_updates.iter().find(|(k, _)| *k == key.local.to_vec()).map(|(_, u)| u)
}

/// The raw update a batch made to an account's native vault, if any.
fn vault_update(updates: &DatabaseUpdates, owner: [u8; 16]) -> Option<&DatabaseUpdate> {
    update_at(updates, vault_key(owner))
}

fn vault_cell(updates: &DatabaseUpdates, owner: [u8; 16]) -> Option<Vec<u8>> {
    match vault_update(updates, owner)? {
        DatabaseUpdate::Put(value) => Some(value.clone()),
        DatabaseUpdate::Delete => None,
    }
}

fn hash_of(executed: &ExecutedTx) -> Hash32 {
    let ConsensusReceipt::Succeeded { receipt_hash, .. } = &executed.consensus else {
        panic!("the transaction must succeed");
    };
    *receipt_hash
}

/// Runs a lone stamp of ALICE's leaf in a wave with this reveal. The kernel
/// draws from what the plan hands it, and from nothing else.
fn stamp_under(reveal: Hash32) -> Vec<u8> {
    let key = cell_key(CellRole::Entropy { owner: ALICE });
    let executor = VmExecutor {
        kernel: |_: &VmBase, batch: &Vec<BatchTx>, _: &SortedMap<TxHash, PreparedTx>| {
            let mut receipts = SortedMap::new();
            let mut store = BTreeMap::new();
            for tx in batch {
                let draw = protocol_hash(&tx.randomness.0).to_vec();
                store.insert(key, draw.clone());
                receipts.insert(
                    tx.tx,
                    Receipt {
                        outcome: Outcome::Completed,
                        fuel: FUEL,
                        declared_work: DECLARED,
                        delta: Delta {
                            cells: vec![(key, Some(draw))],
                            movements: vec![],
                            settles: vec![],
                            entries: 0,
                        },
                        events: vec![],
                    },
                );
            }
            KernelOutcome { receipts, store: snapshot(&store) }
        },
        receipt_hash,
        limits: LIMITS,
    };
    let trie = ShardTrie::single();
    let (pools, instances) = (PoolRegistry::new(), InstanceRegistry::new());
    let locality = Locality { cross_shard: false, local_shard: ShardId::root(), trie: &trie };
    let stamp = vec![Effect { target: EffectTarget::Point(key), mode: Mode::Write }];
    let executed = executor
        .execute_wave_batch(
            &vec![idle_input(TxHash([9; 32]))],
            vec![routed(stamp)],
            1_000,
            reveal,
            &scene(locality, &pools, &instances),
            &snapshot(&genesis(&[(ALICE, 1_000)])),
        )
        .expect("the batch settles");
    match update_at(updates_of(&executed[0].consensus), key) {
        Some(DatabaseUpdate::Put(value)) => value.clone(),
        other => panic!("the stamp writes the entropy leaf: {other:?}"),
    }
}

/// The stamp writes a draw fixed by the anchor: the same anchor gives the same
/// 32 bytes, a different anchor gives different ones.
#[test]
fn transfer_a_stamp_writes_the_draw_its_anchor_fixes() {
    let payer_block = Hash32(protocol_hash(b"payer block"));
    let stamped = stamp_under(payer_block);
    assert_eq!(stamped.len(), 32);
    assert_eq!(stamp_under(payer_block), stamped, "one anchor, one draw");
    assert_ne!(
        stamp_under(Hash32(protocol_hash(b"another block"))),
        stamped,
        "a different anchor is a different draw"
    );
}

#[test]
fn a_wave_is_anchored_at_its_start_and_a_crossing_at_its_payers_block() {
    let trie = ShardTrie::single();
    let store = snapshot(&BTreeMap::new());
    let inputs = || vec![idle_input(TxHash([1; 32])), idle_input(TxHash([2; 32]))];
    let fates = || vec![routed(vec![]), routed(vec![])];
    let local = Locality { cross_shard: false, local_shard: ShardId::root(), trie: &trie };
    let plan = plan_wave_batch(&inputs(), fates(), 7, Hash32([5; 32]), &LIMITS, &local, &store);
    let anchors: Vec<(u64, Hash32)> =
        plan.batch.iter().map(|tx| (tx.clock_ms, tx.randomness)).collect();
    assert_eq!(anchors, vec![(7, Hash32([5; 32])), (7, Hash32([5; 32]))]);

    let requests = inputs()
        .into_iter()
        .zip([(8, Hash32([6; 32])), (9, Hash32([7; 32]))])
        .map(|(transaction, (clock_ms, randomness))| CrossShardTxInput {
            transaction,
            provisions: vec![],
            clock_ms,
            randomness,
        })
        .collect();
    let crossing = Locality { cross_shard: true, local_shard: ShardId::root(), trie: &trie };
    let (_, plan) = plan_cross_shard_batch(requests, fates(), &LIMITS, &crossing, &store);
    let anchors: Vec<(u64, Hash32)> =
        plan.batch.iter().map(|tx| (tx.clock_ms, tx.randomness)).collect();
    assert_eq!(anchors, vec![(8, Hash32([6; 32])), (9, Hash32([7; 32]))]);
}

#[test]
fn preparation_names_the_stage_that_turned_a_transaction_away() {
    let input = idle_input(TxHash([1; 32]));
    let refused = |input: &BatchInput, fate: TreeFate| prepare(input, fate, &LIMITS).unwrap_err();
    assert_eq!(
        refused(&BatchInput { tx: TxHash([1; 32]), vm: None }, routed(vec![])),
        "Radix body in a VM sub-batch"
    );
    let mut garbled = idle_input(TxHash([1; 32]));
    garbled.vm.as_mut().unwrap().body = InputBody::Call(vec![1, 2, 3]);
    assert_eq!(
        refused(&garbled, routed(vec![])),
        "tree decode: UnexpectedPayloadPrefix { expected: 91, actual: 1 }"
    );
    let text = || "no such package".to_owned();
    assert_eq!(refused(&input, TreeFate::NotAdmitted(text())), "admission: no such package");
    assert_eq!(refused(&input, TreeFate::NotRouted(text())), "routing: no such package");
    assert_eq!(refused(&input, TreeFate::Clashing(text())), "effect set: no such package");

    let effect = |owner: [u8; 16]| Effect {
        target: EffectTarget::Point(vault_key(owner)),
        mode: Mode::Delta,
    };
    let prepared = prepare(
        &input,
        TreeFate::Routed {
            manifest: vec![],
            per_shard: vec![vec![effect(ALICE)], vec![effect(BOB)]],
            subintents: vec![SubintentRecord { subintent: [4; 32], nullifier: vault_key(FAR) }],
        },
        &LIMITS,
    )
    .unwrap();
    assert_eq!(prepared.declared, vec![effect(ALICE), effect(BOB)]);
    assert_eq!(prepared.nullifiers, vec![vault_key(FAR)]);
}

#[test]
fn an_empty_batch_runs_nothing() {
    let executor = VmExecutor {
        kernel: |_: &VmBase, _: &Vec<BatchTx>, _: &SortedMap<TxHash, PreparedTx>| {
            KernelOutcome { receipts: SortedMap::new(), store: panic!("nothing is run") }
        },
        receipt_hash,
        limits: LIMITS,
    };
    let trie = ShardTrie::single();
    let (pools, instances) = (PoolRegistry::new(), InstanceRegistry::new());
    let locality = Locality { cross_shard: false, local_shard: ShardId::root(), trie: &trie };
    let store = snapshot(&BTreeMap::new());
    let executed = executor.execute_wave_batch::<SimSnapshot, SimSnapshot>(
        &vec![],
        vec![],
        1,
        Hash32([0; 32]),
        &scene(locality, &pools, &instances),
        &store,
    );
    assert_eq!(executed, Ok(vec![]));
}

#[test]
fn transfer_a_transfer_folds_to_identity_keyed_absolute_updates() {
    let executed = execute(&[sponsored(7, ALICE, BOB, 100)]);
    assert_eq!(executed.len(), 1);
    assert_ne!(hash_of(&executed[0]), Hash32([0; 32]));
    // Withdraw settled 100 off the sender; deposit credited the recipient.
    // Absolute values, identity-keyed.
    let updates = updates_of(&executed[0].consensus);
    assert_eq!(vault_cell(updates, ALICE), Some(encode_amount(900)));
    assert_eq!(vault_cell(updates, BOB), Some(encode_amount(150)));

    // Where the sender signs, the sender pays.
    let executed = execute(&[paid_by_sender(1, ALICE, BOB, 100, 100)]);
    let updates = updates_of(&executed[0].consensus);
    assert_eq!(vault_cell(updates, ALICE), Some(encode_amount(1_000 - 100 - 100)));
    assert_eq!(vault_cell(updates, BOB), Some(encode_amount(150)));
}

#[test]
fn transfer_an_uncovered_withdrawal_aborts_and_the_batch_carries_on() {
    let executed = execute(&[sponsored(8, BOB, ALICE, 500), sponsored(9, ALICE, BOB, 25)]);
    assert_eq!(executed.len(), 2);
    // Input order is preserved: the infeasible reservation aborts its own
    // transaction only.
    assert!(matches!(executed[0].consensus, ConsensusReceipt::Failed));
    let updates = updates_of(&executed[1].consensus);
    assert_eq!(vault_cell(updates, ALICE), Some(encode_amount(975)));
    assert_eq!(vault_cell(updates, BOB), Some(encode_amount(75)));

    let executed =
        execute(&[paid_by_sender(2, BOB, ALICE, 500, 100), paid_by_sender(1, ALICE, BOB, 25, 100)]);
    assert!(matches!(executed[0].consensus, ConsensusReceipt::Failed));
    let updates = updates_of(&executed[1].consensus);
    assert_eq!(vault_cell(updates, ALICE), Some(encode_amount(1_000 - 25 - 100)));
    assert_eq!(vault_cell(updates, BOB), Some(encode_amount(75)));
}

#[test]
fn transfer_serial_and_parallel_scheduling_produce_identical_receipts() {
    let store = genesis(&[(ALICE, 1_000), (BOB, 50)]);
    let trie = ShardTrie::single();
    let txs: Vec<Transfer> =
        (0..4u8).map(|i| sponsored(10 + i, ALICE, BOB, 10 + u128::from(i))).collect();
    let a = execute_scheduled(&store, ShardId::root(), &trie, &txs, serial);
    let b = execute_scheduled(&store, ShardId::root(), &trie, &txs, parallel);
    assert_eq!(a.len(), b.len());
    for (left, right) in a.iter().zip(&b) {
        assert_eq!(left.tx_hash, right.tx_hash);
        assert_eq!(left.consensus, right.consensus);
    }
}

/// An attempt that applies nothing still attests the declaration it made, and
/// a completed one attests strictly more.
#[test]
fn transfer_an_unapplied_attempt_still_attests_its_declaration() {
    let executed = execute(&[sponsored(3, ALICE, BOB, 1_000_000)]);
    assert_eq!(executed.len(), 1);
    assert!(
        matches!(executed[0].consensus, ConsensusReceipt::Failed),
        "an uncovered withdrawal must not apply"
    );
    let unapplied = executed[0].attested_work;
    assert!(unapplied > 0, "an attempt that applied nothing still declared, routed, and locked");

    let executed = execute(&[sponsored(4, ALICE, BOB, 100)]);
    assert_eq!(executed.len(), 1);
    assert!(
        matches!(executed[0].consensus, ConsensusReceipt::Succeeded { .. }),
        "a covered transfer must apply"
    );
    assert!(
        executed[0].attested_work > unapplied,
        "a completed execution attests its compute on top of its declaration: \
         completed = {}, unapplied = {unapplied}",
        executed[0].attested_work,
    );
    assert_eq!(executed[0].attested_work, DECLARED + FUEL);
}

#[test]
fn transfer_a_completed_transfer_burns_the_fee_ceiling_from_its_payer() {
    let payer = fee_payer(7);
    // A transfer's fuel far exceeds the tiny ceiling, so the burn is exactly
    // the ceiling.
    let executed =
        execute_on(&[(payer, 1_000), (BOB, 50)], &[paid_by_sender(7, payer, BOB, 100, 10)]);
    assert_eq!(executed.len(), 1);
    let updates = updates_of(&executed[0].consensus);
    assert_eq!(vault_cell(updates, payer), Some(encode_amount(1_000 - 100 - 10)));
    assert_eq!(vault_cell(updates, BOB), Some(encode_amount(150)));
}

/// A missed edge bound is an infeasibility, not a defect: nothing but the
/// class floor leaves the payer's vault.
#[test]
fn a_missed_edge_bound_charges_its_payer_the_floor() {
    let payer = fee_payer(23);
    let funded = 1_000;
    let tx = Transfer {
        tx: 23,
        payer,
        from: payer,
        to: BOB,
        amount: 100,
        min: 150,
        max_fee: 1_000,
    };
    let floor = tx.max_fee / 10;
    let executed = execute_on(&[(payer, funded), (BOB, 50)], &[tx]);
    assert_eq!(executed.len(), 1);
    assert!(
        matches!(executed[0].consensus, ConsensusReceipt::Failed),
        "a missed bound must not apply: {:?}",
        executed[0].consensus
    );
    let Some(fee_receipt) = executed[0].fee_receipt.as_ref() else {
        panic!("a charged abort settles a fee receipt");
    };
    let updates = updates_of(fee_receipt);
    assert_eq!(
        vault_cell(updates, payer),
        Some(encode_amount(funded - floor)),
        "the floor and nothing else"
    );
    assert_eq!(
        vault_cell(updates, BOB),
        None,
        "the transfer's own effects are discarded"
    );
}

#[test]
fn transfer_a_payer_drained_by_its_own_fee_deletes_its_vault() {
    let payer = fee_payer(11);
    // Exactly the transfer plus the ceiling: nothing survives the burn.
    let executed =
        execute_on(&[(payer, 110), (BOB, 50)], &[paid_by_sender(11, payer, BOB, 100, 10)]);
    let updates = updates_of(&executed[0].consensus);
    assert_eq!(
        vault_update(updates, payer),
        Some(&DatabaseUpdate::Delete),
        "a drained payer vault is deleted, not zeroed"
    );
    // The recipient is untouched by the rule.
    assert_eq!(vault_cell(updates, BOB), Some(encode_amount(150)));
}

/// What each receipt carries is an absolute value for the cell, derived from
/// whatever baseline its batch read.
#[test]
fn a_batch_baseline_decides_whether_two_payments_both_land() {
    let payer_a = fee_payer(31);
    let payer_b = fee_payer(32);
    let accounts = [(payer_a, 1_000), (payer_b, 1_000), (BOB, 10)];
    let pay = |seed: u8, from: [u8; 16]| paid_by_sender(seed, from, BOB, 100, 10);

    // Threaded: each batch reads what the previous one committed.
    let mut store = genesis(&accounts);
    let mut threaded = Vec::new();
    for (seed, from) in [(31u8, payer_a), (32, payer_b)] {
        let executed = execute_batch_on(&store, &[pay(seed, from)]);
        let updates = updates_of(&executed[0].consensus);
        threaded.push(vault_cell(updates, BOB));
        apply(&mut store, updates);
    }
    assert_eq!(
        threaded,
        vec![Some(encode_amount(110)), Some(encode_amount(210))],
        "each payment must land on top of the last"
    );

    // Unthreaded: both batches read the genesis baseline.
    let first = genesis(&accounts);
    let shared: Vec<Option<Vec<u8>>> = [(31u8, payer_a), (32, payer_b)]
        .into_iter()
        .map(|(seed, from)| {
            let executed = execute_batch_on(&first, &[pay(seed, from)]);
            vault_cell(updates_of(&executed[0].consensus), BOB)
        })
        .collect();
    assert_eq!(
        shared,
        vec![Some(encode_amount(110)), Some(encode_amount(110))],
        "two batches on one baseline each write the same absolute"
    );
}

fn events_of(executed: &ExecutedTx) -> Vec<([u8; 16], u32)> {
    let ConsensusReceipt::Succeeded { events, .. } = &executed.consensus else {
        panic!("the transaction must succeed: {:?}", executed.consensus);
    };
    events.iter().map(|event| (event.emitter, event.event_type)).collect()
}

/// Each shard's receipt keeps only the events its own instances emitted, while
/// the receipt hash, which covers the union, stays identical.
#[test]
fn transfer_an_event_lands_only_on_its_emitters_home_shard() {
    let trie = ShardTrie::uniform(1);
    let (near, far) = (trie.shard_for_prefix(&ALICE), trie.shard_for_prefix(&FAR));
    assert_ne!(near, far, "the two accounts must sit on different shards");

    let store = genesis(&[(ALICE, 1_000), (FAR, 50)]);
    let tx = sponsored(7, ALICE, FAR, 100);
    let sender_side = execute_scheduled(&store, near, &trie, &[tx], serial);
    let recipient_side = execute_scheduled(&store, far, &trie, &[tx], serial);

    assert_eq!(events_of(&sender_side[0]), vec![(ALICE, 0)]);
    assert_eq!(events_of(&recipient_side[0]), vec![(FAR, 1)]);
    assert_eq!(
        hash_of(&sender_side[0]),
        hash_of(&recipient_side[0]),
        "the receipt hash covers the union, so it cannot differ by shard",
    );
}

#[test]
fn a_cross_shard_leg_folds_its_own_cells_over_what_was_provisioned() {
    let trie = ShardTrie::uniform(1);
    let near = trie.shard_for_prefix(&ALICE);
    let store = genesis(&[(ALICE, 1_000)]);
    let tx = paid_by_sender(1, ALICE, FAR, 100, 10);
    let requests = vec![CrossShardTxInput {
        transaction: tx.input(),
        provisions: vec![vec![SubstateEntry {
            storage_key: vm_flat_key(&vault_key(FAR)),
            value: Some(encode_amount(50)),
        }]],
        clock_ms: 1_000,
        randomness: Hash32([0; 32]),
    }];
    let executor = VmExecutor {
        kernel: |base: &VmBase, batch: &Vec<BatchTx>, _: &SortedMap<TxHash, PreparedTx>| {
            assert_eq!(base.cell(&vault_key(FAR)), Some(encode_amount(50)));
            serial(base, batch, &[tx])
        },
        receipt_hash,
        limits: LIMITS,
    };
    let (pools, instances) = (PoolRegistry::new(), InstanceRegistry::new());
    let locality = Locality { cross_shard: true, local_shard: near, trie: &trie };
    let executed = executor
        .execute_cross_shard_batch(
            requests,
            vec![tx.fate()],
            &scene(locality, &pools, &instances),
            &snapshot(&store),
        )
        .unwrap();
    let updates = updates_of(&executed[0].consensus);
    assert_eq!(vault_cell(updates, ALICE), Some(encode_amount(890)));
    assert_eq!(vault_update(updates, FAR), None);
    // The leg can still be aborted, so the floor is held in reserve.
    let reserve = updates_of(executed[0].fee_receipt.as_ref().unwrap());
    assert_eq!(vault_cell(reserve, ALICE), Some(encode_amount(999)));
}

#[test]
fn a_recognised_pools_events_settle_as_facts() {
    let pool = ALICE;
    let package = PackageHash([1; 32]);
    let mut pools = PoolRegistry::new();
    pools.register(pool, StakePoolId(7));
    let mut instances = InstanceRegistry::new();
    instances.register(pool, InstanceMeta { package, config: vec![] });
    let trie = ShardTrie::single();
    let scene = Scene {
        locality: Locality { cross_shard: false, local_shard: ShardId::root(), trie: &trie },
        pools: &pools,
        instances: &instances,
        staking_package: package,
    };
    let tx = TxHash([1; 32]);
    let mut receipts = SortedMap::new();
    receipts.insert(
        tx,
        Receipt {
            outcome: Outcome::Completed,
            fuel: 1,
            declared_work: 1,
            delta: Delta { cells: vec![], movements: vec![], settles: vec![], entries: 0 },
            events: vec![
                VmEvent { emitter: BOB, event_type: STAKED, payload: encode_amount(9) },
                VmEvent { emitter: pool, event_type: STAKED, payload: encode_amount(500) },
            ],
        },
    );
    let executed = settle_batch(
        &vec![BatchInput { tx, vm: None }],
        &SortedMap::new(),
        &receipts,
        &SortedMap::new(),
        &VmBase::new(),
        &snapshot(&BTreeMap::new()),
        &scene,
        &receipt_hash,
    )
    .unwrap();
    let ConsensusReceipt::Succeeded { beacon_witness_events, events, .. } = &executed[0].consensus
    else {
        panic!("the transaction must succeed");
    };
    assert_eq!(
        *beacon_witness_events,
        vec![BeaconWitnessEvent::StakeDeposit { pool_id: StakePoolId(7), amount: 500 }]
    );
    assert_eq!(events.len(), 2);
}

#[test]
fn a_refused_transaction_answers_with_its_reason() {
    let transactions = vec![
        BatchInput { tx: TxHash([1; 32]), vm: None },
        BatchInput { tx: TxHash([2; 32]), vm: None },
    ];
    let mut refused = SortedMap::new();
    refused.insert(TxHash([1; 32]), "not admitted".to_owned());
    let trie = ShardTrie::single();
    let scene = Scene {
        locality: Locality { cross_shard: false, local_shard: ShardId::root(), trie: &trie },
        pools: &PoolRegistry::new(),
        instances: &InstanceRegistry::new(),
        staking_package: PackageHash([0; 32]),
    };
    let executed = settle_batch(
        &transactions,
        &refused,
        &SortedMap::new(),
        &SortedMap::new(),
        &VmBase::new(),
        &snapshot(&BTreeMap::new()),
        &scene,
        &receipt_hash,
    )
    .unwrap();
    assert_eq!(executed[0].metadata.error, Some(AbortReason::Said("not admitted".to_owned())));
    assert_eq!(
        executed[1].metadata.error,
        Some(AbortReason::Said("missing batch receipt".to_owned()))
    );
    assert_eq!(executed[0].attested_work, 0);
}

#[test]
fn a_fold_that_the_store_contradicts_is_a_fault() {
    let tx = sponsored(1, ALICE, BOB, 100);
    let store = genesis(&[(ALICE, 1_000), (BOB, 50)]);
    let trie = ShardTrie::single();
    let locality = || Locality { cross_shard: false, local_shard: ShardId::root(), trie: &trie };
    let transactions = vec![tx.input()];
    let plan = plan_wave_batch(
        &transactions,
        vec![tx.fate()],
        1_000,
        Hash32([0; 32]),
        &LIMITS,
        &locality(),
        &snapshot(&store),
    );
    let mut balances =
        BTreeMap::from([(vault_key(ALICE), 1_000u128), (vault_key(BOB), 50u128)]);
    let mut receipts = SortedMap::new();
    receipts.insert(tx.hash(), tx.run(&mut balances));
    balances.insert(vault_key(BOB), 151);
    let scene = Scene {
        locality: locality(),
        pools: &PoolRegistry::new(),
        instances: &InstanceRegistry::new(),
        staking_package: PackageHash([0; 32]),
    };
    let settled = settle_batch(
        &transactions,
        &plan.refused,
        &receipts,
        &plan.fees,
        &plan.base,
        &store_of(&balances),
        &scene,
        &receipt_hash,
    );
    assert_eq!(settled, Err(BatchFault::Diverged(vault_key(BOB))));
}

#[test]
fn every_fault_of_a_fold_names_itself() {
    let trie = ShardTrie::single();
    let locality = Locality { cross_shard: false, local_shard: ShardId::root(), trie: &trie };
    let key = vault_key(ALICE);
    let fold = |delta: Delta, held: Vec<u8>| {
        let mut base = VmBase::new();
        base.insert(key, held);
        let receipt = Receipt {
            outcome: Outcome::Completed,
            fuel: 0,
            declared_work: 0,
            delta,
            events: vec![],
        };
        fold_delta(&receipt, &base, &mut StateWrites::new(), &locality).map(|w| w.len())
    };
    let nothing = || Delta { cells: vec![], movements: vec![], settles: vec![], entries: 0 };
    assert_eq!(fold(Delta { entries: 1, ..nothing() }, vec![]), Err(FoldFault::Entries));
    let settles = |amount: u128| Delta { settles: vec![(key, amount)], ..nothing() };
    assert_eq!(fold(settles(1), vec![1, 2]), Err(FoldFault::AmountCell));
    assert_eq!(fold(settles(2), encode_amount(1)), Err(FoldFault::Settle));
    assert_eq!(fold(settles(1), encode_amount(1)), Ok(1));
    let moves = |credit: u128, debit: u128| Delta {
        movements: vec![(key, Movement { credit, debit })],
        ..nothing()
    };
    assert_eq!(fold(moves(0, 2), encode_amount(1)), Err(FoldFault::Movement));
    assert_eq!(fold(moves(u128::MAX, 0), encode_amount(1)), Err(FoldFault::Movement));
    assert_eq!(fold(moves(5, 2), encode_amount(1)), Ok(1));
}

#[test]
fn pinned_values_override_what_is_committed() {
    let store = genesis(&[(ALICE, 1_000), (BOB, 50)]);
    let trie = ShardTrie::single();
    let locality = Locality { cross_shard: false, local_shard: ShardId::root(), trie: &trie };
    let tx = sponsored(1, ALICE, BOB, 100);
    let mut input = tx.input();
    input.vm.as_mut().unwrap().snapshot_pins = vec![
        SnapshotPin { key: vault_key(ALICE), value: Some(encode_amount(7)) },
        SnapshotPin { key: vault_key(BOB), value: None },
    ];
    let plan = plan_wave_batch(
        &vec![input],
        vec![tx.fate()],
        1_000,
        Hash32([0; 32]),
        &LIMITS,
        &locality,
        &snapshot(&store),
    );
    assert_eq!(plan.base.cell(&vault_key(ALICE)), Some(encode_amount(7)));
    assert_eq!(plan.base.cell(&vault_key(BOB)), None);
    assert_eq!(plan.batch[0].clock_ms, 1_000);
}

fn package_metadata(event: &str) -> PackageMetadata {
    let mut metadata = PackageMetadata::default();
    metadata.insert_method("ping".into(), MethodSignature::default());
    metadata.events.push(event.to_owned());
    metadata
}

/// A component with one function, and metadata that declares it.
fn package_artifact(event: &str) -> Vec<u8> {
    let component = wat::parse_str(
        "(component (core module $m (func (export \"f\"))) \
         (core instance $i (instantiate $m)) \
         (func (export \"ping\") (canon lift (core func $i \"f\"))))",
    )
    .unwrap();
    attach_metadata(&component, &package_metadata(event), &LIMITS).unwrap()
}

fn package_hash(artifact: &Vec<u8>) -> [u8; 32] {
    *blake3::hash(artifact).as_bytes()
}

fn package_cell(publisher: [u8; 16], artifact: &Vec<u8>) -> SubstateKey {
    cell_key(CellRole::Package { owner: publisher, package: package_hash(artifact) })
}

fn publish(tx: u8, publisher: [u8; 16], artifact: Vec<u8>) -> BatchInput {
    let cell = package_cell(publisher, &artifact);
    BatchInput {
        tx: TxHash([tx; 32]),
        vm: Some(VmInput {
            body: InputBody::Publish(Deployment { cell, artifact }),
            snapshot_pins: vec![],
            fee_vault: Some(vault_key(publisher)),
            max_fee: 1_000_000,
            abort_floor: 100_000,
        }),
    }
}

/// Executes a publish alone. The kernel prices its declaration and runs
/// nothing.
fn execute_publish(accounts: &[([u8; 16], u128)], input: BatchInput) -> ExecutedTx {
    let executor = VmExecutor {
        kernel: |_: &VmBase, batch: &Vec<BatchTx>, _: &SortedMap<TxHash, PreparedTx>| {
            let mut receipts = SortedMap::new();
            for tx in batch {
                receipts.insert(
                    tx.tx,
                    Receipt {
                        outcome: Outcome::Completed,
                        fuel: 0,
                        declared_work: DECLARED,
                        delta: Delta {
                            cells: vec![],
                            movements: vec![],
                            settles: vec![],
                            entries: 0,
                        },
                        events: vec![],
                    },
                );
            }
            KernelOutcome { receipts, store: snapshot(&BTreeMap::new()) }
        },
        receipt_hash,
        limits: LIMITS,
    };
    let trie = ShardTrie::single();
    let (pools, instances) = (PoolRegistry::new(), InstanceRegistry::new());
    let locality = Locality { cross_shard: false, local_shard: ShardId::root(), trie: &trie };
    let mut executed = executor
        .execute_wave_batch(
            &vec![input],
            vec![routed(vec![])],
            1_000,
            Hash32([0; 32]),
            &scene(locality, &pools, &instances),
            &snapshot(&genesis(accounts)),
        )
        .expect("the batch settles");
    executed.remove(0)
}

#[test]
fn a_publish_writes_the_artifact_under_its_publisher() {
    let payer = fee_payer(7);
    let artifact = package_artifact("published");
    // Funded well above the burn: publishing costs a unit for each byte.
    let executed =
        execute_publish(&[(payer, 1_000_000)], publish(7, payer, artifact.clone()));
    let updates = updates_of(&executed.consensus);
    assert_eq!(
        update_at(updates, package_cell(payer, &artifact)),
        Some(&DatabaseUpdate::Put(artifact.clone())),
        "the artifact lands whole in its content-addressed cell"
    );
    // The publisher paid: the vault carries the burn, and the fee is the only
    // other thing a publish writes.
    let paid = vault_cell(updates, payer).expect("the payer's vault was written");
    assert_eq!(
        paid,
        encode_amount(1_000_000 - artifact.len() as u128),
        "the publisher paid exactly what judging its artifact cost"
    );
    assert_eq!(updates.node_updates.len(), 1);
    assert!(executed.attested_work > 0, "judging the artifact is attested work");
    assert_eq!(executed.attested_work, DECLARED + artifact.len() as u64);
}

#[test]
fn a_publish_that_is_no_package_is_refused() {
    let payer = fee_payer(7);
    let junk = b"\0asm\x01\0\0\0".to_vec();
    let executed = execute_publish(&[(payer, 1_000_000)], publish(7, payer, junk));
    assert_eq!(executed.consensus, ConsensusReceipt::Failed);
    assert_eq!(
        executed.metadata.error,
        Some(AbortReason::Said("artifact declares no effect metadata section".to_owned()))
    );
    let mut pinned = publish(7, payer, package_artifact("pinned"));
    pinned.vm.as_mut().unwrap().snapshot_pins =
        vec![SnapshotPin { key: vault_key(payer), value: None }];
    assert_eq!(
        prepare(&pinned, routed(vec![]), &LIMITS).unwrap_err(),
        "a publish carries no subintents and no snapshot pins"
    );
    let prepared =
        prepare(&publish(7, payer, package_artifact("x")), routed(vec![]), &LIMITS).unwrap();
    let write = |key: SubstateKey| Effect { target: EffectTarget::Point(key), mode: Mode::Write };
    let cell = package_cell(payer, &package_artifact("x"));
    assert_eq!(prepared.declared, vec![write(cell), write(vault_key(payer))]);
}

#[test]
fn a_publish_pays_no_more_than_its_ceiling() {
    let payer = fee_payer(7);
    let mut input = publish(7, payer, package_artifact("capped"));
    input.vm.as_mut().unwrap().max_fee = 10;
    let executed = execute_publish(&[(payer, 1_000)], input);
    assert_eq!(vault_cell(updates_of(&executed.consensus), payer), Some(encode_amount(990)));
}

#[test]
fn a_committed_publish_grows_the_cache_that_routing_reads() {
    let payer = fee_payer(7);
    let artifact = package_artifact("republished");
    let package = package_hash(&artifact);
    let mut cache: SortedMap<[u8; 32], PackageMetadata> = SortedMap::new();
    let executed = execute_publish(&[(payer, 1_000_000)], publish(7, payer, artifact));
    // Executing is not committing: the cache learns the package from the
    // committed receipt.
    assert!(cache.get(&package).is_none(), "execution alone does not publish");
    absorb_committed_cells(&mut cache, &executed.consensus, &LIMITS, &cell_key, &package_hash);
    assert_eq!(
        cache.get(&package),
        Some(&package_metadata("republished")),
        "the committed cell published exactly the metadata the artifact declares"
    );
    absorb_committed_cells(
        &mut cache,
        &ConsensusReceipt::Failed,
        &LIMITS,
        &cell_key,
        &package_hash,
    );
    assert_eq!(cache.len(), 1);
}

#[test]
fn only_a_cell_that_addresses_its_own_contents_publishes() {
    let mut cache: SortedMap<[u8; 32], PackageMetadata> = SortedMap::new();
    let artifact = package_artifact("smuggled");
    let package = package_hash(&artifact);
    let publisher = fee_payer(11);

    // The right bytes at the wrong key: a vault slot, not the content address.
    absorb_cell(&mut cache, vault_key(publisher), &artifact, &LIMITS, &cell_key, &package_hash);
    assert!(
        cache.get(&package).is_none(),
        "an artifact stored anywhere but its own address is not a package"
    );

    // The same bytes at the key their own hash builds.
    let cell = package_cell(publisher, &artifact);
    absorb_cell(&mut cache, cell, &artifact, &LIMITS, &cell_key, &package_hash);
    assert_eq!(cache.get(&package), Some(&package_metadata("smuggled")));

    // Bytes that are no package do not publish at their own address either.
    let junk = b"\0asm\x01\0\0\0".to_vec();
    let cell = package_cell(publisher, &junk);
    absorb_cell(&mut cache, cell, &junk, &LIMITS, &cell_key, &package_hash);
    assert_eq!(cache.len(), 1);
}

#[test]
fn a_committed_cell_that_is_not_a_package_is_ignored() {
    // Ordinary traffic cannot grow the cache by accident, whatever it writes.
    let executed = execute(&[sponsored(1, ALICE, BOB, 100)]);
    let mut cache: SortedMap<[u8; 32], PackageMetadata> = SortedMap::new();
    absorb_committed_cells(&mut cache, &executed[0].consensus, &LIMITS, &cell_key, &package_hash);
    let bogus = package_hash(&encode_amount(900));
    assert!(cache.get(&bogus).is_none(), "vault writes are not packages");
    assert!(cache.is_empty());
}

/// The ceiling of the preview fixtures, far below the fuel a transfer burns.
const PREVIEW_CEILING: u128 = 10;

/// Previews a transaction against a genesis snapshot of `accounts`.
fn preview_input(
    accounts: &[([u8; 16], u128)],
    input: BatchInput,
    fate: TreeFate,
    transfers: &[Transfer],
    free_credit: bool,
) -> PreviewReport {
    let executor = VmExecutor {
        kernel: |base: &VmBase, batch: &Vec<BatchTx>, _: &SortedMap<TxHash, PreparedTx>| {
            if transfers.is_empty() {
                return KernelOutcome {
                    receipts: SortedMap::new(),
                    store: snapshot(&BTreeMap::new()),
                };
            }
            serial(base, batch, transfers)
        },
        receipt_hash,
        limits: LIMITS,
    };
    let trie = ShardTrie::single();
    let locality = Locality { cross_shard: false, local_shard: ShardId::root(), trie: &trie };
    let anchor = TxAnchor { clock_ms: 1_000, randomness: Hash32([0; 32]) };
    executor
        .preview(input, fate, anchor, free_credit, &locality, &snapshot(&genesis(accounts)))
        .expect("the receipt folds")
}

fn preview_on(
    accounts: &[([u8; 16], u128)],
    transfer: Transfer,
    free_credit: bool,
) -> PreviewReport {
    preview_input(accounts, transfer.input(), transfer.fate(), &[transfer], free_credit)
}

fn change_for(report: &PreviewReport, owner: [u8; 16]) -> ResourceChange {
    let key = vault_key(owner);
    *report.changes.iter().find(|change| change.key == key).expect("a reported change")
}

/// A payer who funds the transfer and its fee, and a recipient.
fn preview_fixture() -> ([u8; 16], Vec<([u8; 16], u128)>, Transfer) {
    let payer = fee_payer(7);
    let transfer = paid_by_sender(7, payer, BOB, 100, PREVIEW_CEILING);
    (payer, vec![(payer, 1_000), (BOB, 50)], transfer)
}

#[test]
fn a_preview_reports_the_resource_changes_a_transfer_would_make() {
    let (payer, accounts, transfer) = preview_fixture();
    let report = preview_on(&accounts, transfer, false);
    assert_eq!(report.outcome, PreviewOutcome::Completed);
    assert_eq!(report.fee, PREVIEW_CEILING, "a transfer's fuel exceeds it");
    assert_eq!(report.changes.len(), 2, "two vaults move: {report:?}");

    let sender = change_for(&report, payer);
    assert_eq!((sender.before, sender.after), (1_000, 1_000 - 100 - 10));
    assert_eq!(
        (sender.settled, sender.credit, sender.debit),
        (100, 0, 0),
        "a withdrawal leaves through its reservation's settle"
    );

    let recipient = change_for(&report, BOB);
    assert_eq!((recipient.before, recipient.after), (50, 150));
    assert_eq!(
        (recipient.credit, recipient.debit, recipient.settled),
        (100, 0, 0),
        "a deposit arrives as a commutative credit"
    );
    assert_eq!(
        preview_on(&accounts, transfer, false),
        report,
        "a preview commits nothing, so it is repeatable"
    );
}

#[test]
fn a_preview_agrees_with_the_wave_that_would_commit_it() {
    let (payer, accounts, transfer) = preview_fixture();
    let report = preview_on(&accounts, transfer, false);
    let executed = execute_on(&accounts, &[transfer]);
    let updates = updates_of(&executed[0].consensus);
    for owner in [payer, BOB] {
        assert_eq!(
            vault_cell(updates, owner),
            Some(encode_amount(change_for(&report, owner).after)),
            "the preview's figure for {owner:?} is what the wave commits"
        );
    }
}

#[test]
fn free_credit_reports_the_fee_without_charging_it() {
    let (payer, accounts, transfer) = preview_fixture();
    let charged = preview_on(&accounts, transfer, false);
    let credited = preview_on(&accounts, transfer, true);
    assert_eq!(credited.fee, charged.fee, "the fee is priced either way");
    assert_eq!(
        change_for(&credited, payer).after,
        change_for(&charged, payer).after + charged.fee,
        "credit keeps exactly the fee off the payer's vault"
    );
    assert_eq!(
        change_for(&credited, BOB),
        change_for(&charged, BOB),
        "a grant to the payer moves nobody else"
    );
}

#[test]
fn a_preview_prices_an_abort_at_its_class_floor() {
    let payer = fee_payer(7);
    let accounts = [(payer, 1_000), (BOB, 50)];
    let transfer = paid_by_sender(7, payer, BOB, 5_000, PREVIEW_CEILING);
    let report = preview_on(&accounts, transfer, false);
    assert_eq!(
        report.outcome,
        PreviewOutcome::Aborted {
            reason: AbortReason::Infeasible { key: vault_key(payer), amount: 5_000 }
        }
    );
    assert_eq!(report.fee, PREVIEW_CEILING / 10, "the abort floor");
    assert_eq!(
        report.changes,
        vec![ResourceChange {
            key: vault_key(payer),
            before: 1_000,
            after: 1_000 - PREVIEW_CEILING / 10,
            credit: 0,
            debit: 0,
            settled: 0,
        }],
        "an abort moves nothing but the floor"
    );
    assert!(preview_on(&accounts, transfer, true).changes.is_empty());
}

#[test]
fn a_preview_refuses_what_admission_would_refuse() {
    let (_, accounts, transfer) = preview_fixture();
    let report = preview_input(
        &accounts,
        transfer.input(),
        TreeFate::NotAdmitted("no such instance".to_owned()),
        &[transfer],
        false,
    );
    assert_eq!(
        report.outcome,
        PreviewOutcome::Refused { reason: "admission: no such instance".to_owned() }
    );
    assert_eq!(report.fee, 0);
    assert!(report.changes.is_empty());
}

#[test]
fn a_preview_prices_a_publish_by_its_artifact() {
    let payer = fee_payer(7);
    let artifact = package_artifact("priced");
    let accounts = [(payer, 1_000_000)];
    let input = publish(7, payer, artifact.clone());
    let report = preview_input(&accounts, input, routed(vec![]), &[], false);
    assert_eq!(report.outcome, PreviewOutcome::Completed);
    assert_eq!(report.fee, artifact.len() as u128);
    let vault = change_for(&report, payer);
    assert_eq!(
        (vault.before, vault.after),
        (1_000_000, 1_000_000 - artifact.len() as u128)
    );

    // An artifact that is no package never enters a block, and costs its
    // publisher nothing.
    let junk = publish(7, payer, b"\0asm\x01\0\0\0".to_vec());
    let refused = preview_input(&accounts, junk, routed(vec![]), &[], false);
    assert!(matches!(refused.outcome, PreviewOutcome::Refused { .. }));
    assert_eq!(refused.fee, 0);
}
