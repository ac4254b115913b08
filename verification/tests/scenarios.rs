use std::collections::BTreeSet;

use hyperscale::bridge::account::{vm_account_address, VM_XRD};
use hyperscale::bridge::checks::MetadataLimits;
use hyperscale::bridge::envelope::{decode_tree, Constraint, GraphArg};
use hyperscale::bridge::artifact::extract_metadata;
use hyperscale::bridge::metadata::PackageMetadata;
use hyperscale::bridge::roles::CellRole;
use hyperscale::bridge::signature::MethodSignature;
use hyperscale::bridge::statics::{VmBody, VmTransaction};
use hyperscale::bridge::value::Value;
use hyperscale::engine::genesis::stake_unit;
use hyperscale::scenarios::ballast::{
    account_from_seed, account_in_n, accounts_routing_to, ballast, bulk_fund_into, push_shard,
    BALLAST_TOKENS,
};
use hyperscale::scenarios::cast::{
    draw_all, signer_from_seed, vm_account_from_seed, vm_account_routing_to_n,
};
use hyperscale::scenarios::envelopes::{
    build_probe_transfer_tx, build_vm_composed_tx, build_vm_fan_out_tx, build_vm_publish_tx,
    build_vm_register_tx, build_vm_stake_tx, build_vm_transfer_tx, validity_around,
    vm_payment_request, vm_staking_pools, TimestampRange, PROBE_PAYMENT, VM_GAS_LIMIT,
    VM_PUBLISH_MAX_FEE, VM_STAKE_POOL,
};
use hyperscale::crypto::role::{ConsensusPublicKey, ConsensusSignature};
use hyperscale::scenarios::funding::{
    cross_shard_fault_cast, vm_account_shard, vm_cross_fraction_genesis_accounts,
    vm_cross_shard_cast, vm_cross_shard_genesis_accounts, vm_delegator, vm_genesis_accounts,
    vm_insolvent_genesis_accounts, vm_livelock_pair, vm_nullifier_race_cast,
    vm_participant_sweep_accounts, vm_recipient, vm_sender, vm_staking_genesis_accounts,
    vm_storm_publishers, DUST, MIN_STAKE_FLOOR, PAYER_FUNDING, TERMINATING_PAYER_FUNDING,
    VM_DELEGATOR_FUNDING, VM_MAX_FEE,
};
use hyperscale::scenarios::judgements::{
    aborted, accepted, decided, height_span, mixed_engine_blocks, preview_change,
    previews_a_transfer, rejected, single_shard_tx, stake_withdraw_drops_effective_stake,
    vm_abort_floor_settles_on_deadline, vm_delegation_folds_into_beacon_state, vm_hot_recipient,
    vm_nullifier_race_admits_exactly_one, vm_single_transfer, vm_vault_balance, withdraw_amounts,
    RaceReport, TransactionDecision, TransactionStatus, DELEGATION,
};
use hyperscale::engine::preview::{PreviewOutcome, PreviewReport, ResourceChange};
use hyperscale::scenarios::storm::{storm_metadata, vm_storm_artifact, vm_storm_plan};
use hyperscale::scenarios::straddle::{
    contention_genesis_balances, contention_recipient, contention_sender, halt_straddler_legs,
    merge_straddler_legs, merge_vote_payer, merge_vote_payer_account, register,
    split_straddler_legs, vm_world_accounts, witness_genesis_balances, MERGE_VOTE_PAYER_SEED,
};
use hyperscale::text::decimal_text;
use hyperscale::shard::{ShardId, ShardTrie};
use hyperscale::time::Duration;
use hyperscale::types::SubstateKey;

const VALIDITY: TimestampRange = TimestampRange { start_ms: 5, end_ms: 9 };

fn tree_of(vm: &VmTransaction) -> hyperscale::bridge::envelope::EnvelopeTree {
    let VmBody::Call(bytes) = &vm.body else {
        panic!("a call carries a tree");
    };
    decode_tree(bytes).expect("the tree decodes")
}

#[test]
fn a_transfer_withdraws_and_deposits_what_it_withdrew() {
    let payer = signer_from_seed(7);
    let (from, to) = (vm_account_from_seed(7), vm_account_from_seed(8));
    let vm = build_vm_transfer_tx(&payer, from, to, 40, VALIDITY);
    assert_eq!(vm.fee_payer, vm_account_address(&payer.public_key()));
    assert_eq!(vm.signer, [0; 32], "it is yet to be signed");
    assert_eq!((vm.max_fee, vm.gas_limit), (VM_MAX_FEE, VM_GAS_LIMIT));
    assert_eq!((vm.validity_start_ms, vm.validity_end_ms), (5, 9));
    let nodes = tree_of(&vm).root.graph.nodes;
    assert_eq!(nodes.len(), 2);
    assert_eq!((nodes[0].target, nodes[0].method.as_str()), (from, "withdraw"));
    assert_eq!(
        nodes[0].args,
        vec![
            GraphArg::Literal(Value::Address(VM_XRD)),
            GraphArg::Literal(Value::U128(40))
        ]
    );
    assert_eq!((nodes[1].target, nodes[1].method.as_str()), (to, "deposit"));
    let GraphArg::Edge { edge, constraints } = &nodes[1].args[0] else {
        panic!("the deposit is fed");
    };
    assert_eq!((edge.producer, edge.output), (0, 0));
    assert_eq!(*constraints, vec![Constraint::ResourceIs(VM_XRD)]);
}

#[test]
fn a_fan_out_pays_each_recipient_another_amount() {
    let payer = signer_from_seed(7);
    let from = vm_account_from_seed(7);
    let to = [vm_account_from_seed(8), vm_account_from_seed(9)];
    let vm = build_vm_fan_out_tx(&payer, from, &to, 10, VALIDITY);
    let nodes = tree_of(&vm).root.graph.nodes;
    assert_eq!(nodes.len(), 4);
    assert_eq!(nodes[2].args[1], GraphArg::Literal(Value::U128(11)));
    assert_eq!(nodes[3].target, to[1]);
}

#[test]
fn a_composition_carries_its_signers_consent() {
    let (composer, signer) = (signer_from_seed(7), signer_from_seed(9));
    let request = vm_payment_request(vm_account_from_seed(9), 25);
    let vm = build_vm_composed_tx(
        &composer,
        vm_account_from_seed(7),
        &signer,
        request,
        &[3; 32],
        25,
        VALIDITY,
    )
    .unwrap();
    assert_eq!(vm.subintent_sigs.len(), 1);
    assert_eq!(vm.subintent_sigs[0].public_key, signer.public_key());
    assert_eq!(vm.subintent_sigs[0].signature, signer.sign(&[3; 32]));
    let tree = tree_of(&vm);
    assert_eq!(tree.subintents.len(), 1);
    assert_eq!(tree.subintents[0].signer, vm_account_from_seed(9));
}

#[test]
fn a_publish_carries_the_artifact_whole() {
    let payer = signer_from_seed(7);
    let vm = build_vm_publish_tx(&payer, vec![1, 2, 3], VALIDITY);
    assert_eq!(vm.artifact(), Some(&vec![1, 2, 3]));
    assert_eq!(vm.call_tree(), None);
    assert_eq!(vm.max_fee, VM_PUBLISH_MAX_FEE);
}

fn cell_key(role: CellRole) -> SubstateKey {
    match role {
        CellRole::Vault { owner, resource } => SubstateKey { owner, local: resource },
        CellRole::Entropy { owner } => SubstateKey { owner, local: [1; 16] },
        CellRole::Validator { owner, .. } => SubstateKey { owner, local: [2; 16] },
        CellRole::Package { owner, .. } => SubstateKey { owner, local: [3; 16] },
    }
}

#[test]
fn a_stake_ends_in_the_delegators_units() {
    let (key, account) = vm_delegator();
    let vm = build_vm_stake_tx(&key, account, VM_STAKE_POOL, 5, VALIDITY, &cell_key);
    let nodes = tree_of(&vm).root.graph.nodes;
    assert_eq!(nodes.len(), 3);
    assert_eq!(nodes[1].target, VM_STAKE_POOL);
    assert_eq!(nodes[1].method, "stake");
    assert_eq!(nodes[2].target, account);
    let GraphArg::Edge { constraints, .. } = &nodes[2].args[0] else {
        panic!("the deposit is fed");
    };
    assert_eq!(
        *constraints,
        vec![Constraint::ResourceIs(stake_unit(VM_STAKE_POOL, &cell_key))]
    );
}

#[test]
fn a_registration_names_the_validator_and_its_keys() {
    let (key, _) = vm_delegator();
    let vm = build_vm_register_tx(
        &key,
        VM_STAKE_POOL,
        12,
        &ConsensusPublicKey::new([4; 48]),
        &ConsensusSignature::new([5; 96]),
        VALIDITY,
    );
    let nodes = tree_of(&vm).root.graph.nodes;
    assert_eq!(nodes.len(), 1);
    assert_eq!(nodes[0].target, VM_STAKE_POOL);
    assert_eq!(nodes[0].args[0], GraphArg::Literal(Value::U64(12)));
    assert_eq!(nodes[0].args[1], GraphArg::Literal(Value::Bytes(vec![4; 48])));
}

#[test]
fn a_probe_pays_between_known_accounts() {
    let vm = build_probe_transfer_tx(VALIDITY);
    let nodes = tree_of(&vm).root.graph.nodes;
    assert_eq!(nodes[0].args[1], GraphArg::Literal(Value::U128(PROBE_PAYMENT)));
    let around = validity_around(Duration::from_millis(1_000_000));
    assert!(around.start_ms <= 1_000_000 && 1_000_000 < around.end_ms);
    assert_eq!(vm_staking_pools()[0].address, VM_STAKE_POOL);
}

#[test]
fn accounts_are_drawn_on_the_shard_asked_for() {
    let mut taken = Vec::new();
    let plan = [(ShardId::leaf(1, 0), 2), (ShardId::leaf(1, 1), 2), (ShardId::leaf(1, 0), 2)];
    let drawn = draw_all(&plan, &mut taken).unwrap();
    assert_eq!(drawn.len(), 3);
    let trie = ShardTrie::uniform(1);
    for ((key, account), (shard, _)) in drawn.iter().zip(&plan) {
        assert_eq!(trie.shard_for_prefix(account), *shard);
        assert_eq!(vm_account_address(&key.public_key()), *account);
    }
    let accounts: BTreeSet<[u8; 16]> = drawn.iter().map(|(_, a)| *a).collect();
    assert_eq!(accounts.len(), 3, "every draw is fresh");
    assert_eq!(taken.len(), 3);
    let before = taken.len();
    assert!(vm_account_routing_to_n(ShardId::leaf(1, 0), 3, &mut taken).is_none());
    assert_eq!(taken.len(), before);
}

#[test]
fn seeds_name_distinct_preallocated_accounts() {
    let node = account_from_seed(7);
    assert_eq!(node.len(), 30);
    assert_ne!(node, account_from_seed(8));
    assert_ne!(node[..], signer_from_seed(7).public_key()[..30]);
    assert_eq!(merge_vote_payer_account(), account_from_seed(MERGE_VOTE_PAYER_SEED));
    assert_eq!(
        merge_vote_payer().public_key(),
        signer_from_seed(MERGE_VOTE_PAYER_SEED).public_key()
    );
}

#[test]
fn ballast_routes_as_its_plan_says() {
    let routes: Vec<ShardId> = (0..256u64).map(|n| ShardId::leaf(1, n % 2)).collect();
    let left = ShardId::leaf(1, 0);
    let mut taken = Vec::new();
    let (_, first) = account_in_n(left, &routes, &mut taken).unwrap();
    let picked = accounts_routing_to(left, &routes, 2, &mut taken).unwrap();
    assert_eq!(taken.len(), 3);
    assert!(taken.iter().all(|seed| routes[*seed as usize] == left));
    assert!(picked.iter().all(|(_, node)| *node != first));

    let mut plan = Vec::new();
    push_shard(&mut plan, left, 2);
    assert_eq!(plan, vec![left, left]);
    let mut balances = Vec::new();
    assert!(ballast(&plan, &routes, &mut taken, &mut balances));
    assert_eq!(balances.len(), 2);
    assert!(balances.iter().all(|(_, tokens)| *tokens == BALLAST_TOKENS));
    let mut bulk = Vec::new();
    assert!(bulk_fund_into(left, &routes, 4, &mut bulk));
    assert_eq!(bulk.len(), 4);
}

#[test]
fn a_livelock_pair_straddles_the_shards() {
    let pair = vm_livelock_pair().unwrap();
    let trie = ShardTrie::uniform(1);
    assert_ne!(trie.shard_for_prefix(&pair[0].1), trie.shard_for_prefix(&pair[1].1));
    assert_eq!(vm_account_shard(&pair[0].1, 2), Some(trie.shard_for_prefix(&pair[0].1)));
    assert_eq!(vm_account_shard(&pair[0].1, 3), None);
    let (_, from, to) = vm_cross_shard_cast().unwrap();
    assert_ne!(trie.shard_for_prefix(&from), trie.shard_for_prefix(&to));
    assert!(!vm_storm_publishers().unwrap().is_empty());
    let cast = cross_shard_fault_cast().unwrap();
    assert_ne!(trie.shard_for_prefix(&cast.left.1), trie.shard_for_prefix(&cast.right.1));
}

#[test]
fn funding_covers_what_its_scenario_spends() {
    assert!(TERMINATING_PAYER_FUNDING >= VM_MAX_FEE && TERMINATING_PAYER_FUNDING < 2 * VM_MAX_FEE);
    assert_eq!(VM_DELEGATOR_FUNDING, 40 * MIN_STAKE_FLOOR);
    assert!(DUST < VM_MAX_FEE);
    let accounts = vm_genesis_accounts(2, 3);
    assert_eq!(accounts.len(), 5);
    assert_eq!(accounts[0].0, vm_sender(0).1);
    assert_eq!(accounts[4].0, vm_recipient(2));
    let funded = vm_cross_shard_genesis_accounts().unwrap();
    assert!(funded.iter().any(|(_, amount)| *amount == PAYER_FUNDING));
    let insolvent = vm_insolvent_genesis_accounts().unwrap();
    assert!(insolvent.iter().any(|(_, amount)| *amount == DUST));
    assert!(vm_staking_genesis_accounts().iter().any(|(a, _)| *a == vm_delegator().1));
    assert!(vm_participant_sweep_accounts(4).is_some());
    assert!(vm_cross_fraction_genesis_accounts(4).is_some());
    let (first, second, _) = vm_nullifier_race_cast();
    assert_ne!(first.public_key(), second.public_key());
}

#[test]
fn contention_balances_list_senders_then_recipients() {
    let balances = contention_genesis_balances(2, 1);
    assert_eq!(balances.len(), 3);
    assert_eq!(balances[0].0, contention_sender(0).1);
    assert_eq!(balances[2].0, contention_recipient(0));
    assert_eq!(witness_genesis_balances().len(), 1);
}

#[test]
fn straddlers_pay_across_the_boundary_that_moves() {
    let split = split_straddler_legs().unwrap();
    assert!(!split.straddlers.is_empty());
    assert!(split
        .straddlers
        .iter()
        .all(|(_, from, _)| split.vm_accounts.iter().any(|(a, _)| a == from)));
    assert!(!merge_straddler_legs().unwrap().straddlers.is_empty());
    assert!(!halt_straddler_legs().unwrap().post_recovery.is_empty());
}

#[test]
fn the_world_registers_each_account_once() {
    let a = vm_account_from_seed(1);
    let b = vm_account_from_seed(2);
    let list = register(&vec![(b, 1), (a, 2), (b, 3)]);
    assert_eq!(list.len(), 2);
    let world = vm_world_accounts().unwrap();
    let distinct: BTreeSet<[u8; 16]> = world.iter().map(|(a, _)| *a).collect();
    assert_eq!(distinct.len(), world.len());
    assert!(distinct.contains(&vm_sender(0).1));
}

#[test]
fn a_storm_has_its_steps_publisher_by_publisher() {
    let plan = vm_storm_plan();
    assert_eq!(plan.len(), 12);
    assert_eq!((plan[0].publisher, plan[0].nonce, plan[0].shard), (0, 0, ShardId::leaf(1, 0)));
    assert_eq!((plan[5].publisher, plan[5].nonce), (0, 5));
    assert_eq!((plan[6].publisher, plan[6].nonce, plan[6].shard), (1, 1_000, ShardId::leaf(1, 1)));
    assert_eq!(plan[11].nonce, 1_005);
    let nonces: BTreeSet<u16> = plan.iter().map(|step| step.nonce).collect();
    assert_eq!(nonces.len(), plan.len());
}

#[test]
fn storm_packages_differ_by_their_nonce() {
    assert_eq!(decimal_text(0), "0");
    assert_eq!(decimal_text(65_535), "65535");
    let base = || {
        let mut metadata = PackageMetadata::default();
        metadata.insert_method("ping".into(), MethodSignature::default());
        metadata
    };
    let lim = MetadataLimits {
        max_bytes: 65_536,
        max_event_types: 64,
        max_clause_depth: 4,
        max_expr_depth: 8,
        max_value_depth: 8,
        max_effects: 128,
    };
    let component = b"\0asm\x0d\0\x01\0".to_vec();
    let one = vm_storm_artifact(&component, base(), 1, &lim).unwrap();
    let two = vm_storm_artifact(&component, base(), 2, &lim).unwrap();
    assert_ne!(one, two);
    assert_eq!(extract_metadata(&one, &lim).unwrap(), Some(storm_metadata(base(), 1)));
}

const YES: Option<TransactionStatus> =
    Some(TransactionStatus::Completed(TransactionDecision::Accept));
const NO: Option<TransactionStatus> =
    Some(TransactionStatus::Completed(TransactionDecision::Reject));
const GONE: Option<TransactionStatus> =
    Some(TransactionStatus::Completed(TransactionDecision::Aborted));

#[test]
fn statuses_are_judged_by_their_decision() {
    assert!(accepted(YES) && !accepted(NO) && !accepted(None));
    assert!(rejected(NO) && aborted(GONE));
    assert!(decided(GONE) && !decided(Some(TransactionStatus::Pending)));
    assert!(mixed_engine_blocks(&vec![YES, YES]));
    assert!(!mixed_engine_blocks(&vec![YES, NO]));
    assert!(single_shard_tx(YES, true) && !single_shard_tx(YES, false));
    assert!(vm_single_transfer(YES, true, &None, &Some([1; 32])));
    assert!(!vm_single_transfer(YES, true, &Some([1; 32]), &Some([1; 32])));
}

#[test]
fn a_race_has_one_winner_and_one_floor_paid() {
    let report = RaceReport {
        first: YES,
        second: GONE,
        first_vault: (1_000, 870),
        second_vault: (1_000, 900),
        requester_vault: (0, 25),
        floor: 100,
    };
    assert!(vm_nullifier_race_admits_exactly_one(&report, 25));
    assert!(!vm_nullifier_race_admits_exactly_one(&RaceReport { second: YES, ..report }, 25));
    assert!(!vm_nullifier_race_admits_exactly_one(&RaceReport { floor: 99, ..report }, 25));
}

#[test]
fn a_hot_recipient_is_paid_once_a_block() {
    assert!(vm_hot_recipient(&vec![3, 5, 4], 10, 310, 3, 100));
    assert!(!vm_hot_recipient(&vec![3, 5, 3], 10, 310, 3, 100));
    assert!(!vm_hot_recipient(&vec![3, 5, 4], 10, 210, 3, 100));
    assert_eq!(height_span(&vec![3, 9, 5]), 7);
}

#[test]
fn a_preview_is_judged_by_what_each_vault_would_hold() {
    let key = |owner: u8| SubstateKey { owner: [owner; 16], local: [1; 16] };
    let report = |sender_after: u128| PreviewReport {
        outcome: PreviewOutcome::Completed,
        fee: 10,
        changes: vec![
            ResourceChange {
                key: key(1),
                before: 1_000,
                after: sender_after,
                credit: 0,
                debit: 0,
                settled: 100,
            },
            ResourceChange {
                key: key(2),
                before: 50,
                after: 150,
                credit: 100,
                debit: 0,
                settled: 0,
            },
        ],
    };
    assert_eq!(preview_change(&report(890), &key(2)).map(|c| c.after), Some(150));
    assert!(preview_change(&report(890), &key(3)).is_none());
    assert!(previews_a_transfer(&report(890), &report(900), &key(1), &key(2), 1_000, 50, 100));
    assert!(!previews_a_transfer(&report(890), &report(890), &key(1), &key(2), 1_000, 50, 100));
}

#[test]
fn stake_is_judged_by_what_the_beacon_folds() {
    assert!(vm_delegation_folds_into_beacon_state(None, YES, Some(DELEGATION)));
    assert!(!vm_delegation_folds_into_beacon_state(Some(0), YES, Some(DELEGATION)));
    let (delegated, returned) = withdraw_amounts();
    assert_eq!((delegated, returned), (5 * MIN_STAKE_FLOOR, 2 * MIN_STAKE_FLOOR));
    assert!(stake_withdraw_drops_effective_stake(
        delegated,
        returned,
        Some(3 * MIN_STAKE_FLOOR),
        Some(delegated)
    ));
    assert_eq!(vm_vault_balance(&Some(7u128.to_le_bytes().to_vec())), Some(7));
    assert_eq!(vm_vault_balance(&None), Some(0));
}

#[test]
fn an_abort_on_deadline_costs_its_floor() {
    let judge = |after: u128| {
        vm_abort_floor_settles_on_deadline(true, GONE, 2, 3, None, 1_000, after, 100)
    };
    assert!(judge(900));
    assert!(!judge(899));
}
