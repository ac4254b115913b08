use hyperscale::bridge::account::vm_account_address;
use hyperscale::bridge::envelope::{decode_tree, GraphArg, ManifestGraph};
use hyperscale::bridge::roles::CellRole;
use hyperscale::bridge::statics::{VmBody, VmTransaction};
use hyperscale::bridge::value::Value;
use hyperscale::crypto::ed25519::Ed25519PrivateKey;
use hyperscale::engine::genesis::stake_unit;
use hyperscale::scenarios::ballast::{
    account_from_seed, account_routing_to, BALLAST_TOKENS, PAYER_TOKENS,
};
use hyperscale::scenarios::cast::{signer_from_seed, vm_account_from_seed};
use hyperscale::scenarios::envelopes::{
    build_reshape_threshold_vote_tx, build_vm_deactivate_tx, build_vm_operator_tx,
    build_vm_stamp_tx, build_vm_unstake_tx, vm_envelope, vm_staking_pools, vm_world_pools,
    TimestampRange, VM_GENESIS_POOL, VM_STAKE_POOL,
};
use hyperscale::scenarios::funding::{
    cross_shard_fault_genesis_accounts, vm_account_routing_to, vm_account_shard,
    vm_accounts_routing_to, vm_cross_shard_keys, vm_livelock_genesis_accounts,
    vm_nullifier_race_genesis_accounts, vm_participant_sweep_genesis_accounts, vm_pool_operator,
    vm_storm_genesis_accounts, DUST, OPERATOR_SEED, PAYER_FUNDING, VM_STORM_FUNDING,
};
use hyperscale::scenarios::straddle::{
    cross_contention_genesis_balances, halt_recovery_genesis_balances, halt_straddler_setup,
    intershard_partition_genesis_balances, merge_straddler_setup, merge_vote_payer_account,
    split_straddler_setup, straddler_genesis_balances, witness_payer,
};
use hyperscale::shard::ShardId;
use hyperscale::types::SubstateKey;

const VALIDITY: TimestampRange = TimestampRange { start_ms: 5, end_ms: 9 };

fn nodes_of(vm: &VmTransaction) -> Vec<hyperscale::bridge::envelope::GraphNode> {
    let VmBody::Call(bytes) = &vm.body else {
        panic!("a call carries a tree");
    };
    decode_tree(bytes).expect("the tree decodes").root.graph.nodes
}

fn cell_key(role: CellRole) -> SubstateKey {
    match role {
        CellRole::Vault { owner, resource } => SubstateKey { owner, local: resource },
        CellRole::Entropy { owner } => SubstateKey { owner, local: [1; 16] },
        CellRole::Validator { owner, .. } => SubstateKey { owner, local: [2; 16] },
        CellRole::Package { owner, .. } => SubstateKey { owner, local: [3; 16] },
    }
}

#[test]
fn a_return_of_stake_feeds_its_units_to_the_pool() {
    let (key, account) = (signer_from_seed(9), vm_account_from_seed(9));
    let vm = build_vm_unstake_tx(&key, account, VM_STAKE_POOL, 5, VALIDITY, &cell_key);
    let nodes = nodes_of(&vm);
    assert_eq!(nodes.len(), 2);
    assert_eq!((nodes[0].target, nodes[0].method.as_str()), (account, "withdraw"));
    assert_eq!(
        nodes[0].args[0],
        GraphArg::Literal(Value::Address(stake_unit(VM_STAKE_POOL, &cell_key)))
    );
    assert_eq!((nodes[1].target, nodes[1].method.as_str()), (VM_STAKE_POOL, "unstake"));
}

#[test]
fn an_operator_acts_on_its_pool_without_funds() {
    let (key, _) = vm_pool_operator();
    let vm = build_vm_deactivate_tx(&key, VM_STAKE_POOL, 12, VALIDITY);
    let nodes = nodes_of(&vm);
    assert_eq!(nodes.len(), 1);
    assert_eq!(nodes[0].method, "deactivate-validator");
    assert_eq!(nodes[0].args, vec![GraphArg::Literal(Value::U64(12))]);
    let vote = build_reshape_threshold_vote_tx(&key, 1, 2, 3, VALIDITY);
    let nodes = nodes_of(&vote);
    assert_eq!((nodes[0].target, nodes[0].method.as_str()), (VM_GENESIS_POOL, "cast-param-vote"));
    assert_eq!(
        nodes[0].args,
        vec![
            GraphArg::Literal(Value::U64(1)),
            GraphArg::Literal(Value::U64(2)),
            GraphArg::Literal(Value::U64(3)),
        ]
    );
    let free = build_vm_operator_tx(&key, VM_STAKE_POOL, "anything", vec![], VALIDITY).unwrap();
    assert_eq!(nodes_of(&free)[0].method, "anything");
    assert_eq!(free.fee_payer, vm_account_from_seed(OPERATOR_SEED));
}

#[test]
fn a_value_too_deep_for_the_wire_makes_no_envelope() {
    let mut value = Value::U64(1);
    for _ in 0..80 {
        value = Value::Tuple(vec![value]);
    }
    let (key, _) = vm_pool_operator();
    let args = vec![GraphArg::Literal(value)];
    assert!(build_vm_operator_tx(&key, VM_STAKE_POOL, "deep", args, VALIDITY).is_none());
    assert!(vm_envelope(ManifestGraph { nodes: vec![] }, &key, VALIDITY).is_some());
}

#[test]
fn a_stamp_is_consented_to_by_the_other_account() {
    let (payer, right) = (signer_from_seed(9), signer_from_seed(10));
    let vm = build_vm_stamp_tx(&payer, vm_account_from_seed(9), &right, &[7; 32], VALIDITY);
    let VmBody::Call(bytes) = &vm.body else {
        panic!("a call carries a tree");
    };
    let tree = decode_tree(bytes).unwrap();
    assert_eq!(tree.root.graph.nodes[0].method, "stamp-entropy");
    assert_eq!(tree.subintents.len(), 1);
    assert_eq!(tree.subintents[0].signer, vm_account_from_seed(10));
    assert_eq!(vm.subintent_sigs.len(), 1);
    assert_eq!(vm.subintent_sigs[0].public_key, right.public_key());
    assert_eq!(vm.subintent_sigs[0].signature, right.sign(&[7; 32]));
}

#[test]
fn every_cluster_recognises_the_staking_pools() {
    let world: Vec<[u8; 16]> = vm_world_pools().iter().map(|p| p.address).collect();
    let staking: Vec<[u8; 16]> = vm_staking_pools().iter().map(|p| p.address).collect();
    assert_eq!(world, staking);
    assert!(world.contains(&VM_STAKE_POOL) && world.contains(&VM_GENESIS_POOL));
}

fn lists(funding: &[([u8; 16], u128)], amounts: &[u128]) -> bool {
    funding.iter().map(|(_, amount)| *amount).collect::<Vec<_>>() == amounts
}

#[test]
fn each_scenario_funds_the_accounts_it_uses() {
    let (payer, left, other, right) = vm_cross_shard_keys().unwrap();
    assert_eq!(left, vm_account_address(&payer.public_key()));
    assert_eq!(right, vm_account_address(&other.public_key()));
    assert_eq!(vm_account_shard(&left, 2), Some(ShardId::leaf(1, 0)));
    assert_eq!(vm_account_shard(&right, 2), Some(ShardId::leaf(1, 1)));
    let livelock = vm_livelock_genesis_accounts().unwrap();
    assert_eq!((livelock[0].0, livelock[1].0), (left, right));
    assert!(lists(&livelock, &[PAYER_FUNDING, PAYER_FUNDING]));
    let storm = vm_storm_genesis_accounts().unwrap();
    assert!(lists(&storm, &[VM_STORM_FUNDING, VM_STORM_FUNDING]));
    let sweep = vm_participant_sweep_genesis_accounts(4).unwrap();
    assert!(sweep.iter().all(|(_, amount)| *amount == PAYER_FUNDING));
    assert!(lists(
        &vm_nullifier_race_genesis_accounts(),
        &[PAYER_FUNDING, PAYER_FUNDING, DUST]
    ));
    assert!(lists(
        &cross_shard_fault_genesis_accounts().unwrap(),
        &[PAYER_FUNDING, PAYER_FUNDING, PAYER_FUNDING, DUST, PAYER_FUNDING, DUST]
    ));
}

#[test]
fn drawn_accounts_never_repeat() {
    let mut taken = Vec::new();
    let first = vm_accounts_routing_to(ShardId::leaf(1, 0), 2, 3, &mut taken).unwrap();
    let next = vm_account_routing_to(ShardId::leaf(1, 0), &mut taken).unwrap();
    assert_eq!(taken.len(), 4);
    assert!(first.iter().all(|(_, address)| *address != next.1));
}

fn routes(depth: u32, leaves: u64, count: u64) -> Vec<ShardId> {
    (0..count).map(|seed| ShardId::leaf(depth, seed % leaves)).collect()
}

#[test]
fn fixed_balances_name_their_seeds() {
    assert_eq!(
        straddler_genesis_balances(),
        vec![(account_from_seed(31), BALLAST_TOKENS), (account_from_seed(30), BALLAST_TOKENS)]
    );
    let partition = intershard_partition_genesis_balances();
    assert_eq!(partition.len(), 4);
    assert_eq!(partition[3].0, account_from_seed(41));
    assert_eq!(witness_payer().public_key(), signer_from_seed(42).public_key());
}

#[test]
fn crossing_contention_ballasts_the_left_child() {
    let routes = routes(1, 2, 256);
    let list = cross_contention_genesis_balances(3, &routes).unwrap();
    assert_eq!(list.len(), 3);
    assert!(list.iter().all(|(_, tokens)| *tokens == BALLAST_TOKENS));
    assert!(cross_contention_genesis_balances(3, &[]).is_none());
    let (_, node): (Ed25519PrivateKey, [u8; 30]) =
        account_routing_to(ShardId::leaf(1, 0), &routes).unwrap();
    assert_eq!(list[0].0, node);
}

#[test]
fn a_recovery_ballasts_both_children_alike() {
    let list = halt_recovery_genesis_balances(&routes(1, 2, 64)).unwrap();
    assert_eq!(list.len(), 41);
    assert_eq!(list[0], (merge_vote_payer_account(), PAYER_TOKENS));
    assert!(halt_recovery_genesis_balances(&routes(1, 2, 20)).is_none());
}

#[test]
fn reshapes_are_funded_on_both_sides_of_the_boundary() {
    let two = routes(1, 2, 256);
    let split = split_straddler_setup(&two).unwrap();
    assert_eq!(split.balances.len(), 1 + 20 + 8 + 8);
    assert_eq!(split.balances[0], (merge_vote_payer_account(), PAYER_TOKENS));
    assert_eq!(split.legs.straddlers.len(), 8);
    let halt = halt_straddler_setup(&two, &routes(1, 2, 64)).unwrap();
    assert_eq!(halt.balances.len(), 41 + 22);
    assert_eq!(halt.legs.post_recovery.len(), 2);
    let merge = merge_straddler_setup(&routes(2, 4, 256), &routes(2, 4, 2_400)).unwrap();
    assert_eq!(merge.balances.len(), 1 + 500 + 8);
    assert_eq!(merge.legs.straddlers.len(), 4);
    assert!(merge_straddler_setup(&routes(2, 4, 256), &routes(2, 4, 40)).is_none());
}
