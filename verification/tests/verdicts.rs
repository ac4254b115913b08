use hyperscale::scenarios::judgements::{
    cross_shard_tx, livelock_resolves_promptly, pool_capacity_caps_registrations,
    re_registration_of_a_live_validator_is_a_no_op, register_validator_pools_a_node,
    register_without_capacity_is_rejected, registered_validator_activates_onto_a_shard,
    vm_a_failed_attempt_still_attests_work, vm_abort_converges,
    vm_attested_load_reaches_the_beacon, vm_cross_shard_transfer, vm_deploy_storm_rides_out,
    vm_events_land_on_their_emitters_home_shard, vm_failure_charges_its_payer,
    vm_insolvent_payer_engages_nothing, vm_preview_reports_resource_changes,
    vm_randomness_draw_agrees_across_shards, vm_reads_the_committed_baseline,
    withdrawal_ejects_a_validator_that_a_deposit_reactivates, StormPublish, TransactionDecision,
    TransactionStatus, ValidatorStatus,
};
use hyperscale::types::SubstateKey;

const YES: Option<TransactionStatus> =
    Some(TransactionStatus::Completed(TransactionDecision::Accept));
const NO: Option<TransactionStatus> =
    Some(TransactionStatus::Completed(TransactionDecision::Reject));
const GONE: Option<TransactionStatus> =
    Some(TransactionStatus::Completed(TransactionDecision::Aborted));
const OPEN: Option<TransactionStatus> = Some(TransactionStatus::Pending);

#[test]
fn a_livelock_resolves_whichever_way_it_is_decided() {
    assert!(livelock_resolves_promptly(YES, GONE, YES));
    assert!(livelock_resolves_promptly(NO, GONE, YES));
    assert!(!livelock_resolves_promptly(YES, OPEN, YES));
    assert!(!livelock_resolves_promptly(YES, GONE, GONE));
    assert!(cross_shard_tx(YES) && !cross_shard_tx(OPEN));
}

#[test]
fn an_abort_leaves_the_next_transfer_alone() {
    assert!(vm_abort_converges(NO, YES));
    assert!(!vm_abort_converges(GONE, YES));
    assert!(vm_failure_charges_its_payer(NO, 1_000, 900, 100, YES));
    assert!(!vm_failure_charges_its_payer(NO, 1_000, 900, 101, YES));
    assert!(vm_a_failed_attempt_still_attests_work(NO, 3, Some(4)));
    assert!(!vm_a_failed_attempt_still_attests_work(NO, 3, Some(3)));
}

#[test]
fn a_dependent_transfer_commits_later() {
    assert!(vm_reads_the_committed_baseline(YES, YES, Some(3), Some(4)));
    assert!(!vm_reads_the_committed_baseline(YES, YES, Some(3), Some(3)));
    assert!(!vm_reads_the_committed_baseline(YES, YES, None, Some(3)));
}

#[test]
fn a_crossing_is_carried_and_emitted_on_both_sides() {
    assert!(vm_cross_shard_transfer(YES, Some(1), Some(2)));
    assert!(!vm_cross_shard_transfer(YES, Some(1), None));
    let (from, to) = ([1u8; 16], [2u8; 16]);
    let judge = vm_events_land_on_their_emitters_home_shard;
    assert!(judge(YES, &vec![from], &vec![to], &from, &to));
    assert!(!judge(YES, &vec![from, to], &vec![to], &from, &to));
    assert!(!judge(YES, &vec![to], &vec![from], &from, &to));
}

#[test]
fn load_is_attested_by_both_shards_and_holds_still() {
    let judge = vm_attested_load_reaches_the_beacon;
    let bytes = (Some(7), Some(8));
    assert!(judge(YES, Some(1), Some(2), bytes, bytes));
    assert!(!judge(YES, Some(1), Some(0), bytes, bytes));
    assert!(!judge(YES, Some(1), Some(2), bytes, (Some(7), Some(9))));
}

#[test]
fn shards_stamp_one_draw() {
    let judge = vm_randomness_draw_agrees_across_shards;
    assert!(judge(YES, Some(1), Some(2), &vec![5; 32], &vec![5; 32]));
    assert!(!judge(YES, Some(1), Some(2), &vec![5; 32], &vec![6; 32]));
    assert!(!judge(YES, Some(1), Some(2), &vec![5; 31], &vec![5; 31]));
}

#[test]
fn an_insolvent_payer_is_never_carried() {
    assert!(vm_insolvent_payer_engages_nothing(true, true, None, None, None));
    assert!(vm_insolvent_payer_engages_nothing(true, true, OPEN, None, None));
    assert!(!vm_insolvent_payer_engages_nothing(true, true, GONE, None, None));
    assert!(!vm_insolvent_payer_engages_nothing(true, true, None, Some(1), None));
}

#[test]
fn a_preview_commits_nothing_itself() {
    let judge = |known: bool, carried: bool, sender: (u128, u128)| {
        vm_preview_reports_resource_changes(true, known, carried, true, YES, sender, (3, 3))
    };
    assert!(judge(false, false, (5, 5)));
    assert!(!judge(true, false, (5, 5)));
    assert!(!judge(false, true, (5, 5)));
    assert!(!judge(false, false, (5, 4)));
}

#[test]
fn a_storm_deploys_a_package_for_each_publish() {
    let publish = |local: u8, held: bool| StormPublish {
        status: YES,
        height: Some(4),
        cell: SubstateKey { owner: [1; 16], local: [local; 16] },
        held,
    };
    let judge = |list: Vec<StormPublish>, after: u64| {
        vm_deploy_storm_rides_out(&list, (Some(3), None), (Some(after), Some(1)))
    };
    assert!(judge(vec![publish(1, true), publish(2, true)], 4));
    assert!(!judge(vec![publish(1, true), publish(1, true)], 4));
    assert!(!judge(vec![publish(1, true), publish(2, false)], 4));
    assert!(!judge(vec![publish(1, true), publish(2, true)], 3));
}

#[test]
fn validators_are_judged_by_where_they_stand() {
    let pooled = Some(ValidatorStatus::Pooled);
    let seated = Some(ValidatorStatus::OnShard);
    let ejected = Some(ValidatorStatus::InsufficientStake);
    assert!(register_validator_pools_a_node(true, pooled));
    assert!(!register_validator_pools_a_node(true, seated));
    assert!(register_without_capacity_is_rejected(true, None));
    assert!(!register_without_capacity_is_rejected(true, ejected));
    assert!(registered_validator_activates_onto_a_shard(true, pooled, seated));
    assert!(!registered_validator_activates_onto_a_shard(true, pooled, pooled));
    let judge = withdrawal_ejects_a_validator_that_a_deposit_reactivates;
    assert!(judge(seated, ejected, pooled));
    assert!(!judge(seated, Some(ValidatorStatus::Retired), pooled));
    let keeps = |after: Option<[u8; 48]>| {
        re_registration_of_a_live_validator_is_a_no_op(true, &[1; 48], &Some([1; 48]), &after)
    };
    assert!(keeps(Some([1; 48])));
    assert!(!keeps(Some([2; 48])) && !keeps(None));
    let list = vec![pooled, None, seated, pooled];
    assert!(pool_capacity_caps_registrations(true, &list, 3));
    assert!(!pool_capacity_caps_registrations(true, &list, 4));
}
