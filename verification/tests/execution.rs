use hyperscale::crypto::role::ConsensusSignature;
use hyperscale::engine::executor::{
    batch_compute_cached, execute_cross_shard_batch, execute_wave_batch, fetch_state_entries,
    may_run, participating_shards, SlotStatus,
};
use hyperscale::engine::receipt::{
    AbortReason, CachedOutput, ConsensusReceipt, ExecutedTx, ExecutionMetadata,
};
use hyperscale::execution::actions::{
    handle_action, ActionStep, BatchAnchor, CrossShardExecutionRequest, ExecutionAction,
    ExecutionEvent, WorkReply,
};
use hyperscale::execution::outputs::split_execution_outputs;
use hyperscale::hash::Hash32;
use hyperscale::shard::{ShardId, ShardTrie};
use hyperscale::storage::updates::DatabaseUpdates;
use hyperscale::time::WeightedTimestamp;
use hyperscale::types::TxHash;

fn metadata(text: &str) -> ExecutionMetadata {
    ExecutionMetadata {
        total_execution_cost: Some(1),
        error: Some(AbortReason::Said(text.to_owned())),
    }
}

#[test]
fn entries_are_stored_under_their_spread_node_key() {
    let node = [7u8; 30];
    let entries =
        fetch_state_entries(&[node], &vec![Some(vec![(5, vec![1, 2], vec![9])])]).unwrap();
    assert_eq!(entries.len(), 1);
    let key = &entries[0].storage_key;
    assert_eq!(key.len(), 53);
    assert_eq!(&key[20..50], &node);
    assert_ne!(&key[..20], &[7u8; 20]);
    assert_eq!(&key[50..], &[5, 1, 2]);
    assert_eq!(entries[0].value, Some(vec![9]));
    assert_eq!(fetch_state_entries(&[node], &vec![None]), None);
}

#[test]
fn every_declared_node_names_its_shard() {
    let route = |node: [u8; 30]| ShardId::leaf(1, u64::from(node[0] >> 7));
    assert_eq!(
        participating_shards(&[[0x00; 30]], &[[0xFF; 30], [0x01; 30]], &route),
        vec![ShardId::leaf(1, 0), ShardId::leaf(1, 1), ShardId::leaf(1, 0)]
    );
}

#[test]
fn outputs_that_are_there_are_not_computed_again() {
    let statuses = vec![
        SlotStatus::Completed(10u64),
        SlotStatus::Claimed,
        SlotStatus::Pending(Some(12)),
        SlotStatus::Pending(None),
    ];
    let filled = batch_compute_cached(statuses, &|i: usize| 100 + i as u64);
    assert_eq!(filled, vec![(10, false), (101, true), (12, false), (103, true)]);
}

#[test]
fn a_conflicting_leg_fails_without_running() {
    let txs = vec![TxHash([1; 32]), TxHash([2; 32])];
    let trie = ShardTrie::single();
    let run = |_: usize| {
        CachedOutput::succeeded(
            DatabaseUpdates::new(),
            Hash32([5; 32]),
            ExecutionMetadata { total_execution_cost: Some(3), error: None },
            3,
            vec![],
            vec![],
        )
    };
    let statuses = || vec![SlotStatus::Claimed, SlotStatus::Claimed];
    let list = execute_cross_shard_batch(
        &txs,
        &vec![true, false],
        &metadata("conflict"),
        statuses(),
        &run,
        ShardId::root(),
        &trie,
    );
    assert_eq!(list[0].consensus, ConsensusReceipt::Failed);
    assert_eq!(list[0].metadata, metadata("conflict"));
    assert!(matches!(list[1].consensus, ConsensusReceipt::Succeeded { .. }));
    let list = execute_wave_batch(&txs, statuses(), &run, ShardId::root(), &trie);
    assert!(list.iter().all(|tx| matches!(tx.consensus, ConsensusReceipt::Succeeded { .. })));
}

#[test]
fn only_validated_transactions_run() {
    assert!(may_run(false, false, true));
    assert!(!may_run(false, false, false));
}

#[test]
fn outputs_split_into_votes_receipts_and_reserves() {
    let executed = vec![
        ExecutedTx {
            tx_hash: TxHash([1; 32]),
            consensus: ConsensusReceipt::Failed,
            metadata: metadata("no"),
            attested_work: 4,
            fee_receipt: Some(ConsensusReceipt::Failed),
        },
        ExecutedTx {
            tx_hash: TxHash([2; 32]),
            consensus: ConsensusReceipt::Succeeded {
                receipt_hash: Hash32([5; 32]),
                database_updates: DatabaseUpdates::new(),
                beacon_witness_events: vec![],
                events: vec![],
            },
            metadata: metadata("yes"),
            attested_work: 6,
            fee_receipt: None,
        },
    ];
    let out = split_execution_outputs(executed);
    assert_eq!(out.outcomes[0].receipt_hash, None);
    assert_eq!(out.outcomes[1].receipt_hash, Some(Hash32([5; 32])));
    assert_eq!(out.results.len(), 2);
    assert_eq!(out.fee_receipts.len(), 1);
    assert_eq!(out.fee_receipts[0].tx_hash, TxHash([1; 32]));
    assert_eq!(out.attested_work, vec![(TxHash([1; 32]), 4), (TxHash([2; 32]), 6)]);
}

type Action = ExecutionAction<&'static str, &'static str, &'static str, &'static str>;

fn at(millis: u64) -> WeightedTimestamp {
    WeightedTimestamp::from_millis(millis)
}

fn signature(made: bool) -> Option<ConsensusSignature> {
    if made {
        Some(ConsensusSignature::new([1; 96]))
    } else {
        None
    }
}

fn vote(me: u64, vote: Option<&'static str>, signed: bool) -> String {
    let shard = ShardId::leaf(1, 1);
    let mut action: Action = ExecutionAction::SignAndSendExecutionVote {
        block_hash: Hash32([3; 32]),
        block_height: 4,
        vote_anchor_ts: at(5),
        wave_id: Hash32([9; 32]),
        tx_outcomes: vec![],
        leader: 7,
    };
    let mut reply = WorkReply::VoteSigned(vote);
    loop {
        match handle_action(action, reply, shard, me) {
            ActionStep::Next(next) => {
                assert!(matches!(
                    &next,
                    ExecutionAction::SendExecutionVote { shard: s, vote: "v", leader: 7 }
                        if *s == shard
                ));
                action = next;
                reply = WorkReply::MessageSigned(signature(signed));
            }
            ActionStep::Notify(ExecutionEvent::VerifiedExecutionVoteReceived { vote }) => {
                return format!("fed back {vote}");
            }
            ActionStep::SendVote { to, vote, sender, signature } => {
                assert_eq!(signature.as_bytes(), &[1; 96]);
                return format!("{sender} sends {vote} to {to}");
            }
            ActionStep::Silent => return "silent".to_owned(),
            _ => panic!("a vote answers otherwise"),
        }
    }
}

#[test]
fn a_vote_goes_to_its_leader_and_nowhere_else() {
    assert_eq!(vote(7, Some("v"), true), "fed back v");
    assert_eq!(vote(7, Some("v"), false), "fed back v");
    assert_eq!(vote(3, Some("v"), true), "3 sends v to 7");
    assert_eq!(vote(3, Some("v"), false), "silent");
    assert_eq!(vote(3, None, true), "silent");
}

#[test]
fn an_executed_batch_tells_its_wave_what_it_came_to() {
    let executed = || {
        vec![ExecutedTx {
            tx_hash: TxHash([1; 32]),
            consensus: ConsensusReceipt::Failed,
            metadata: metadata("no"),
            attested_work: 4,
            fee_receipt: None,
        }]
    };
    let wave = Hash32([9; 32]);
    let anchor = BatchAnchor {
        block_hash: Hash32([3; 32]),
        block_height: 4,
        wave_start_ts: at(5),
        wave_start_reveal: Hash32([6; 32]),
    };
    let request = CrossShardExecutionRequest {
        transaction: "t",
        provisions: vec![],
        clock: at(5),
        randomness: Hash32([6; 32]),
    };
    let actions: Vec<Action> = vec![
        ExecutionAction::ExecuteTransactions { wave_id: wave, anchor, transactions: vec!["t"] },
        ExecutionAction::ExecuteCrossShardTransactions {
            wave_id: wave,
            anchor,
            requests: vec![request],
        },
    ];
    for action in actions {
        let reply = WorkReply::Executed(executed());
        let ActionStep::Notify(ExecutionEvent::ExecutionBatchCompleted { wave_id, outputs }) =
            handle_action(action, reply, ShardId::root(), 1)
        else {
            panic!("a batch answers by its event");
        };
        assert_eq!(wave_id, wave);
        assert_eq!(outputs.attested_work, vec![(TxHash([1; 32]), 4)]);
    }
}

#[test]
fn a_certificate_goes_to_every_recipient_once_it_is_signed() {
    let broadcast = |signed: bool| {
        let action: Action = ExecutionAction::BroadcastExecutionCertificate {
            certificate: "c",
            recipients: vec![2, 3],
        };
        handle_action(action, WorkReply::MessageSigned(signature(signed)), ShardId::root(), 5)
    };
    assert!(matches!(
        broadcast(true),
        ActionStep::SendCertificate { to, certificate: "c", sender: 5, .. } if to == vec![2, 3]
    ));
    assert!(matches!(broadcast(false), ActionStep::Silent));
}

#[test]
fn verifications_answer_by_their_event() {
    let wave = Hash32([9; 32]);
    let root = ShardId::root();
    let aggregate: Action = ExecutionAction::AggregateExecutionCertificate {
        wave_id: wave,
        global_receipt_root: Hash32([2; 32]),
        votes: vec!["v"],
        committee: vec![1, 2],
    };
    assert!(matches!(
        handle_action(aggregate, WorkReply::Aggregated("c"), root, 5),
        ActionStep::Notify(ExecutionEvent::ExecutionCertificateAggregated {
            wave_id,
            certificate: "c",
        }) if wave_id == wave
    ));
    let votes: Action = ExecutionAction::VerifyAndAggregateExecutionVotes {
        wave_id: wave,
        block_hash: Hash32([3; 32]),
        votes: vec!["v", "w"],
    };
    assert!(matches!(
        handle_action(votes, WorkReply::Verified(vec!["w"]), root, 5),
        ActionStep::Notify(ExecutionEvent::ExecutionVotesVerifiedAndAggregated {
            wave_id,
            block_hash,
            verified_votes,
        }) if wave_id == wave && block_hash == Hash32([3; 32]) && verified_votes == vec!["w"]
    ));
    let certificate: Action = ExecutionAction::VerifyExecutionCertificateSignature {
        certificate: "c",
        public_keys: vec![],
    };
    let fault = WorkReply::CertificateChecked(Err(("c", "no quorum".to_owned())));
    assert!(matches!(
        handle_action(certificate, fault, root, 5),
        ActionStep::Notify(ExecutionEvent::ExecutionCertificateSignatureVerified {
            result: Err(("c", why)),
        }) if why == "no quorum"
    ));
    let finalized: Action =
        ExecutionAction::VerifyFinalizedWave { wave: "w", ec_public_keys: vec![] };
    assert!(matches!(
        handle_action(finalized, WorkReply::WaveChecked(Ok("w")), root, 5),
        ActionStep::Notify(ExecutionEvent::FinalizedWaveVerified { result: Ok("w") })
    ));
}
