//! Execution's delegated actions: what each asks of the outside, and what it
//! comes to once the outside has replied.
use vstd::prelude::*;

use crate::crypto::role::{ConsensusPublicKey, ConsensusSignature};
use crate::engine::baseline::SubstateEntry;
use crate::engine::receipt::ExecutedTx;
use crate::execution::outputs::{split_execution_outputs, splits, ExecutionOutputs, TxOutcome};
use crate::hash::Hash32;
use crate::shard::ShardId;
use crate::time::WeightedTimestamp;

verus! {

/// The block that a batch runs at, and the clock and reveal that its wave
/// started with.
#[derive(Clone, Copy, Debug, PartialEq, Eq)]
pub struct BatchAnchor {
    /// The block.
    pub block_hash: Hash32,
    /// Its height.
    pub block_height: u64,
    /// The wave's clock.
    pub wave_start_ts: WeightedTimestamp,
    /// The wave's reveal.
    pub wave_start_reveal: Hash32,
}

/// One transaction of a batch that crosses shards.
pub struct CrossShardExecutionRequest<T> {
    /// The transaction.
    pub transaction: T,
    /// What other shards provisioned, one list for each.
    pub provisions: Vec<Vec<SubstateEntry>>,
    /// The payer's clock.
    pub clock: WeightedTimestamp,
    /// The payer's reveal.
    pub randomness: Hash32,
}

/// An action of execution's. Each carries what its outside work is handed:
/// `C` is a certificate, `V` a vote, `W` a finalized wave and `T` a
/// transaction.
pub enum ExecutionAction<C, V, W, T> {
    /// Aggregate votes into a certificate.
    AggregateExecutionCertificate {
        /// The wave.
        wave_id: Hash32,
        /// The root over its receipts.
        global_receipt_root: Hash32,
        /// The votes.
        votes: Vec<V>,
        /// Who votes.
        committee: Vec<u64>,
    },
    /// Verify a batch of votes.
    VerifyAndAggregateExecutionVotes {
        /// The wave.
        wave_id: Hash32,
        /// The block it belongs to.
        block_hash: Hash32,
        /// The votes.
        votes: Vec<V>,
    },
    /// Verify a certificate's signature.
    VerifyExecutionCertificateSignature {
        /// The certificate.
        certificate: C,
        /// Whose signatures it aggregates.
        public_keys: Vec<ConsensusPublicKey>,
    },
    /// Verify a finalized wave.
    VerifyFinalizedWave {
        /// The wave.
        wave: W,
        /// Whose signatures each of its certificates aggregates.
        ec_public_keys: Vec<Vec<ConsensusPublicKey>>,
    },
    /// Execute a batch that stays on one shard.
    ExecuteTransactions {
        /// The wave.
        wave_id: Hash32,
        /// Where it runs.
        anchor: BatchAnchor,
        /// The transactions.
        transactions: Vec<T>,
    },
    /// Execute a batch that crosses shards.
    ExecuteCrossShardTransactions {
        /// The wave.
        wave_id: Hash32,
        /// Where it runs.
        anchor: BatchAnchor,
        /// The transactions, each with what it needs.
        requests: Vec<CrossShardExecutionRequest<T>>,
    },
    /// Sign a vote, and get it to the wave's leader.
    SignAndSendExecutionVote {
        /// The block.
        block_hash: Hash32,
        /// Its height.
        block_height: u64,
        /// The clock that the vote is anchored at.
        vote_anchor_ts: WeightedTimestamp,
        /// The wave.
        wave_id: Hash32,
        /// What is voted.
        tx_outcomes: Vec<TxOutcome>,
        /// The leader.
        leader: u64,
    },
    /// Sign the message that carries a signed vote, and send it.
    SendExecutionVote {
        /// The shard that votes.
        shard: ShardId,
        /// The vote.
        vote: V,
        /// The leader.
        leader: u64,
    },
    /// Sign the message that carries a certificate, and broadcast it.
    BroadcastExecutionCertificate {
        /// The certificate.
        certificate: C,
        /// Whom it goes to.
        recipients: Vec<u64>,
    },
}

/// What the outside work of an action came to.
pub enum WorkReply<C, V, W> {
    /// The certificate that the votes aggregate into.
    Aggregated(C),
    /// The votes that verified.
    Verified(Vec<V>),
    /// The certificate verified, or is handed back with the fault.
    CertificateChecked(Result<C, (C, String)>),
    /// The wave verified, or is handed back with the fault.
    WaveChecked(Result<W, (W, String)>),
    /// What the executor returned.
    Executed(Vec<ExecutedTx>),
    /// The signed vote; absent, where it could not be signed.
    VoteSigned(Option<V>),
    /// The signature of a message; absent, where it could not be signed.
    MessageSigned(Option<ConsensusSignature>),
}

/// What the state machine is told when an action is done.
pub enum ExecutionEvent<C, V, W> {
    /// A certificate was aggregated.
    ExecutionCertificateAggregated {
        /// The wave.
        wave_id: Hash32,
        /// Its certificate.
        certificate: C,
    },
    /// Votes were verified.
    ExecutionVotesVerifiedAndAggregated {
        /// The wave.
        wave_id: Hash32,
        /// The block it belongs to.
        block_hash: Hash32,
        /// The votes that verified.
        verified_votes: Vec<V>,
    },
    /// A certificate's signature was verified, or found wanting.
    ExecutionCertificateSignatureVerified {
        /// The certificate.
        result: Result<C, (C, String)>,
    },
    /// A finalized wave was verified, or found wanting.
    FinalizedWaveVerified {
        /// The wave.
        result: Result<W, (W, String)>,
    },
    /// A batch was executed.
    ExecutionBatchCompleted {
        /// The wave.
        wave_id: Hash32,
        /// What the batch hands it.
        outputs: ExecutionOutputs,
    },
    /// The shard's own vote is in.
    VerifiedExecutionVoteReceived {
        /// The vote.
        vote: V,
    },
}

/// What follows a reply.
pub enum ActionStep<C, V, W, T> {
    /// Another action, whose outside work is due next.
    Next(ExecutionAction<C, V, W, T>),
    /// The state machine is told.
    Notify(ExecutionEvent<C, V, W>),
    /// A vote goes to one validator.
    SendVote {
        /// Whom it goes to.
        to: u64,
        /// The vote.
        vote: V,
        /// Who sends it.
        sender: u64,
        /// The signature of the message.
        signature: ConsensusSignature,
    },
    /// A certificate goes to every recipient.
    SendCertificate {
        /// Whom it goes to.
        to: Vec<u64>,
        /// The certificate.
        certificate: C,
        /// Who sends it.
        sender: u64,
        /// The signature of the message.
        signature: ConsensusSignature,
    },
    /// Nothing: what was due could not be signed.
    Silent,
}

/// The reply is one to the action's outside work. An executor returns one
/// result for each transaction.
pub open spec fn replies<C, V, W, T>(
    reply: WorkReply<C, V, W>,
    action: ExecutionAction<C, V, W, T>,
) -> bool {
    match action {
        ExecutionAction::AggregateExecutionCertificate { .. } => reply is Aggregated,
        ExecutionAction::VerifyAndAggregateExecutionVotes { .. } => reply is Verified,
        ExecutionAction::VerifyExecutionCertificateSignature { .. } => reply is CertificateChecked,
        ExecutionAction::VerifyFinalizedWave { .. } => reply is WaveChecked,
        ExecutionAction::ExecuteTransactions { transactions, .. } => match reply {
            WorkReply::Executed(executed) => executed@.len() == transactions@.len(),
            _ => false,
        },
        ExecutionAction::ExecuteCrossShardTransactions { requests, .. } => match reply {
            WorkReply::Executed(executed) => executed@.len() == requests@.len(),
            _ => false,
        },
        ExecutionAction::SignAndSendExecutionVote { .. } => reply is VoteSigned,
        ExecutionAction::SendExecutionVote { .. } => reply is MessageSigned,
        ExecutionAction::BroadcastExecutionCertificate { .. } => reply is MessageSigned,
    }
}

/// The wave is told what its batch came to.
pub open spec fn completes<C, V, W, T>(
    step: ActionStep<C, V, W, T>,
    wave: Hash32,
    reply: WorkReply<C, V, W>,
) -> bool {
    match (step, reply) {
        (
            ActionStep::Notify(ExecutionEvent::ExecutionBatchCompleted { wave_id, outputs }),
            WorkReply::Executed(executed),
        ) => wave_id == wave && splits(outputs, executed@),
        _ => false,
    }
}

/// What follows the signing of a vote: it is fed back where this validator
/// leads, and is sent to the leader where it does not.
pub open spec fn after_signing<C, V, W, T>(
    signed: Option<V>,
    leader: u64,
    shard: ShardId,
    me: u64,
) -> ActionStep<C, V, W, T> {
    match signed {
        None => ActionStep::Silent,
        Some(vote) => if leader == me {
            ActionStep::Notify(ExecutionEvent::VerifiedExecutionVoteReceived { vote })
        } else {
            ActionStep::Next(ExecutionAction::SendExecutionVote { shard, vote, leader })
        },
    }
}

/// What follows a reply to an action, for the validator `me` of `shard`.
pub open spec fn follows<C, V, W, T>(
    step: ActionStep<C, V, W, T>,
    action: ExecutionAction<C, V, W, T>,
    reply: WorkReply<C, V, W>,
    shard: ShardId,
    me: u64,
) -> bool {
    match action {
        ExecutionAction::AggregateExecutionCertificate { wave_id, .. } => step == (ActionStep::<
            C,
            V,
            W,
            T,
        >::Notify(
            ExecutionEvent::ExecutionCertificateAggregated {
                wave_id,
                certificate: reply->Aggregated_0,
            },
        )),
        ExecutionAction::VerifyAndAggregateExecutionVotes { wave_id, block_hash, .. } => step == (
        ActionStep::<C, V, W, T>::Notify(
            ExecutionEvent::ExecutionVotesVerifiedAndAggregated {
                wave_id,
                block_hash,
                verified_votes: reply->Verified_0,
            },
        )),
        ExecutionAction::VerifyExecutionCertificateSignature { .. } => step == (ActionStep::<
            C,
            V,
            W,
            T,
        >::Notify(
            ExecutionEvent::ExecutionCertificateSignatureVerified {
                result: reply->CertificateChecked_0,
            },
        )),
        ExecutionAction::VerifyFinalizedWave { .. } => step == (ActionStep::<C, V, W, T>::Notify(
            ExecutionEvent::FinalizedWaveVerified { result: reply->WaveChecked_0 },
        )),
        ExecutionAction::ExecuteTransactions { wave_id, .. } => completes(step, wave_id, reply),
        ExecutionAction::ExecuteCrossShardTransactions { wave_id, .. } => completes(
            step,
            wave_id,
            reply,
        ),
        ExecutionAction::SignAndSendExecutionVote { leader, .. } => step == after_signing::<
            C,
            V,
            W,
            T,
        >(reply->VoteSigned_0, leader, shard, me),
        ExecutionAction::SendExecutionVote { vote, leader, .. } => step
            == match reply->MessageSigned_0 {
            Some(signature) => ActionStep::<C, V, W, T>::SendVote {
                to: leader,
                vote,
                sender: me,
                signature,
            },
            None => ActionStep::Silent,
        },
        ExecutionAction::BroadcastExecutionCertificate { certificate, recipients } => step
            == match reply->MessageSigned_0 {
            Some(signature) => ActionStep::<C, V, W, T>::SendCertificate {
                to: recipients,
                certificate,
                sender: me,
                signature,
            },
            None => ActionStep::Silent,
        },
    }
}

/// Handles the reply to an action's outside work, for the validator `me` of
/// `shard`.
pub fn handle_action<C, V, W, T>(
    action: ExecutionAction<C, V, W, T>,
    reply: WorkReply<C, V, W>,
    shard: ShardId,
    me: u64,
) -> (step: ActionStep<C, V, W, T>)
    requires
        replies(reply, action),
    ensures
        follows(step, action, reply, shard, me),
{
    match (action, reply) {
        (
            ExecutionAction::AggregateExecutionCertificate { wave_id, .. },
            WorkReply::Aggregated(certificate),
        ) => ActionStep::Notify(
            ExecutionEvent::ExecutionCertificateAggregated { wave_id, certificate },
        ),
        (
            ExecutionAction::VerifyAndAggregateExecutionVotes { wave_id, block_hash, .. },
            WorkReply::Verified(verified_votes),
        ) => ActionStep::Notify(
            ExecutionEvent::ExecutionVotesVerifiedAndAggregated {
                wave_id,
                block_hash,
                verified_votes,
            },
        ),
        (
            ExecutionAction::VerifyExecutionCertificateSignature { .. },
            WorkReply::CertificateChecked(result),
        ) => ActionStep::Notify(ExecutionEvent::ExecutionCertificateSignatureVerified { result }),
        (ExecutionAction::VerifyFinalizedWave { .. }, WorkReply::WaveChecked(result)) => {
            ActionStep::Notify(ExecutionEvent::FinalizedWaveVerified { result })
        },
        (
            ExecutionAction::ExecuteTransactions { wave_id, .. },
            WorkReply::Executed(executed),
        ) => {
            let outputs = split_execution_outputs(executed);
            ActionStep::Notify(ExecutionEvent::ExecutionBatchCompleted { wave_id, outputs })
        },
        (
            ExecutionAction::ExecuteCrossShardTransactions { wave_id, .. },
            WorkReply::Executed(executed),
        ) => {
            let outputs = split_execution_outputs(executed);
            ActionStep::Notify(ExecutionEvent::ExecutionBatchCompleted { wave_id, outputs })
        },
        (
            ExecutionAction::SignAndSendExecutionVote { leader, .. },
            WorkReply::VoteSigned(signed),
        ) => {
            let vote = match signed {
                Some(vote) => vote,
                None => return ActionStep::Silent,
            };
            if leader != me {
                return ActionStep::Next(
                    ExecutionAction::SendExecutionVote { shard, vote, leader },
                );
            }
            ActionStep::Notify(ExecutionEvent::VerifiedExecutionVoteReceived { vote })
        },
        (
            ExecutionAction::SendExecutionVote { vote, leader, .. },
            WorkReply::MessageSigned(signed),
        ) => match signed {
            Some(signature) => ActionStep::SendVote { to: leader, vote, sender: me, signature },
            None => ActionStep::Silent,
        },
        (
            ExecutionAction::BroadcastExecutionCertificate { certificate, recipients },
            WorkReply::MessageSigned(signed),
        ) => match signed {
            Some(signature) => ActionStep::SendCertificate {
                to: recipients,
                certificate,
                sender: me,
                signature,
            },
            None => ActionStep::Silent,
        },
        _ => vstd::pervasive::unreached(),
    }
}

/// A vote is counted once: the state machine is told of it exactly where this
/// validator leads, and otherwise it goes to the leader alone, under this
/// validator's name.
pub proof fn law_a_vote_goes_one_way<C, V, W, T>(
    action: ExecutionAction<C, V, W, T>,
    vote: V,
    signature: ConsensusSignature,
    shard: ShardId,
    me: u64,
    first: ActionStep<C, V, W, T>,
    second: ActionStep<C, V, W, T>,
)
    requires
        action is SignAndSendExecutionVote,
        follows(first, action, WorkReply::VoteSigned(Some(vote)), shard, me),
        first is Next ==> follows(
            second,
            first->Next_0,
            WorkReply::MessageSigned(Some(signature)),
            shard,
            me,
        ),
    ensures
        ({
            let leader = action->SignAndSendExecutionVote_leader;
            if leader == me {
                first == ActionStep::<C, V, W, T>::Notify(
                    ExecutionEvent::VerifiedExecutionVoteReceived { vote },
                )
            } else {
                first is Next && second == (ActionStep::<C, V, W, T>::SendVote {
                    to: leader,
                    vote,
                    sender: me,
                    signature,
                })
            }
        }),
{
}

/// No action keeps asking: what follows a reply to an action that follows
/// another is no action.
pub proof fn law_actions_end<C, V, W, T>(
    action: ExecutionAction<C, V, W, T>,
    reply: WorkReply<C, V, W>,
    next_reply: WorkReply<C, V, W>,
    shard: ShardId,
    me: u64,
    first: ActionStep<C, V, W, T>,
    second: ActionStep<C, V, W, T>,
)
    requires
        replies(reply, action),
        follows(first, action, reply, shard, me),
        first is Next,
        replies(next_reply, first->Next_0),
        follows(second, first->Next_0, next_reply, shard, me),
    ensures
        !(second is Next),
{
}

/// Each reply is answered in its action's own terms: the wave, the block, the
/// certificate, the leader and the recipients are the action's, and what was
/// aggregated, verified, checked, executed or signed is the reply's. Only a
/// message that was signed is sent, and under this validator's name.
pub proof fn law_a_reply_is_answered_in_its_actions_terms<C, V, W, T>(
    step: ActionStep<C, V, W, T>,
    action: ExecutionAction<C, V, W, T>,
    reply: WorkReply<C, V, W>,
    shard: ShardId,
    me: u64,
)
    requires
        replies(reply, action),
        follows(step, action, reply, shard, me),
    ensures
        action is AggregateExecutionCertificate ==> step is Notify && match step->Notify_0 {
            ExecutionEvent::ExecutionCertificateAggregated { wave_id, certificate } => wave_id
                == action->AggregateExecutionCertificate_wave_id && reply == (WorkReply::<
                C,
                V,
                W,
            >::Aggregated(certificate)),
            _ => false,
        },
        action is VerifyAndAggregateExecutionVotes ==> step is Notify && match step->Notify_0 {
            ExecutionEvent::ExecutionVotesVerifiedAndAggregated {
                wave_id,
                block_hash,
                verified_votes,
            } => wave_id == action->VerifyAndAggregateExecutionVotes_wave_id && block_hash
                == action->VerifyAndAggregateExecutionVotes_block_hash && reply == (WorkReply::<
                C,
                V,
                W,
            >::Verified(verified_votes)),
            _ => false,
        },
        action is VerifyExecutionCertificateSignature ==> step is Notify && match step->Notify_0 {
            ExecutionEvent::ExecutionCertificateSignatureVerified { result } => reply == (
            WorkReply::<C, V, W>::CertificateChecked(result)),
            _ => false,
        },
        action is VerifyFinalizedWave ==> step is Notify && match step->Notify_0 {
            ExecutionEvent::FinalizedWaveVerified { result } => reply == (WorkReply::<
                C,
                V,
                W,
            >::WaveChecked(result)),
            _ => false,
        },
        action is ExecuteTransactions || action is ExecuteCrossShardTransactions ==> step is Notify
            && match step->Notify_0 {
            ExecutionEvent::ExecutionBatchCompleted { wave_id, outputs } => wave_id == (
            if action is ExecuteTransactions {
                action->ExecuteTransactions_wave_id
            } else {
                action->ExecuteCrossShardTransactions_wave_id
            }) && splits(outputs, reply->Executed_0@),
            _ => false,
        },
        action is SignAndSendExecutionVote && reply->VoteSigned_0 is None ==> step is Silent,
        action is SignAndSendExecutionVote && reply->VoteSigned_0 is Some
            && action->SignAndSendExecutionVote_leader == me ==> step is Notify
            && match step->Notify_0 {
            ExecutionEvent::VerifiedExecutionVoteReceived { vote } => reply->VoteSigned_0 == Some(
                vote,
            ),
            _ => false,
        },
        action is SignAndSendExecutionVote && reply->VoteSigned_0 is Some
            && action->SignAndSendExecutionVote_leader != me ==> step is Next && match step->Next_0 {
            ExecutionAction::SendExecutionVote { shard: from, vote, leader } => from == shard
                && reply->VoteSigned_0 == Some(vote) && leader
                == action->SignAndSendExecutionVote_leader,
            _ => false,
        },
        action is SendExecutionVote || action is BroadcastExecutionCertificate ==> (step is Silent
            <==> reply->MessageSigned_0 is None),
        action is SendExecutionVote && reply->MessageSigned_0 is Some ==> match step {
            ActionStep::SendVote { to, vote, sender, signature } => to
                == action->SendExecutionVote_leader && vote == action->SendExecutionVote_vote
                && sender == me && reply->MessageSigned_0 == Some(signature),
            _ => false,
        },
        action is BroadcastExecutionCertificate && reply->MessageSigned_0 is Some ==> match step {
            ActionStep::SendCertificate { to, certificate, sender, signature } => to
                == action->BroadcastExecutionCertificate_recipients && certificate
                == action->BroadcastExecutionCertificate_certificate && sender == me
                && reply->MessageSigned_0 == Some(signature),
            _ => false,
        },
{
}

} // verus!
