//! Splitting a batch's results into what its wave consumes.
use vstd::prelude::*;

use crate::engine::receipt::{ConsensusReceipt, ExecutedTx, ExecutionMetadata};
use crate::hash::Hash32;
use crate::list::reversed;
use crate::types::TxHash;

verus! {

/// What a shard votes of a transaction.
#[derive(Clone, Copy, Debug, PartialEq, Eq)]
pub struct TxOutcome {
    /// The transaction.
    pub tx_hash: TxHash,
    /// The hash of its global receipt; absent, where it failed.
    pub receipt_hash: Option<Hash32>,
}

/// A receipt as a node stores it.
#[derive(Debug, PartialEq, Eq)]
pub struct StoredReceipt {
    /// The transaction.
    pub tx_hash: TxHash,
    /// What consensus attests of it.
    pub consensus: ConsensusReceipt,
    /// Node-local diagnostics; absent for a receipt that was not executed
    /// here.
    pub metadata: Option<ExecutionMetadata>,
}

/// What a batch hands its wave.
#[derive(Debug, PartialEq, Eq)]
pub struct ExecutionOutputs {
    /// What the shard votes, one for each transaction.
    pub outcomes: Vec<TxOutcome>,
    /// What it stores, one for each transaction.
    pub results: Vec<StoredReceipt>,
    /// The receipts held in reserve against an abort.
    pub fee_receipts: Vec<StoredReceipt>,
    /// The fuel it attests, one for each transaction.
    pub attested_work: Vec<(TxHash, u64)>,
}

/// What a shard votes of an executed transaction.
pub open spec fn outcome_of(tx: ExecutedTx) -> TxOutcome {
    TxOutcome {
        tx_hash: tx.tx_hash,
        receipt_hash: match tx.consensus {
            ConsensusReceipt::Failed => None,
            ConsensusReceipt::Succeeded { receipt_hash, .. } => Some(receipt_hash),
        },
    }
}

/// What a node stores of an executed transaction.
pub open spec fn stored(tx: ExecutedTx) -> StoredReceipt {
    StoredReceipt {
        tx_hash: tx.tx_hash,
        consensus: tx.consensus,
        metadata: Some(tx.metadata),
    }
}

/// The receipts that aborts would settle, of the transactions that have one.
pub open spec fn reserved(executed: Seq<ExecutedTx>) -> Seq<StoredReceipt>
    decreases executed.len(),
{
    if executed.len() == 0 {
        Seq::empty()
    } else {
        let before = reserved(executed.drop_last());
        match executed.last().fee_receipt {
            Some(fee) => before.push(
                StoredReceipt {
                    tx_hash: executed.last().tx_hash,
                    consensus: fee,
                    metadata: None,
                },
            ),
            None => before,
        }
    }
}

/// The outputs of a batch: outcomes, receipts and work run in parallel with
/// it, and reserves keep its order.
pub open spec fn splits(out: ExecutionOutputs, executed: Seq<ExecutedTx>) -> bool {
    &&& out.outcomes@ == executed.map_values(|t: ExecutedTx| outcome_of(t))
    &&& out.results@ == executed.map_values(|t: ExecutedTx| stored(t))
    &&& out.fee_receipts@ == reserved(executed)
    &&& out.attested_work@ == executed.map_values(|t: ExecutedTx| (t.tx_hash, t.attested_work))
}

/// Splits a batch into what the wave consumes: outcomes for the vote, receipts
/// to store, fee receipts held in reserve, and the work attested. All but the
/// fee receipts run in parallel with the batch.
pub fn split_execution_outputs(executed: Vec<ExecutedTx>) -> (out: ExecutionOutputs)
    ensures
        splits(out, executed@),
{
    let ghost all = executed@;
    let mut back = reversed(executed);
    let mut outcomes: Vec<TxOutcome> = Vec::new();
    let mut results: Vec<StoredReceipt> = Vec::new();
    let mut fee_receipts: Vec<StoredReceipt> = Vec::new();
    let mut attested_work: Vec<(TxHash, u64)> = Vec::new();
    let ghost mut done: int = 0;
    assert(all.take(0) =~= Seq::empty());
    while back.len() > 0
        invariant
            0 <= done <= all.len(),
            back@.len() == all.len() - done,
            forall|j: int|
                0 <= j < back@.len() ==> #[trigger] back@[j] == all[all.len() - 1 - j],
            outcomes@ =~= all.take(done).map_values(|t: ExecutedTx| outcome_of(t)),
            results@ =~= all.take(done).map_values(|t: ExecutedTx| stored(t)),
            fee_receipts@ == reserved(all.take(done)),
            attested_work@ =~= all.take(done).map_values(
                |t: ExecutedTx| (t.tx_hash, t.attested_work),
            ),
        decreases back@.len(),
    {
        match back.pop() {
            Some(tx) => {
                assert(tx == all[done]);
                assert(all.take(done + 1).drop_last() =~= all.take(done));
                let receipt_hash = match &tx.consensus {
                    ConsensusReceipt::Failed => None,
                    ConsensusReceipt::Succeeded { receipt_hash, .. } => Some(*receipt_hash),
                };
                outcomes.push(TxOutcome { tx_hash: tx.tx_hash, receipt_hash });
                attested_work.push((tx.tx_hash, tx.attested_work));
                match tx.fee_receipt {
                    Some(fee) => fee_receipts.push(
                        StoredReceipt { tx_hash: tx.tx_hash, consensus: fee, metadata: None },
                    ),
                    None => {},
                }
                results.push(
                    StoredReceipt {
                        tx_hash: tx.tx_hash,
                        consensus: tx.consensus,
                        metadata: Some(tx.metadata),
                    },
                );
                proof {
                    done = done + 1;
                }
            },
            None => {},
        }
    }
    assert(all.take(done) =~= all);
    ExecutionOutputs { outcomes, results, fee_receipts, attested_work }
}

/// A wave is handed one vote, one receipt and one figure of work for each of its
/// transactions, in order, each under the transaction's hash; a vote is for a
/// receipt's hash exactly where the transaction succeeded. The reserves are
/// those of the transactions that have one, in order, without diagnostics.
pub proof fn law_a_wave_is_handed_every_transaction(out: ExecutionOutputs, executed: Seq<ExecutedTx>)
    requires
        splits(out, executed),
    ensures
        out.outcomes@.len() == executed.len(),
        out.results@.len() == executed.len(),
        out.attested_work@.len() == executed.len(),
        forall|i: int|
            #![trigger executed[i]]
            0 <= i < executed.len() ==> {
                &&& out.outcomes@[i].tx_hash == executed[i].tx_hash
                &&& out.outcomes@[i].receipt_hash is Some <==> executed[i].consensus is Succeeded
                &&& executed[i].consensus is Succeeded ==> out.outcomes@[i].receipt_hash->0
                    == executed[i].consensus->receipt_hash
                &&& out.results@[i].tx_hash == executed[i].tx_hash
                &&& out.results@[i].consensus == executed[i].consensus
                &&& out.results@[i].metadata == Some(executed[i].metadata)
                &&& out.attested_work@[i].0 == executed[i].tx_hash
                &&& out.attested_work@[i].1 == executed[i].attested_work
            },
        out.fee_receipts@ == executed.filter(|t: ExecutedTx| t.fee_receipt is Some).map_values(
            |t: ExecutedTx|
                StoredReceipt {
                    tx_hash: t.tx_hash,
                    consensus: t.fee_receipt->0,
                    metadata: None,
                },
        ),
{
    lemma_reserved(executed);
}

proof fn lemma_reserved(executed: Seq<ExecutedTx>)
    ensures
        reserved(executed) == executed.filter(|t: ExecutedTx| t.fee_receipt is Some).map_values(
            |t: ExecutedTx|
                StoredReceipt {
                    tx_hash: t.tx_hash,
                    consensus: t.fee_receipt->0,
                    metadata: None,
                },
        ),
    decreases executed.len(),
{
    reveal(Seq::filter);
    if executed.len() > 0 {
        lemma_reserved(executed.drop_last());
    }
    assert(reserved(executed) =~= executed.filter(
        |t: ExecutedTx| t.fee_receipt is Some,
    ).map_values(
        |t: ExecutedTx|
            StoredReceipt { tx_hash: t.tx_hash, consensus: t.fee_receipt->0, metadata: None },
    ));
}

} // verus!
