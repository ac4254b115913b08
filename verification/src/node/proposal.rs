//! Choosing what a proposal carries.
use vstd::prelude::*;

use crate::list::{lemma_filter_by, lemma_filter_holds, reversed};
use crate::order::same_key;
use crate::shard::{ShardId, ShardTrie};
use crate::sorted::SortedSet;
use crate::types::{DeclaredKey, TxHash};

verus! {

/// A transaction that is ready to be proposed.
#[derive(Debug, PartialEq, Eq)]
pub struct ReadyTx {
    /// The transaction.
    pub tx_hash: TxHash,
    /// The keys that admission conflicts on.
    pub admission_keys: Vec<DeclaredKey>,
    /// Whether it stays on one shard.
    pub single_shard: bool,
    /// The account that pays.
    pub fee_payer: [u8; 16],
    /// Whether an earlier block took the payer's bundle in.
    pub absorbed: bool,
}

/// A bundle of provisions that rides in the proposal.
#[derive(Debug, PartialEq, Eq)]
pub struct QueuedBundle {
    /// The shard it comes from.
    pub source_shard: ShardId,
    /// The transactions it holds something for.
    pub transactions: Vec<TxHash>,
}

/// Some queued bundle of a shard holds something for a transaction.
pub open spec fn rides(queued: Seq<QueuedBundle>, shard: ShardId, tx: TxHash) -> bool {
    exists|i: int|
        0 <= i < queued.len() && (#[trigger] queued[i]).source_shard == shard
            && queued[i].transactions@.contains(tx)
}

/// The evidence that a transaction's payer committed is in hand: it stays on
/// one shard, this shard is the payer's, the payer's bundle rides in the
/// proposal, or an earlier block took it in.
pub open spec fn engaged(
    tx: ReadyTx,
    queued: Seq<QueuedBundle>,
    local: ShardId,
    trie: ShardTrie,
) -> bool {
    let payer = trie.shard_of(tx.fee_payer@);
    tx.single_shard || payer == local || tx.absorbed || rides(queued, payer, tx.tx_hash)
}

/// A transaction holds a key that an uncommitted block is using.
pub open spec fn in_use(tx: ReadyTx, in_flight: Set<DeclaredKey>) -> bool {
    exists|i: int|
        0 <= i < tx.admission_keys@.len() && in_flight.contains(#[trigger] tx.admission_keys@[i])
}

/// A transaction may be proposed.
pub open spec fn proposable(
    tx: ReadyTx,
    queued: Seq<QueuedBundle>,
    in_flight: Set<DeclaredKey>,
    local: ShardId,
    trie: ShardTrie,
) -> bool {
    !in_use(tx, in_flight) && engaged(tx, queued, local, trie)
}

/// The kept transactions are the ready ones that may be proposed, in order.
pub open spec fn gathers(
    kept: Seq<ReadyTx>,
    ready: Seq<ReadyTx>,
    queued: Seq<QueuedBundle>,
    in_flight: Set<DeclaredKey>,
    local: ShardId,
    trie: ShardTrie,
) -> bool {
    kept == ready.filter(|tx: ReadyTx| proposable(tx, queued, in_flight, local, trie))
}

fn holds_tx(list: &Vec<TxHash>, tx: &TxHash) -> (r: bool)
    ensures
        r == list@.contains(*tx),
{
    let mut i: usize = 0;
    while i < list.len()
        invariant
            i <= list@.len(),
            forall|j: int| 0 <= j < i ==> #[trigger] list@[j] != *tx,
        decreases list@.len() - i,
    {
        if same_key(&list[i], tx) {
            assert(list@[i as int] == *tx);
            return true;
        }
        i = i + 1;
    }
    false
}

/// Whether the evidence that a transaction's payer committed is in hand.
pub fn engagement_held(
    tx: &ReadyTx,
    queued: &Vec<QueuedBundle>,
    local_shard: ShardId,
    trie: &ShardTrie,
) -> (r: bool)
    requires
        trie.wf(),
    ensures
        r == engaged(*tx, queued@, local_shard, *trie),
{
    if tx.single_shard {
        return true;
    }
    let payer = trie.shard_for_prefix(&tx.fee_payer);
    if payer == local_shard {
        return true;
    }
    if tx.absorbed {
        return true;
    }
    let mut i: usize = 0;
    while i < queued.len()
        invariant
            i <= queued@.len(),
            payer == trie.shard_of(tx.fee_payer@),
            forall|j: int|
                0 <= j < i ==> !((#[trigger] queued@[j]).source_shard == payer
                    && queued@[j].transactions@.contains(tx.tx_hash)),
        decreases queued@.len() - i,
    {
        if queued[i].source_shard == payer && holds_tx(&queued[i].transactions, &tx.tx_hash) {
            assert(queued@[i as int].source_shard == payer);
            return true;
        }
        i = i + 1;
    }
    false
}

fn uses_in_flight(tx: &ReadyTx, in_flight: &SortedSet<DeclaredKey>) -> (r: bool)
    ensures
        r == in_use(*tx, in_flight@),
{
    let mut i: usize = 0;
    while i < tx.admission_keys.len()
        invariant
            i <= tx.admission_keys@.len(),
            forall|j: int|
                0 <= j < i ==> !in_flight@.contains(#[trigger] tx.admission_keys@[j]),
        decreases tx.admission_keys@.len() - i,
    {
        if in_flight.contains(&tx.admission_keys[i]) {
            assert(in_flight@.contains(tx.admission_keys@[i as int]));
            return true;
        }
        i = i + 1;
    }
    false
}

/// How many transactions to ask the mempool for: a block's worth, and as many
/// again as are expected to fall out as duplicates.
pub fn ready_request(max_txs_per_block: usize, dedup_overhead: usize) -> (n: usize)
    requires
        max_txs_per_block + dedup_overhead <= usize::MAX,
    ensures
        n == max_txs_per_block + dedup_overhead,
{
    max_txs_per_block + dedup_overhead
}

/// Keeps the ready transactions that may be proposed, in order: those that hold
/// no key an uncommitted block is using, and whose payer is known to have
/// committed.
pub fn gather_proposal_inputs(
    ready: Vec<ReadyTx>,
    queued: &Vec<QueuedBundle>,
    in_flight: &SortedSet<DeclaredKey>,
    local_shard: ShardId,
    trie: &ShardTrie,
) -> (kept: Vec<ReadyTx>)
    requires
        trie.wf(),
    ensures
        gathers(kept@, ready@, queued@, in_flight@, local_shard, *trie),
{
    let ghost all = ready@;
    let ghost keep = |tx: ReadyTx| proposable(tx, queued@, in_flight@, local_shard, *trie);
    let mut back = reversed(ready);
    let mut kept: Vec<ReadyTx> = Vec::new();
    let ghost mut done: int = 0;
    proof {
        reveal(Seq::filter);
        assert(all.take(0) =~= Seq::empty());
    }
    while back.len() > 0
        invariant
            0 <= done <= all.len(),
            back@.len() == all.len() - done,
            trie.wf(),
            keep == (|tx: ReadyTx| proposable(tx, queued@, in_flight@, local_shard, *trie)),
            forall|j: int|
                0 <= j < back@.len() ==> #[trigger] back@[j] == all[all.len() - 1 - j],
            kept@ == all.take(done).filter(keep),
        decreases back@.len(),
    {
        match back.pop() {
            Some(tx) => {
                proof {
                    reveal(Seq::filter);
                    assert(tx == all[done]);
                    assert(all.take(done + 1).drop_last() =~= all.take(done));
                    assert(all.take(done + 1).last() == tx);
                }
                if !uses_in_flight(&tx, in_flight) && engagement_held(
                    &tx,
                    queued,
                    local_shard,
                    trie,
                ) {
                    kept.push(tx);
                }
                proof {
                    done = done + 1;
                }
            },
            None => {},
        }
    }
    assert(all.take(done) =~= all);
    kept
}

/// A cross-shard transaction is proposed away from its payer's shard only on
/// the payer's own evidence.
pub proof fn law_locks_engage_on_committed_evidence(
    tx: ReadyTx,
    queued: Seq<QueuedBundle>,
    in_flight: Set<DeclaredKey>,
    local: ShardId,
    trie: ShardTrie,
)
    requires
        proposable(tx, queued, in_flight, local, trie),
        !tx.single_shard,
        trie.shard_of(tx.fee_payer@) != local,
    ensures
        tx.absorbed || rides(queued, trie.shard_of(tx.fee_payer@), tx.tx_hash),
{
}

/// A proposal carries, in their order and as often as they are ready, exactly
/// the transactions none of whose admission keys is in flight and whose payer's
/// commitment is in evidence: they stay on one shard, or the payer's shard is
/// this one, or an earlier block took the payer's bundle in, or a queued bundle
/// of the payer's shard names them.
pub proof fn law_a_proposal_is_what_is_clear_and_engaged(
    kept: Seq<ReadyTx>,
    ready: Seq<ReadyTx>,
    queued: Seq<QueuedBundle>,
    in_flight: Set<DeclaredKey>,
    local: ShardId,
    trie: ShardTrie,
)
    requires
        gathers(kept, ready, queued, in_flight, local, trie),
    ensures
        kept == ready.filter(
            |tx: ReadyTx|
                {
                    &&& forall|k: DeclaredKey|
                        tx.admission_keys@.contains(k) ==> !#[trigger] in_flight.contains(k)
                    &&& tx.single_shard || trie.shard_of(tx.fee_payer@) == local || tx.absorbed
                        || exists|q: int, t: int|
                        0 <= q < queued.len() && 0 <= t < queued[q].transactions@.len()
                            && queued[q].source_shard == trie.shard_of(tx.fee_payer@)
                            && #[trigger] queued[q].transactions@[t] == tx.tx_hash
                },
        ),
        forall|i: int, k: DeclaredKey|
            0 <= i < kept.len() && (#[trigger] kept[i]).admission_keys@.contains(k)
                ==> !#[trigger] in_flight.contains(k),
        forall|tx: ReadyTx| #[trigger] kept.contains(tx) ==> ready.contains(tx),
        forall|tx: ReadyTx| #[trigger]
            ready.contains(tx) && tx.single_shard && (forall|k: DeclaredKey|
                tx.admission_keys@.contains(k) ==> !in_flight.contains(k)) ==> kept.contains(tx),
{
    let mine = |tx: ReadyTx| proposable(tx, queued, in_flight, local, trie);
    let plain = |tx: ReadyTx|
        {
            &&& forall|k: DeclaredKey|
                tx.admission_keys@.contains(k) ==> !#[trigger] in_flight.contains(k)
            &&& tx.single_shard || trie.shard_of(tx.fee_payer@) == local || tx.absorbed || exists|
                q: int,
                t: int,
            |
                0 <= q < queued.len() && 0 <= t < queued[q].transactions@.len()
                    && queued[q].source_shard == trie.shard_of(tx.fee_payer@)
                    && #[trigger] queued[q].transactions@[t] == tx.tx_hash
        };
    assert forall|tx: ReadyTx| #[trigger] mine(tx) == plain(tx) by {
        if forall|k: DeclaredKey| tx.admission_keys@.contains(k) ==> !in_flight.contains(k) {
            assert forall|i: int| 0 <= i < tx.admission_keys@.len() implies !in_flight.contains(
                #[trigger] tx.admission_keys@[i],
            ) by {
                assert(tx.admission_keys@.contains(tx.admission_keys@[i]));
            }
        }
        let payer = trie.shard_of(tx.fee_payer@);
        if rides(queued, payer, tx.tx_hash) {
            let q = choose|q: int|
                0 <= q < queued.len() && (#[trigger] queued[q]).source_shard == payer
                    && queued[q].transactions@.contains(tx.tx_hash);
            let t = choose|t: int|
                0 <= t < queued[q].transactions@.len() && queued[q].transactions@[t] == tx.tx_hash;
            assert(queued[q].transactions@[t] == tx.tx_hash);
        }
        if exists|q: int, t: int|
            0 <= q < queued.len() && 0 <= t < queued[q].transactions@.len()
                && queued[q].source_shard == payer && #[trigger] queued[q].transactions@[t]
                == tx.tx_hash {
            let (q, t) = choose|q: int, t: int|
                0 <= q < queued.len() && 0 <= t < queued[q].transactions@.len()
                    && queued[q].source_shard == payer && #[trigger] queued[q].transactions@[t]
                    == tx.tx_hash;
            assert(queued[q].transactions@.contains(tx.tx_hash));
        }
    }
    lemma_filter_by(ready, mine, plain);
    lemma_filter_holds(ready, plain);
}

} // verus!
