//! The shard-invariant output of an execution and its projection onto a shard.
use vstd::prelude::*;

use crate::bridge::staking::{BeaconWitnessEvent, VmEvent};
use crate::hash::Hash32;
use crate::list::lemma_filter_by;
use crate::shard::{spans, ShardId, ShardTrie};
use crate::storage::canonical::{
    belongs, copy_bytes, filter_updates_for_shard, sort_database_updates,
};
use crate::storage::updates::{content_delta_only, DatabaseUpdates, NodeContent};
use crate::types::{SubstateKey, TxHash};

verus! {

/// Why a transaction was aborted.
#[derive(Debug, PartialEq, Eq)]
pub enum AbortReason {
    /// What went wrong, in words.
    Said(String),
    /// A reservation was not covered.
    Infeasible {
        /// The cell.
        key: SubstateKey,
        /// How much was not covered.
        amount: u128,
    },
}

impl AbortReason {
    /// A copy.
    pub fn copy(&self) -> (c: Self)
        ensures
            c == *self,
    {
        match self {
            AbortReason::Said(text) => AbortReason::Said(text.clone()),
            AbortReason::Infeasible { key, amount } => AbortReason::Infeasible {
                key: *key,
                amount: *amount,
            },
        }
    }
}

/// Node-local diagnostics of an execution.
#[derive(Debug, PartialEq, Eq)]
pub struct ExecutionMetadata {
    /// What execution cost, in fuel.
    pub total_execution_cost: Option<u64>,
    /// Why it was aborted, if it was.
    pub error: Option<AbortReason>,
}

impl ExecutionMetadata {
    /// A copy.
    pub fn copy(&self) -> (c: Self)
        ensures
            c == *self,
    {
        ExecutionMetadata {
            total_execution_cost: self.total_execution_cost,
            error: match &self.error {
                Some(e) => Some(e.copy()),
                None => None,
            },
        }
    }
}

/// What consensus attests of a transaction on one shard.
#[derive(Debug, PartialEq, Eq)]
pub enum ConsensusReceipt {
    /// It was aborted, or never ran.
    Failed,
    /// It committed.
    Succeeded {
        /// The hash of its global receipt.
        receipt_hash: Hash32,
        /// The shard's slice of its updates.
        database_updates: DatabaseUpdates,
        /// The beacon facts of emitters that live on the shard.
        beacon_witness_events: Vec<BeaconWitnessEvent>,
        /// The events of emitters that live on the shard.
        events: Vec<VmEvent>,
    },
}

/// A transaction as one shard executed it.
#[derive(Debug, PartialEq, Eq)]
pub struct ExecutedTx {
    /// The transaction.
    pub tx_hash: TxHash,
    /// What consensus attests of it.
    pub consensus: ConsensusReceipt,
    /// Node-local diagnostics.
    pub metadata: ExecutionMetadata,
    /// Fuel that the engine consumed.
    pub attested_work: u64,
    /// The receipt that an abort settles, if the shard holds the payer of a
    /// leg that can still be aborted.
    pub fee_receipt: Option<ConsensusReceipt>,
}

/// The output of an execution, the same on every shard.
#[derive(Debug, PartialEq, Eq)]
pub enum CachedOutputBody {
    /// It was aborted, or never ran.
    Failed,
    /// It committed.
    Succeeded {
        /// Its updates, over all shards.
        raw_updates: DatabaseUpdates,
        /// Its events in emission order, over all shards.
        events: Vec<VmEvent>,
        /// The hash of its global receipt.
        receipt_hash: Hash32,
        /// Its beacon facts, each with its emitter.
        witnesses: Vec<([u8; 16], BeaconWitnessEvent)>,
        /// Fuel that the engine consumed.
        gas_consumed: u64,
    },
}

/// The output of an execution with its diagnostics.
#[derive(Debug, PartialEq, Eq)]
pub struct CachedOutput {
    /// Node-local diagnostics.
    pub metadata: ExecutionMetadata,
    /// The output.
    pub body: CachedOutputBody,
}

impl CachedOutput {
    /// A success.
    #[must_use]
    pub fn succeeded(
        raw_updates: DatabaseUpdates,
        receipt_hash: Hash32,
        metadata: ExecutionMetadata,
        gas_consumed: u64,
        events: Vec<VmEvent>,
        witnesses: Vec<([u8; 16], BeaconWitnessEvent)>,
    ) -> (c: Self)
        ensures
            c == (CachedOutput {
                metadata,
                body: CachedOutputBody::Succeeded {
                    raw_updates,
                    events,
                    receipt_hash,
                    witnesses,
                    gas_consumed,
                },
            }),
    {
        CachedOutput {
            metadata,
            body: CachedOutputBody::Succeeded {
                raw_updates,
                events,
                receipt_hash,
                witnesses,
                gas_consumed,
            },
        }
    }

    /// A failure.
    #[must_use]
    pub fn failed(metadata: ExecutionMetadata) -> (c: Self)
        ensures
            c == (CachedOutput { metadata, body: CachedOutputBody::Failed }),
    {
        CachedOutput { metadata, body: CachedOutputBody::Failed }
    }
}

/// What an event says: its emitter, type and payload.
pub open spec fn said(e: VmEvent) -> ([u8; 16], u32, Seq<u8>) {
    (e.emitter, e.event_type, e.payload@)
}

/// What each event says.
pub open spec fn all_said(s: Seq<VmEvent>) -> Seq<([u8; 16], u32, Seq<u8>)> {
    Seq::new(s.len(), |i: int| said(s[i]))
}

/// The events of emitters that live on a shard, in order.
pub open spec fn events_of(s: Seq<VmEvent>, shard: ShardId, trie: ShardTrie) -> Seq<
    ([u8; 16], u32, Seq<u8>),
> {
    all_said(s).filter(|e: ([u8; 16], u32, Seq<u8>)| trie.shard_of(e.0@) == shard)
}

/// The beacon facts of emitters that live on a shard, in order.
pub open spec fn facts_of(
    s: Seq<([u8; 16], BeaconWitnessEvent)>,
    shard: ShardId,
    trie: ShardTrie,
) -> Seq<BeaconWitnessEvent> {
    s.filter(|e: ([u8; 16], BeaconWitnessEvent)| trie.shard_of(e.0@) == shard).map_values(
        |e: ([u8; 16], BeaconWitnessEvent)| e.1,
    )
}

/// The slice of updates that a shard keeps.
pub open spec fn slice_of(
    content: Map<Seq<u8>, NodeContent>,
    shard: ShardId,
    trie: ShardTrie,
) -> Map<Seq<u8>, NodeContent> {
    content.restrict(
        Set::new(
            |k: Seq<u8>| content.contains_key(k) && belongs(k, shard, trie),
        ),
    )
}

/// A copy of an event.
pub fn copy_event(e: &VmEvent) -> (c: VmEvent)
    ensures
        said(c) == said(*e),
{
    VmEvent { emitter: e.emitter, event_type: e.event_type, payload: copy_bytes(&e.payload) }
}

fn keep_events(events: &Vec<VmEvent>, shard: ShardId, trie: &ShardTrie) -> (out: Vec<VmEvent>)
    requires
        trie.wf(),
    ensures
        all_said(out@) == events_of(events@, shard, *trie),
{
    let ghost all = all_said(events@);
    let ghost keep = |e: ([u8; 16], u32, Seq<u8>)| trie.shard_of(e.0@) == shard;
    let mut out: Vec<VmEvent> = Vec::new();
    let mut i: usize = 0;
    while i < events.len()
        invariant
            i <= events@.len(),
            trie.wf(),
            all == all_said(events@),
            keep == (|e: ([u8; 16], u32, Seq<u8>)| trie.shard_of(e.0@) == shard),
            all_said(out@) =~= all.take(i as int).filter(keep),
        decreases events@.len() - i,
    {
        let ghost before = out@;
        proof {
            assert(all.take(i + 1).drop_last() =~= all.take(i as int));
            assert(all.take(i + 1).last() == all[i as int]);
            reveal(Seq::filter);
        }
        if trie.shard_for_prefix(&events[i].emitter) == shard {
            out.push(copy_event(&events[i]));
            assert(all_said(out@) =~= all_said(before).push(all[i as int]));
        }
        i = i + 1;
    }
    assert(all.take(all.len() as int) =~= all);
    out
}

fn keep_facts(
    facts: &Vec<([u8; 16], BeaconWitnessEvent)>,
    shard: ShardId,
    trie: &ShardTrie,
) -> (out: Vec<BeaconWitnessEvent>)
    requires
        trie.wf(),
    ensures
        out@ == facts_of(facts@, shard, *trie),
{
    let ghost all = facts@;
    let ghost keep = |e: ([u8; 16], BeaconWitnessEvent)| trie.shard_of(e.0@) == shard;
    let ghost fact = |e: ([u8; 16], BeaconWitnessEvent)| e.1;
    let mut out: Vec<BeaconWitnessEvent> = Vec::new();
    let mut i: usize = 0;
    while i < facts.len()
        invariant
            i <= facts@.len(),
            trie.wf(),
            all == facts@,
            keep == (|e: ([u8; 16], BeaconWitnessEvent)| trie.shard_of(e.0@) == shard),
            fact == (|e: ([u8; 16], BeaconWitnessEvent)| e.1),
            out@ =~= all.take(i as int).filter(keep).map_values(fact),
        decreases facts@.len() - i,
    {
        proof {
            assert(all.take(i + 1).drop_last() =~= all.take(i as int));
            assert(all.take(i + 1).last() == all[i as int]);
            reveal(Seq::filter);
        }
        if trie.shard_for_prefix(&facts[i].0) == shard {
            out.push(facts[i].1);
            assert(all.take(i as int).filter(keep).push(all[i as int]).map_values(fact)
                =~= all.take(i as int).filter(keep).map_values(fact).push(all[i as int].1));
        }
        i = i + 1;
    }
    assert(all.take(all.len() as int) =~= all);
    out
}

/// The receipt is the projection of a success onto a shard.
pub open spec fn is_slice(
    receipt: ConsensusReceipt,
    content: Map<Seq<u8>, NodeContent>,
    events: Seq<VmEvent>,
    receipt_hash: Hash32,
    witnesses: Seq<([u8; 16], BeaconWitnessEvent)>,
    shard: ShardId,
    trie: ShardTrie,
) -> bool {
    match receipt {
        ConsensusReceipt::Failed => false,
        ConsensusReceipt::Succeeded {
            receipt_hash: hash,
            database_updates,
            beacon_witness_events,
            events: kept,
        } => {
            &&& hash == receipt_hash
            &&& database_updates.wf()
            &&& database_updates.sorted()
            &&& database_updates.content() == slice_of(content, shard, trie)
            &&& beacon_witness_events@ == facts_of(witnesses, shard, trie)
            &&& all_said(kept@) == events_of(events, shard, trie)
        },
    }
}

/// The projection of an output onto a shard.
pub open spec fn is_projection(
    tx: ExecutedTx,
    cached: CachedOutput,
    tx_hash: TxHash,
    shard: ShardId,
    trie: ShardTrie,
) -> bool {
    &&& tx.tx_hash == tx_hash
    &&& tx.metadata == cached.metadata
    &&& tx.fee_receipt is None
    &&& match cached.body {
        CachedOutputBody::Failed => tx.consensus is Failed && tx.attested_work == 0,
        CachedOutputBody::Succeeded {
            raw_updates,
            events,
            receipt_hash,
            witnesses,
            gas_consumed,
        } => is_slice(
            tx.consensus,
            raw_updates.content(),
            events@,
            receipt_hash,
            witnesses@,
            shard,
            trie,
        ) && tx.attested_work == gas_consumed,
    }
}

/// A projection exists: the updates hold each key once, and no partition is
/// replaced within the shard's slice.
pub open spec fn projects(cached: CachedOutput, shard: ShardId, trie: ShardTrie) -> bool {
    match cached.body {
        CachedOutputBody::Failed => true,
        CachedOutputBody::Succeeded { raw_updates, .. } => raw_updates.wf() && content_delta_only(
            slice_of(raw_updates.content(), shard, trie),
        ),
    }
}

/// Projects an output onto a shard: the slice of its updates in canonical
/// order, and the events and facts of the emitters that live there.
#[must_use]
pub fn project_to_shard(
    cached: &CachedOutput,
    tx_hash: TxHash,
    local_shard: ShardId,
    shard_trie: &ShardTrie,
) -> (tx: ExecutedTx)
    requires
        shard_trie.wf(),
        projects(*cached, local_shard, *shard_trie),
    ensures
        is_projection(tx, *cached, tx_hash, local_shard, *shard_trie),
{
    match &cached.body {
        CachedOutputBody::Failed => ExecutedTx {
            tx_hash,
            consensus: ConsensusReceipt::Failed,
            metadata: cached.metadata.copy(),
            attested_work: 0,
            fee_receipt: None,
        },
        CachedOutputBody::Succeeded {
            raw_updates,
            events,
            receipt_hash,
            witnesses,
            gas_consumed,
        } => {
            let mut database_updates = filter_updates_for_shard(
                raw_updates,
                local_shard,
                shard_trie,
            );
            assert(database_updates.content() == slice_of(
                raw_updates.content(),
                local_shard,
                *shard_trie,
            ));
            sort_database_updates(&mut database_updates);
            let consensus = ConsensusReceipt::Succeeded {
                receipt_hash: *receipt_hash,
                database_updates,
                beacon_witness_events: keep_facts(witnesses, local_shard, shard_trie),
                events: keep_events(events, local_shard, shard_trie),
            };
            ExecutedTx {
                tx_hash,
                consensus,
                metadata: cached.metadata.copy(),
                attested_work: *gas_consumed,
                fee_receipt: None,
            }
        },
    }
}

/// Exactly one leaf keeps what an emitter says, so the beacon folds each fact
/// once.
pub proof fn law_one_shard_keeps_an_emitter(emitter: [u8; 16], trie: ShardTrie)
    requires
        trie.wf(),
    ensures
        exists|i: int|
            0 <= i < trie.leaves@.len() && #[trigger] trie.leaves@[i] == trie.shard_of(emitter@)
                && forall|j: int|
                0 <= j < trie.leaves@.len() && #[trigger] trie.leaves@[j] == trie.shard_of(emitter@)
                    ==> i == j,
{
    assert(trie.owned(emitter@));
    let i = choose|i: int|
        0 <= i < trie.leaves@.len() && #[trigger] spans(trie.leaves@[i], emitter@);
    assert(trie.leaves@[i] == trie.shard_of(emitter@));
    assert forall|j: int|
        0 <= j < trie.leaves@.len() && #[trigger] trie.leaves@[j] == trie.shard_of(
            emitter@,
        ) implies i == j by {
        assert(spans(trie.leaves@[j], emitter@));
    }
}

/// A shard's slice of a success carries its hash, and of the updates, events and
/// facts all those and only those whose entity or emitter the partition gives
/// the shard, each as it was and in order.
pub proof fn law_a_slice_is_what_lives_on_the_shard(
    receipt: ConsensusReceipt,
    content: Map<Seq<u8>, NodeContent>,
    events: Seq<VmEvent>,
    receipt_hash: Hash32,
    witnesses: Seq<([u8; 16], BeaconWitnessEvent)>,
    shard: ShardId,
    trie: ShardTrie,
)
    requires
        is_slice(receipt, content, events, receipt_hash, witnesses, shard, trie),
    ensures
        receipt is Succeeded,
        receipt->receipt_hash == receipt_hash,
        forall|k: Seq<u8>| #[trigger]
            receipt->database_updates.content().contains_key(k) <==> content.contains_key(k)
                && k.len() == 16 && trie.shard_of(k) == shard,
        forall|k: Seq<u8>| #[trigger]
            receipt->database_updates.content().contains_key(k)
                ==> receipt->database_updates.content()[k] == content[k],
        receipt->beacon_witness_events@ == witnesses.filter(
            |w: ([u8; 16], BeaconWitnessEvent)| trie.shard_of(w.0@) == shard,
        ).map_values(|w: ([u8; 16], BeaconWitnessEvent)| w.1),
        Seq::new(
            receipt->events@.len(),
            |i: int|
                (
                    receipt->events@[i].emitter,
                    receipt->events@[i].event_type,
                    receipt->events@[i].payload@,
                ),
        ) == Seq::new(
            events.len(),
            |i: int| (events[i].emitter, events[i].event_type, events[i].payload@),
        ).filter(|e: ([u8; 16], u32, Seq<u8>)| trie.shard_of(e.0@) == shard),
{
    let kept = receipt->events@;
    assert(all_said(kept) =~= Seq::new(
        kept.len(),
        |i: int| (kept[i].emitter, kept[i].event_type, kept[i].payload@),
    ));
    assert(all_said(events) =~= Seq::new(
        events.len(),
        |i: int| (events[i].emitter, events[i].event_type, events[i].payload@),
    ));
    lemma_filter_by(
        all_said(events),
        |e: ([u8; 16], u32, Seq<u8>)| trie.shard_of(e.0@) == shard,
        |e: ([u8; 16], u32, Seq<u8>)| trie.shard_of(e.0@) == shard,
    );
}

/// A projection keeps the transaction's hash and diagnostics and holds no
/// reserve. Of a failure it is a failure that did no work; of a success it is a
/// success that attests the gas it consumed.
pub proof fn law_a_projection_keeps_the_outcome(
    tx: ExecutedTx,
    cached: CachedOutput,
    tx_hash: TxHash,
    shard: ShardId,
    trie: ShardTrie,
)
    requires
        is_projection(tx, cached, tx_hash, shard, trie),
    ensures
        tx.tx_hash == tx_hash,
        tx.metadata == cached.metadata,
        tx.fee_receipt is None,
        tx.consensus is Failed <==> cached.body is Failed,
        cached.body is Failed ==> tx.attested_work == 0,
        cached.body is Succeeded ==> tx.attested_work == cached.body->gas_consumed
            && tx.consensus->receipt_hash == cached.body->receipt_hash,
{
}

} // verus!
