//! Folding a batch of kernel receipts into executed transactions.
use vstd::prelude::*;

use crate::bridge::staking::{
    witness_from_event, witness_of, BeaconWitnessEvent, InstanceRegistry, PackageHash,
    PoolRegistry, VmEvent,
};
use crate::bytes::{le_value, lemma_le_canonical, lemma_widths};
use crate::engine::baseline::{BaseCells, BatchInput};
use crate::engine::commit::{is_content_of, law_writes_determine_content, settle, writes_cell};
use crate::engine::fees::{
    abort_writes, aborted_vault, apply_fee_burn, burn_of, burned, burned_so_far, charged, PayerFee,
};
use crate::engine::fold::{
    folded, fold_delta, left_with, lemma_remainder, standing, Cells, FoldFault, Locality, Outcome,
    Receipt, VmBase,
};
use crate::engine::receipt::{
    all_said, copy_event, events_of, is_slice, law_a_slice_is_what_lives_on_the_shard,
    project_to_shard, said, AbortReason, CachedOutput,
    ConsensusReceipt, ExecutedTx, ExecutionMetadata,
};
use crate::hash::Hash32;
use crate::list::lemma_filter_by;
use crate::order::same_bytes;
use crate::sorted::{lemma_take_next, strictly_sorted, SortedMap};
use crate::storage::canonical::{copy_updates, sort_database_updates, writes_root};
use crate::storage::database::SubstateDatabase;
use crate::storage::state_key::VM_PARTITION;
use crate::storage::updates::NodeContent;
use crate::storage::writes::StateWrites;
use crate::types::{SubstateKey, TxHash};

verus! {

/// Why a batch must not ship.
#[derive(Clone, Copy, Debug, PartialEq, Eq)]
pub enum BatchFault {
    /// A receipt departs from what the kernel vetted.
    Fold(FoldFault),
    /// An update is past the encoding's size limit, so it has no root.
    Oversize,
    /// The fold came out otherwise than the kernel at a cell.
    Diverged(SubstateKey),
}

/// What a fold carries across a batch: the cells as the kernel leaves them,
/// before fees, and the burns that lie over them.
pub struct FoldState {
    /// The cells, before fees.
    pub running: StateWrites,
    /// The burns, by vault.
    pub fees_applied: SortedMap<SubstateKey, u128>,
}

/// A fold's state.
pub ghost struct Folding {
    /// The cells, before fees.
    pub running: Cells,
    /// The burns, by vault.
    pub fees: Map<SubstateKey, u128>,
}

impl View for FoldState {
    type V = Folding;

    open spec fn view(&self) -> Folding {
        Folding { running: self.running@, fees: self.fees_applied@ }
    }
}

/// The writes of a completed transaction, fees included; nothing for an abort.
pub open spec fn writes_of(
    state: Folding,
    base: BaseCells,
    receipt: Receipt,
    fee: Option<PayerFee>,
    local: spec_fn([u8; 16]) -> bool,
) -> Result<Option<Cells>, FoldFault> {
    if receipt.outcome is Completed {
        match folded(receipt.delta, state.running, base, local) {
            Ok(w) => Ok(
                Some(
                    burned(
                        w,
                        state.running.union_prefer_right(w),
                        base,
                        charged(state.fees, fee, receipt.fuel),
                    ),
                ),
            ),
            Err(e) => Err(e),
        }
    } else {
        Ok(None)
    }
}

/// The state after a receipt. An abort leaves it as it was.
pub open spec fn state_after(
    state: Folding,
    base: BaseCells,
    receipt: Receipt,
    fee: Option<PayerFee>,
    local: spec_fn([u8; 16]) -> bool,
) -> Folding {
    if receipt.outcome is Completed {
        match folded(receipt.delta, state.running, base, local) {
            Ok(w) => Folding {
                running: state.running.union_prefer_right(w),
                fees: charged(state.fees, fee, receipt.fuel),
            },
            Err(e) => state,
        }
    } else {
        state
    }
}

/// The writes that an abort settles: the payer's vault less the floor, over
/// the state before the transaction. They are settled where the transaction
/// was aborted, and held in reserve where it still can be.
pub open spec fn abort_of(
    state: Folding,
    base: BaseCells,
    receipt: Receipt,
    fee: Option<PayerFee>,
) -> Option<Cells> {
    match fee {
        Some(payer) => if payer.revocable || !(receipt.outcome is Completed) {
            match aborted_vault(
                state.running,
                base,
                state.fees,
                payer.vault,
                payer.abort_floor,
            ) {
                Some(cell) => Some(Map::empty().insert(payer.vault, cell)),
                None => None,
            }
        } else {
            None
        },
        None => None,
    }
}

/// The writes come to updates that have no root.
pub open spec fn rootless(content: Map<Seq<u8>, NodeContent>, writes: Cells) -> bool {
    is_content_of(content, writes) && writes_root(content) is None
}

/// Writes whose updates have no root.
pub open spec fn oversize(writes: Cells) -> bool {
    exists|content: Map<Seq<u8>, NodeContent>| rootless(content, writes)
}

/// What is wrong with a receipt, if anything is.
pub open spec fn fault_of(
    state: Folding,
    base: BaseCells,
    receipt: Receipt,
    fee: Option<PayerFee>,
    local: spec_fn([u8; 16]) -> bool,
) -> Option<BatchFault> {
    if abort_of(state, base, receipt, fee) is Some && oversize(
        abort_of(state, base, receipt, fee)->0,
    ) {
        Some(BatchFault::Oversize)
    } else {
        match writes_of(state, base, receipt, fee, local) {
            Err(e) => Some(BatchFault::Fold(e)),
            Ok(Some(w)) => if oversize(w) {
                Some(BatchFault::Oversize)
            } else {
                None
            },
            Ok(None) => None,
        }
    }
}

/// What a global receipt is hashed for: what the transaction emitted and wrote
/// over all shards.
#[derive(Debug, PartialEq, Eq)]
pub struct ReceiptSubject {
    /// Its events in emission order, over all shards.
    pub events: Vec<VmEvent>,
    /// The root over its writes.
    pub writes_root: Hash32,
}

/// The subject holds these events and this root.
pub open spec fn is_subject(subject: ReceiptSubject, events: Seq<VmEvent>, root: Hash32) -> bool {
    all_said(subject.events@) == all_said(events) && subject.writes_root == root
}

/// A hash function gives this hash for a receipt over these events and this
/// root.
pub open spec fn hashes_to<F: Fn(&ReceiptSubject) -> Hash32>(
    f: F,
    events: Seq<VmEvent>,
    root: Hash32,
    hash: Hash32,
) -> bool {
    exists|subject: ReceiptSubject| #[trigger]
        is_subject(subject, events, root) && call_ensures(f, (&subject,), hash)
}

/// The hash function goes by what a receipt holds.
pub open spec fn hashes_content<F: Fn(&ReceiptSubject) -> Hash32>(f: F) -> bool {
    forall|a: ReceiptSubject, b: ReceiptSubject, g: Hash32, h: Hash32|
        all_said(a.events@) == all_said(b.events@) && a.writes_root == b.writes_root
            && #[trigger] call_ensures(f, (&a,), g) && #[trigger] call_ensures(f, (&b,), h) ==> g
            == h
}

/// Where a batch runs, and who may speak to the beacon there.
pub struct Scene<'a> {
    /// Which owners the shard folds for.
    pub locality: Locality<'a>,
    /// The pools that the beacon folds for.
    pub pools: &'a PoolRegistry,
    /// The instances.
    pub instances: &'a InstanceRegistry,
    /// The stake pool package.
    pub staking_package: PackageHash,
}

/// The facts that events record, each with its emitter, in order.
pub open spec fn facts_in(events: Seq<VmEvent>, scene: Scene) -> Seq<
    ([u8; 16], BeaconWitnessEvent),
>
    decreases events.len(),
{
    if events.len() == 0 {
        Seq::empty()
    } else {
        let before = facts_in(events.drop_last(), scene);
        match witness_of(
            events.last(),
            scene.pools@,
            scene.instances@,
            scene.staking_package,
        ) {
            Some(fact) => before.push((events.last().emitter, fact)),
            None => before,
        }
    }
}

/// The receipt attests these writes and events: its hash is the hash of the
/// writes' root and of all the events, and it carries the shard's slice of
/// both, and of the facts that the events record.
pub open spec fn attests<F: Fn(&ReceiptSubject) -> Hash32>(
    receipt: ConsensusReceipt,
    writes: Cells,
    events: Seq<VmEvent>,
    scene: Scene,
    f: F,
) -> bool {
    exists|content: Map<Seq<u8>, NodeContent>, root: Hash32, hash: Hash32|
        #![trigger is_content_of(content, writes), hashes_to(f, events, root, hash)]
        is_content_of(content, writes) && writes_root(content) == Some(root.0@) && hashes_to(
            f,
            events,
            root,
            hash,
        ) && is_slice(
            receipt,
            content,
            events,
            hash,
            facts_in(events, scene),
            scene.locality.local_shard,
            *scene.locality.trie,
        )
}

/// Why a transaction was aborted, if it was.
pub open spec fn reason_of(outcome: Outcome) -> Option<AbortReason> {
    match outcome {
        Outcome::Completed => None,
        Outcome::UserError { reason } => Some(AbortReason::Said(reason)),
        Outcome::ProtocolError { reason } => Some(AbortReason::Said(reason)),
        Outcome::Infeasible { key, amount } => Some(AbortReason::Infeasible { key, amount }),
    }
}

/// The work that a shard attests of a transaction, whatever became of it: its
/// declaration, and the fuel that it consumed.
pub open spec fn work_of(receipt: Receipt) -> int {
    if receipt.declared_work + receipt.fuel <= u64::MAX {
        receipt.declared_work + receipt.fuel
    } else {
        u64::MAX as int
    }
}

/// The transaction as the shard executed it, from the state before it.
pub open spec fn is_executed<F: Fn(&ReceiptSubject) -> Hash32>(
    tx: ExecutedTx,
    state: Folding,
    base: BaseCells,
    hash: TxHash,
    receipt: Receipt,
    fee: Option<PayerFee>,
    scene: Scene,
    f: F,
) -> bool {
    &&& tx.tx_hash == hash
    &&& tx.metadata.total_execution_cost == Some(receipt.fuel)
    &&& tx.metadata.error == reason_of(receipt.outcome)
    &&& tx.attested_work == work_of(receipt)
    &&& match writes_of(state, base, receipt, fee, |o: [u8; 16]| scene.locality.local(o)) {
        Ok(Some(w)) => attests(tx.consensus, w, receipt.events@, scene, f),
        _ => tx.consensus is Failed,
    }
    &&& match abort_of(state, base, receipt, fee) {
        Some(w) => tx.fee_receipt is Some && attests(
            tx.fee_receipt->0,
            w,
            Seq::empty(),
            scene,
            f,
        ),
        None => tx.fee_receipt is None,
    }
}

fn lift_facts(events: &Vec<VmEvent>, scene: &Scene) -> (facts: Vec<([u8; 16], BeaconWitnessEvent)>)
    ensures
        facts@ == facts_in(events@, *scene),
{
    let mut facts: Vec<([u8; 16], BeaconWitnessEvent)> = Vec::new();
    let mut i: usize = 0;
    assert(events@.take(0) =~= Seq::empty());
    while i < events.len()
        invariant
            i <= events@.len(),
            facts@ == facts_in(events@.take(i as int), *scene),
        decreases events@.len() - i,
    {
        match witness_from_event(
            &events[i],
            scene.pools,
            scene.instances,
            scene.staking_package,
        ) {
            Some(fact) => facts.push((events[i].emitter, fact)),
            None => {},
        }
        assert(events@.take(i + 1).drop_last() =~= events@.take(i as int));
        i = i + 1;
    }
    assert(events@.take(events@.len() as int) =~= events@);
    facts
}

fn copy_events(events: &Vec<VmEvent>) -> (c: Vec<VmEvent>)
    ensures
        all_said(c@) == all_said(events@),
{
    let mut c: Vec<VmEvent> = Vec::new();
    let mut i: usize = 0;
    while i < events.len()
        invariant
            i <= events@.len(),
            all_said(c@) =~= all_said(events@).take(i as int),
        decreases events@.len() - i,
    {
        let ghost before = c@;
        c.push(copy_event(&events[i]));
        assert(all_said(c@) =~= all_said(before).push(said(events@[i as int])));
        i = i + 1;
    }
    assert(all_said(c@) =~= all_said(events@));
    c
}

/// The transaction that writes come to; nothing, where they have no root.
fn settle_tx<F: Fn(&ReceiptSubject) -> Hash32>(
    tx: TxHash,
    writes: &StateWrites,
    events: &Vec<VmEvent>,
    fuel: u64,
    scene: &Scene,
    receipt_hash: &F,
) -> (r: Option<ExecutedTx>)
    requires
        scene.locality.trie.wf(),
        forall|subject: ReceiptSubject| call_requires(*receipt_hash, (&subject,)),
    ensures
        match r {
            Some(t) => !oversize(writes@) && t.tx_hash == tx && t.metadata == (
            ExecutionMetadata { total_execution_cost: Some(fuel), error: None }) && attests(
                t.consensus,
                writes@,
                events@,
                *scene,
                *receipt_hash,
            ),
            None => oversize(writes@),
        },
{
    let settled = settle(writes);
    let ghost content = settled.updates.content();
    match settled.writes_root {
        None => {
            assert(rootless(content, writes@));
            None
        },
        Some(root) => {
            let subject = ReceiptSubject { events: copy_events(events), writes_root: root };
            let hash = (*receipt_hash)(&subject);
            assert(is_subject(subject, events@, root));
            assert(hashes_to(*receipt_hash, events@, root, hash));
            let metadata = ExecutionMetadata { total_execution_cost: Some(fuel), error: None };
            let facts = lift_facts(events, scene);
            let kept = subject.events;
            let cached = CachedOutput::succeeded(
                settled.updates,
                hash,
                metadata,
                fuel,
                kept,
                facts,
            );
            let t = project_to_shard(
                &cached,
                tx,
                scene.locality.local_shard,
                scene.locality.trie,
            );
            proof {
                assert(is_content_of(content, writes@));
                assert(events_of(kept@, scene.locality.local_shard, *scene.locality.trie)
                    == events_of(events@, scene.locality.local_shard, *scene.locality.trie));
                assert(is_slice(
                    t.consensus,
                    content,
                    events@,
                    hash,
                    facts_in(events@, *scene),
                    scene.locality.local_shard,
                    *scene.locality.trie,
                ));
                assert(writes_root(content) == Some(root.0@));
                assert(attests(t.consensus, writes@, events@, *scene, *receipt_hash));
                if oversize(writes@) {
                    let other = choose|c: Map<Seq<u8>, NodeContent>| rootless(c, writes@);
                    law_writes_determine_content(content, other, writes@);
                }
            }
            Some(t)
        },
    }
}

/// Folds one receipt into the transaction that the shard executed. The receipt
/// that an abort settles is built first: over the state that earlier
/// transactions left, without this one's own burn.
pub fn assemble_executed_tx<F: Fn(&ReceiptSubject) -> Hash32>(
    base: &VmBase,
    fold: &mut FoldState,
    tx: TxHash,
    receipt: &Receipt,
    fee: Option<PayerFee>,
    scene: &Scene,
    receipt_hash: &F,
) -> (r: Result<ExecutedTx, BatchFault>)
    requires
        scene.locality.trie.wf(),
        forall|subject: ReceiptSubject| call_requires(*receipt_hash, (&subject,)),
        fee is Some ==> burned_so_far(old(fold)@.fees, fee->0.vault) + burn_of(fee, receipt.fuel)
            <= u128::MAX,
    ensures
        match fault_of(
            old(fold)@,
            base@,
            *receipt,
            fee,
            |o: [u8; 16]| scene.locality.local(o),
        ) {
            Some(e) => r == Err::<ExecutedTx, BatchFault>(e),
            None => r is Ok && is_executed(
                r->Ok_0,
                old(fold)@,
                base@,
                tx,
                *receipt,
                fee,
                *scene,
                *receipt_hash,
            ) && final(fold)@ == state_after(
                old(fold)@,
                base@,
                *receipt,
                fee,
                |o: [u8; 16]| scene.locality.local(o),
            ),
        },
        r is Ok ==> forall|vault: SubstateKey| #[trigger]
            burned_so_far(final(fold)@.fees, vault) == burned_so_far(old(fold)@.fees, vault) + (
            if receipt.outcome is Completed && fee is Some && fee->0.vault == vault {
                if receipt.fuel as int <= fee->0.max_fee as int {
                    receipt.fuel as int
                } else {
                    fee->0.max_fee as int
                }
            } else {
                0
            }),
{
    let ghost local = |o: [u8; 16]| scene.locality.local(o);
    let ghost before = fold@;
    let completed = match &receipt.outcome {
        Outcome::Completed => true,
        _ => false,
    };
    let abort = match fee {
        Some(payer) => {
            if payer.revocable || !completed {
                abort_writes(
                    &fold.running,
                    base,
                    &fold.fees_applied,
                    payer.vault,
                    payer.abort_floor,
                )
            } else {
                None
            }
        },
        None => None,
    };
    assert(match abort {
        Some(w) => abort_of(before, base@, *receipt, fee) == Some(w@),
        None => abort_of(before, base@, *receipt, fee) is None,
    });
    let silent: Vec<VmEvent> = Vec::new();
    assert(silent@ =~= Seq::empty());
    let fee_receipt: Option<ConsensusReceipt> = match &abort {
        Some(w) => match settle_tx(tx, w, &silent, 0, scene, receipt_hash) {
            Some(t) => Some(t.consensus),
            None => return Err(BatchFault::Oversize),
        },
        None => None,
    };
    let work: u64 = receipt.declared_work.saturating_add(receipt.fuel);
    let error: AbortReason = match &receipt.outcome {
        Outcome::Completed => {
            let mut running = StateWrites::new();
            std::mem::swap(&mut running, &mut fold.running);
            let result = fold_delta(receipt, base, &mut running, &scene.locality);
            match result {
                Err(e) => return Err(BatchFault::Fold(e)),
                Ok(w) => {
                    let mut writes = w;
                    let mut fees: SortedMap<SubstateKey, u128> = SortedMap::new();
                    std::mem::swap(&mut fees, &mut fold.fees_applied);
                    apply_fee_burn(&mut writes, &running, base, &mut fees, fee, receipt.fuel);
                    fold.running = running;
                    fold.fees_applied = fees;
                    assert(writes_of(before, base@, *receipt, fee, local) == Ok::<
                        Option<Cells>,
                        FoldFault,
                    >(Some(writes@)));
                    match settle_tx(
                        tx,
                        &writes,
                        &receipt.events,
                        receipt.fuel,
                        scene,
                        receipt_hash,
                    ) {
                        Some(t) => {
                            let mut executed = t;
                            executed.fee_receipt = fee_receipt;
                            executed.attested_work = work;
                            return Ok(executed);
                        },
                        None => return Err(BatchFault::Oversize),
                    }
                },
            }
        },
        Outcome::UserError { reason } => AbortReason::Said(reason.clone()),
        Outcome::ProtocolError { reason } => AbortReason::Said(reason.clone()),
        Outcome::Infeasible { key, amount } => AbortReason::Infeasible {
            key: *key,
            amount: *amount,
        },
    };
    let metadata = ExecutionMetadata {
        total_execution_cost: Some(receipt.fuel),
        error: Some(error),
    };
    let cached = CachedOutput::failed(metadata);
    let mut executed = project_to_shard(
        &cached,
        tx,
        scene.locality.local_shard,
        scene.locality.trie,
    );
    executed.fee_receipt = fee_receipt;
    executed.attested_work = work;
    Ok(executed)
}

/// What a batch folds: receipts in canonical order, the payers the shard
/// settles, the cells to start from and the owners the shard folds for.
pub ghost struct Run {
    /// The transactions that have a receipt, ascending.
    pub order: Seq<TxHash>,
    /// Their receipts.
    pub receipts: Map<TxHash, Receipt>,
    /// Their payers, where the shard settles them.
    pub fees: Map<TxHash, PayerFee>,
    /// The cells to start from.
    pub base: BaseCells,
    /// The owners that the shard folds for.
    pub local: spec_fn([u8; 16]) -> bool,
}

impl Run {
    /// What the shard charges for the transaction at a position.
    pub open spec fn fee(&self, n: int) -> Option<PayerFee> {
        if self.fees.contains_key(self.order[n]) {
            Some(self.fees[self.order[n]])
        } else {
            None
        }
    }

    /// The state before the receipt at a position.
    pub open spec fn state(&self, n: nat) -> Folding
        decreases n,
    {
        if n == 0 {
            Folding { running: Map::empty(), fees: Map::empty() }
        } else {
            state_after(
                self.state((n - 1) as nat),
                self.base,
                self.receipts[self.order[n - 1]],
                self.fee(n - 1),
                self.local,
            )
        }
    }

    /// What is wrong with the receipt at a position, if anything is.
    pub open spec fn fault(&self, n: nat) -> Option<BatchFault> {
        fault_of(
            self.state(n),
            self.base,
            self.receipts[self.order[n as int]],
            self.fee(n as int),
            self.local,
        )
    }

    /// No receipt before a position is at fault.
    pub open spec fn sound(&self, n: nat) -> bool {
        forall|i: nat| i < n ==> #[trigger] self.fault(i) is None
    }

    /// The transaction at a position as the shard executed it.
    pub open spec fn executed<F: Fn(&ReceiptSubject) -> Hash32>(
        &self,
        tx: ExecutedTx,
        n: nat,
        scene: Scene,
        f: F,
    ) -> bool {
        is_executed(
            tx,
            self.state(n),
            self.base,
            self.order[n as int],
            self.receipts[self.order[n as int]],
            self.fee(n as int),
            scene,
            f,
        )
    }
}

/// The run that a batch's parts make up.
pub open spec fn run_of(
    order: Seq<TxHash>,
    receipts: Map<TxHash, Receipt>,
    fees: Map<TxHash, PayerFee>,
    base: BaseCells,
    locality: Locality,
) -> Run {
    Run { order, receipts, fees, base, local: |o: [u8; 16]| locality.local(o) }
}

/// A step burns no more than the largest fuel.
proof fn lemma_step_burns(
    state: Folding,
    base: BaseCells,
    receipt: Receipt,
    fee: Option<PayerFee>,
    local: spec_fn([u8; 16]) -> bool,
    bound: int,
)
    requires
        forall|v: SubstateKey| #[trigger] burned_so_far(state.fees, v) <= bound,
        0 <= bound,
        bound + u64::MAX <= u128::MAX,
    ensures
        forall|v: SubstateKey| #[trigger]
            burned_so_far(state_after(state, base, receipt, fee, local).fees, v) <= bound + u64::MAX,
{
    let next = state_after(state, base, receipt, fee, local);
    assert forall|v: SubstateKey| #[trigger] burned_so_far(next.fees, v) <= bound + u64::MAX by {
        assert(burned_so_far(state.fees, v) <= bound);
        if fee is Some {
            assert(burned_so_far(state.fees, fee->0.vault) <= bound);
        }
    }
}

/// Folds a batch of receipts in canonical order into the transactions that the
/// shard executed.
pub fn fold_batch<F: Fn(&ReceiptSubject) -> Hash32>(
    receipts: &SortedMap<TxHash, Receipt>,
    fees: &SortedMap<TxHash, PayerFee>,
    base: &VmBase,
    scene: &Scene,
    receipt_hash: &F,
) -> (r: Result<(FoldState, SortedMap<TxHash, ExecutedTx>), BatchFault>)
    requires
        scene.locality.trie.wf(),
        forall|subject: ReceiptSubject| call_requires(*receipt_hash, (&subject,)),
    ensures
        ({
            let run = run_of(receipts.order(), receipts@, fees@, base@, scene.locality);
            match r {
                Ok((fold, done)) => run.sound(run.order.len()) && fold@ == run.state(
                    run.order.len(),
                ) && done@.dom() == receipts@.dom() && done@.dom() == run.order.to_set() && forall|n: nat|
                    n < run.order.len() ==> run.executed(
                        #[trigger] done@[run.order[n as int]],
                        n,
                        *scene,
                        *receipt_hash,
                    ),
                Err(e) => exists|n: nat|
                    n < run.order.len() && run.sound(n) && #[trigger] run.fault(n) == Some(e),
            }
        }),
        strictly_sorted(receipts.order()),
        receipts@.dom() == receipts.order().to_set(),
{
    let ghost run = run_of(receipts.order(), receipts@, fees@, base@, scene.locality);
    let count: usize = receipts.len();
    let mut fold = FoldState { running: StateWrites::new(), fees_applied: SortedMap::new() };
    let mut done: SortedMap<TxHash, ExecutedTx> = SortedMap::new();
    let mut i: usize = 0;
    let ghost order = run.order;
    assert(fold@ == run.state(0));
    assert(order.take(0).to_set() =~= Set::<TxHash>::empty());
    while i < count
        invariant
            i <= count,
            count == order.len(),
            order == receipts.order(),
            order == run.order,
            strictly_sorted(order),
            run == run_of(order, receipts@, fees@, base@, scene.locality),
            receipts@.dom() == order.to_set(),
            scene.locality.trie.wf(),
            forall|subject: ReceiptSubject| call_requires(*receipt_hash, (&subject,)),
            fold@ == run.state(i as nat),
            forall|v: SubstateKey| #[trigger] burned_so_far(fold@.fees, v) <= i * u64::MAX,
            run.sound(i as nat),
            done@.dom() == order.take(i as int).to_set(),
            forall|n: nat|
                n < i ==> run.executed(
                    #[trigger] done@[order[n as int]],
                    n,
                    *scene,
                    *receipt_hash,
                ),
        decreases count - i,
    {
        let tx = receipts.key_at(i);
        let receipt = receipts.value_at(i);
        let fee: Option<PayerFee> = match fees.get(&tx) {
            Some(f) => Some(*f),
            None => None,
        };
        assert(fee == run.fee(i as int));
        proof {
            assert((i + 1) * u64::MAX == i * u64::MAX + u64::MAX) by (nonlinear_arith);
            assert((i + 1) * u64::MAX <= u128::MAX) by (nonlinear_arith)
                requires
                    i + 1 <= u64::MAX,
            ;
            assert(0 <= i * u64::MAX) by (nonlinear_arith);
            lemma_step_burns(
                fold@,
                base@,
                *receipt,
                fee,
                run.local,
                i * u64::MAX,
            );
            if fee is Some {
                assert(burned_so_far(fold@.fees, fee->0.vault) <= i * u64::MAX);
            }
        }
        let ghost before = done@;
        match assemble_executed_tx(base, &mut fold, tx, receipt, fee, scene, receipt_hash) {
            Err(e) => {
                assert(run.fault(i as nat) == Some(e));
                return Err(e);
            },
            Ok(executed) => {
                done.insert(tx, executed);
                proof {
                    assert(run.fault(i as nat) is None);
                    crate::sorted::lemma_sorted_distinct(order);
                    assert forall|n: nat| n < i + 1 implies run.executed(
                        #[trigger] done@[order[n as int]],
                        n,
                        *scene,
                        *receipt_hash,
                    ) by {
                        if n < i {
                            assert(order[n as int] != order[i as int]);
                            assert(done@[order[n as int]] == before[order[n as int]]);
                        }
                    }
                    assert forall|k: TxHash|
                        order.take(i + 1).contains(k) == (order.take(i as int).contains(k) || k
                            == tx) by {
                        lemma_take_next(order, i as int);
                    }
                    assert(done@.dom() =~= order.take(i + 1).to_set());
                }
            },
        }
        i = i + 1;
    }
    assert(order.take(count as int) =~= order);
    Ok((fold, done))
}

/// The first cell at which a fold came out otherwise than the kernel: the
/// lowest folded cell whose value is not the one the kernel's store holds.
pub fn diverged<S: SubstateDatabase>(running: &StateWrites, store: &S) -> (r: Option<SubstateKey>)
    ensures
        match r {
            Some(key) => running@.contains_key(key) && running@[key] != store.cell(key),
            None => forall|key: SubstateKey| #[trigger]
                running@.contains_key(key) ==> running@[key] == store.cell(key),
        },
{
    let count: usize = running.len();
    let ghost order = running.order();
    let mut i: usize = 0;
    while i < count
        invariant
            i <= count,
            count == order.len(),
            order == running.order(),
            running@.dom() == order.to_set(),
            forall|j: int|
                0 <= j < i ==> running@[#[trigger] order[j]] == store.cell(order[j]),
        decreases count - i,
    {
        let key = running.key_at(i);
        let applied = store.substate(key);
        let same = match (running.change_at(i), &applied) {
            (Some(a), Some(b)) => same_bytes(a.as_slice(), b.as_slice()),
            (None, None) => true,
            _ => false,
        };
        if !same {
            assert(order.to_set().contains(key));
            return Some(key);
        }
        i = i + 1;
    }
    proof {
        assert forall|key: SubstateKey| #[trigger] running@.contains_key(key) implies running@[key]
            == store.cell(key) by {
            assert(order.to_set().contains(key));
            let j = order.index_of(key);
            assert(running@[order[j]] == store.cell(order[j]));
        }
    }
    None
}

/// Two receipts say the same.
pub open spec fn same_receipt(a: ConsensusReceipt, b: ConsensusReceipt) -> bool {
    match (a, b) {
        (ConsensusReceipt::Failed, ConsensusReceipt::Failed) => true,
        (
            ConsensusReceipt::Succeeded {
                receipt_hash: h,
                database_updates: u,
                beacon_witness_events: w,
                events: e,
            },
            ConsensusReceipt::Succeeded {
                receipt_hash: h2,
                database_updates: u2,
                beacon_witness_events: w2,
                events: e2,
            },
        ) => h == h2 && u.content() == u2.content() && u2.wf() && u2.sorted() && w@ == w2@
            && all_said(e@) == all_said(e2@),
        _ => false,
    }
}

/// Two executed transactions say the same.
pub open spec fn same_executed(a: ExecutedTx, b: ExecutedTx) -> bool {
    &&& a.tx_hash == b.tx_hash
    &&& a.metadata == b.metadata
    &&& a.attested_work == b.attested_work
    &&& same_receipt(a.consensus, b.consensus)
    &&& match (a.fee_receipt, b.fee_receipt) {
        (Some(x), Some(y)) => same_receipt(x, y),
        (None, None) => true,
        _ => false,
    }
}

/// The receipt holds each key once.
pub open spec fn receipt_wf(receipt: ConsensusReceipt) -> bool {
    match receipt {
        ConsensusReceipt::Failed => true,
        ConsensusReceipt::Succeeded { database_updates, .. } => database_updates.wf(),
    }
}

fn copy_receipt(receipt: &ConsensusReceipt) -> (c: ConsensusReceipt)
    requires
        receipt_wf(*receipt),
    ensures
        same_receipt(*receipt, c),
{
    match receipt {
        ConsensusReceipt::Failed => ConsensusReceipt::Failed,
        ConsensusReceipt::Succeeded {
            receipt_hash,
            database_updates,
            beacon_witness_events,
            events,
        } => {
            let mut updates = copy_updates(database_updates);
            sort_database_updates(&mut updates);
            let mut facts: Vec<BeaconWitnessEvent> = Vec::new();
            facts.extend_from_slice(beacon_witness_events.as_slice());
            assert(facts@ =~= beacon_witness_events@);
            ConsensusReceipt::Succeeded {
                receipt_hash: *receipt_hash,
                database_updates: updates,
                beacon_witness_events: facts,
                events: copy_events(events),
            }
        },
    }
}

fn copy_executed(tx: &ExecutedTx) -> (c: ExecutedTx)
    requires
        receipt_wf(tx.consensus),
        tx.fee_receipt is Some ==> receipt_wf(tx.fee_receipt->0),
    ensures
        same_executed(*tx, c),
{
    ExecutedTx {
        tx_hash: tx.tx_hash,
        consensus: copy_receipt(&tx.consensus),
        metadata: tx.metadata.copy(),
        attested_work: tx.attested_work,
        fee_receipt: match &tx.fee_receipt {
            Some(f) => Some(copy_receipt(f)),
            None => None,
        },
    }
}

/// What attests writes still does when it is copied.
proof fn lemma_same_attests<F: Fn(&ReceiptSubject) -> Hash32>(
    a: ConsensusReceipt,
    b: ConsensusReceipt,
    writes: Cells,
    events: Seq<VmEvent>,
    scene: Scene,
    f: F,
)
    requires
        attests(a, writes, events, scene, f),
        same_receipt(a, b),
    ensures
        attests(b, writes, events, scene, f),
{
    let (content, root, hash) = choose|
        content: Map<Seq<u8>, NodeContent>,
        root: Hash32,
        hash: Hash32,
    |
        #![trigger is_content_of(content, writes), hashes_to(f, events, root, hash)]
        is_content_of(content, writes) && writes_root(content) == Some(root.0@) && hashes_to(
            f,
            events,
            root,
            hash,
        ) && is_slice(
            a,
            content,
            events,
            hash,
            facts_in(events, scene),
            scene.locality.local_shard,
            *scene.locality.trie,
        );
    assert(is_slice(
        b,
        content,
        events,
        hash,
        facts_in(events, scene),
        scene.locality.local_shard,
        *scene.locality.trie,
    ));
    assert(is_content_of(content, writes) && hashes_to(
        f,
        events,
        root,
        hash,
    ));
}

/// An executed transaction holds each key once, and is one when it is copied.
proof fn lemma_executed<F: Fn(&ReceiptSubject) -> Hash32>(
    run: Run,
    a: ExecutedTx,
    n: nat,
    scene: Scene,
    f: F,
)
    requires
        run.executed(a, n, scene, f),
        run.local == (|o: [u8; 16]| scene.locality.local(o)),
    ensures
        receipt_wf(a.consensus),
        a.fee_receipt is Some ==> receipt_wf(a.fee_receipt->0),
        forall|b: ExecutedTx| #[trigger] same_executed(a, b) ==> run.executed(b, n, scene, f),
{
    let hash = run.order[n as int];
    let state = run.state(n);
    let receipt = run.receipts[hash];
    let fee = run.fee(n as int);
    let writes = writes_of(state, run.base, receipt, fee, |o: [u8; 16]| scene.locality.local(o));
    let abort = abort_of(state, run.base, receipt, fee);
    assert forall|b: ExecutedTx| #[trigger] same_executed(a, b) implies run.executed(
        b,
        n,
        scene,
        f,
    ) by {
        if writes is Ok && writes->Ok_0 is Some {
            lemma_same_attests(
                a.consensus,
                b.consensus,
                writes->Ok_0->0,
                receipt.events@,
                scene,
                f,
            );
        }
        if abort is Some {
            lemma_same_attests(
                a.fee_receipt->0,
                b.fee_receipt->0,
                abort->0,
                Seq::empty(),
                scene,
                f,
            );
        }
    }
}

/// A transaction that never got a receipt: it failed for the reason it was
/// refused for, or because its receipt is missing.
pub open spec fn is_refused(tx: ExecutedTx, hash: TxHash, refused: Map<TxHash, String>) -> bool {
    &&& tx.tx_hash == hash
    &&& tx.consensus is Failed
    &&& tx.attested_work == 0
    &&& tx.fee_receipt is None
    &&& tx.metadata.total_execution_cost == Some(0u64)
    &&& tx.metadata.error matches Some(AbortReason::Said(text)) && text@ == (if refused.contains_key(
        hash,
    ) {
        refused[hash]@
    } else {
        "missing batch receipt"@
    })
}

/// What a batch answers for a transaction.
pub open spec fn answers<F: Fn(&ReceiptSubject) -> Hash32>(
    tx: ExecutedTx,
    hash: TxHash,
    run: Run,
    refused: Map<TxHash, String>,
    scene: Scene,
    f: F,
) -> bool {
    if run.receipts.contains_key(hash) {
        exists|n: nat|
            n < run.order.len() && #[trigger] run.order[n as int] == hash && run.executed(
                tx,
                n,
                scene,
                f,
            )
    } else {
        is_refused(tx, hash, refused)
    }
}

/// What settling a batch comes to: an answer for every transaction in the order
/// given, where the fold is sound and ends where the kernel's store does; else
/// the fault.
pub open spec fn settles_to<F: Fn(&ReceiptSubject) -> Hash32, S: SubstateDatabase>(
    r: Result<Seq<ExecutedTx>, BatchFault>,
    transactions: Seq<BatchInput>,
    refused: Map<TxHash, String>,
    run: Run,
    store: S,
    scene: Scene,
    f: F,
) -> bool {
    let end = run.state(run.order.len()).running;
    match r {
        Ok(list) => {
            &&& run.sound(run.order.len())
            &&& forall|key: SubstateKey| #[trigger]
                end.contains_key(key) ==> end[key] == store.cell(key)
            &&& list.len() == transactions.len()
            &&& forall|i: int|
                0 <= i < list.len() ==> answers(
                    #[trigger] list[i],
                    transactions[i].tx,
                    run,
                    refused,
                    scene,
                    f,
                )
        },
        Err(BatchFault::Diverged(key)) => run.sound(run.order.len()) && end.contains_key(key)
            && end[key] != store.cell(key),
        Err(e) => exists|n: nat|
            n < run.order.len() && run.sound(n) && #[trigger] run.fault(n) == Some(e),
    }
}

/// What a list holds, where there is one.
pub open spec fn list_in(r: Result<Vec<ExecutedTx>, BatchFault>) -> Result<
    Seq<ExecutedTx>,
    BatchFault,
> {
    match r {
        Ok(list) => Ok(list@),
        Err(e) => Err(e),
    }
}

/// Folds a batch's receipts, holds the fold against the kernel's own store and
/// answers for every transaction in the order given.
pub fn settle_batch<F: Fn(&ReceiptSubject) -> Hash32, S: SubstateDatabase>(
    transactions: &Vec<BatchInput>,
    refused: &SortedMap<TxHash, String>,
    receipts: &SortedMap<TxHash, Receipt>,
    fees: &SortedMap<TxHash, PayerFee>,
    base: &VmBase,
    store: &S,
    scene: &Scene,
    receipt_hash: &F,
) -> (r: Result<Vec<ExecutedTx>, BatchFault>)
    requires
        scene.locality.trie.wf(),
        forall|subject: ReceiptSubject| call_requires(*receipt_hash, (&subject,)),
    ensures
        settles_to(
            list_in(r),
            transactions@,
            refused@,
            run_of(receipts.order(), receipts@, fees@, base@, scene.locality),
            *store,
            *scene,
            *receipt_hash,
        ),
        strictly_sorted(receipts.order()),
        receipts@.dom() == receipts.order().to_set(),
{
    let ghost run = run_of(receipts.order(), receipts@, fees@, base@, scene.locality);
    let (fold, done) = match fold_batch(receipts, fees, base, scene, receipt_hash) {
        Ok(pair) => pair,
        Err(e) => {
            proof {
                let n = choose|n: nat|
                    n < run.order.len() && run.sound(n) && #[trigger] run.fault(n) == Some(e);
                assert(!(e is Diverged));
            }
            return Err(e);
        },
    };
    match diverged(&fold.running, store) {
        Some(key) => return Err(BatchFault::Diverged(key)),
        None => {},
    }
    let mut list: Vec<ExecutedTx> = Vec::new();
    let mut i: usize = 0;
    while i < transactions.len()
        invariant
            i <= transactions@.len(),
            list@.len() == i,
            scene.locality.trie.wf(),
            run == run_of(receipts.order(), receipts@, fees@, base@, scene.locality),
            done@.dom() == receipts@.dom(),
            done@.dom() == run.order.to_set(),
            forall|n: nat|
                n < run.order.len() ==> run.executed(
                    #[trigger] done@[run.order[n as int]],
                    n,
                    *scene,
                    *receipt_hash,
                ),
            forall|j: int|
                0 <= j < i ==> answers(
                    #[trigger] list@[j],
                    transactions@[j].tx,
                    run,
                    refused@,
                    *scene,
                    *receipt_hash,
                ),
        decreases transactions@.len() - i,
    {
        let hash = transactions[i].tx;
        let tx: ExecutedTx = match done.get(&hash) {
            Some(executed) => {
                proof {
                    assert(receipts.order().to_set().contains(hash));
                    let n = receipts.order().index_of(hash) as nat;
                    assert(run.executed(
                        done@[run.order[n as int]],
                        n,
                        *scene,
                        *receipt_hash,
                    ));
                    lemma_executed(run, *executed, n, *scene, *receipt_hash);
                }
                let copy = copy_executed(executed);
                assert(same_executed(*executed, copy));
                copy
            },
            None => {
                let reason: String = match refused.get(&hash) {
                    Some(text) => text.clone(),
                    None => "missing batch receipt".to_string(),
                };
                let metadata = ExecutionMetadata {
                    total_execution_cost: Some(0),
                    error: Some(AbortReason::Said(reason)),
                };
                let cached = CachedOutput::failed(metadata);
                project_to_shard(
                    &cached,
                    hash,
                    scene.locality.local_shard,
                    scene.locality.trie,
                )
            },
        };
        assert(answers(tx, hash, run, refused@, *scene, *receipt_hash));
        list.push(tx);
        i = i + 1;
    }
    Ok(list)
}

/// Shards that attest the same writes and events attest them under the same
/// hash, whichever part of them each one keeps: the hash covers the union of
/// both.
pub proof fn law_shards_agree_on_a_receipt<F: Fn(&ReceiptSubject) -> Hash32>(
    a: ConsensusReceipt,
    b: ConsensusReceipt,
    writes: Cells,
    events: Seq<VmEvent>,
    here: Scene,
    there: Scene,
    f: F,
)
    requires
        attests(a, writes, events, here, f),
        attests(b, writes, events, there, f),
        hashes_content(f),
    ensures
        a is Succeeded,
        b is Succeeded,
        a->receipt_hash == b->receipt_hash,
{
    let (mine, root, hash) = choose|
        content: Map<Seq<u8>, NodeContent>,
        root: Hash32,
        hash: Hash32,
    |
        #![trigger is_content_of(content, writes), hashes_to(f, events, root, hash)]
        is_content_of(content, writes) && writes_root(content) == Some(root.0@) && hashes_to(
            f,
            events,
            root,
            hash,
        ) && is_slice(
            a,
            content,
            events,
            hash,
            facts_in(events, here),
            here.locality.local_shard,
            *here.locality.trie,
        );
    let (yours, base, mark) = choose|
        content: Map<Seq<u8>, NodeContent>,
        root: Hash32,
        hash: Hash32,
    |
        #![trigger is_content_of(content, writes), hashes_to(f, events, root, hash)]
        is_content_of(content, writes) && writes_root(content) == Some(root.0@) && hashes_to(
            f,
            events,
            root,
            hash,
        ) && is_slice(
            b,
            content,
            events,
            hash,
            facts_in(events, there),
            there.locality.local_shard,
            *there.locality.trie,
        );
    law_writes_determine_content(mine, yours, writes);
    assert(root.0@ == base.0@);
    assert(root.0 =~= base.0);
    assert(root == base);
    let mine = choose|subject: ReceiptSubject| #[trigger]
        is_subject(subject, events, root) && call_ensures(f, (&subject,), hash);
    let yours = choose|subject: ReceiptSubject| #[trigger]
        is_subject(subject, events, root) && call_ensures(f, (&subject,), mark);
    assert(all_said(mine.events@) == all_said(yours.events@));
    assert(hash == mark);
}

/// An attempt attests its declaration whatever became of it, and one that
/// consumed fuel attests more than one of the same declaration that did not.
pub proof fn law_work_counts_the_declaration(idle: Receipt, busy: Receipt)
    requires
        idle.declared_work == busy.declared_work,
        idle.fuel == 0,
        busy.fuel > 0,
        busy.declared_work + busy.fuel <= u64::MAX,
    ensures
        work_of(idle) == idle.declared_work,
        work_of(busy) > work_of(idle),
{
}

/// A settled batch attests work for every transaction that has a receipt, the
/// failed ones too, and for no other. Of two settled transactions of one
/// declaration, the one that ran attests more than the one that never started,
/// which still attests what it declared.
pub proof fn law_settled_work_counts_the_declaration<
    F: Fn(&ReceiptSubject) -> Hash32,
    S: SubstateDatabase,
>(
    list: Seq<ExecutedTx>,
    transactions: Seq<BatchInput>,
    refused: Map<TxHash, String>,
    run: Run,
    store: S,
    scene: Scene,
    f: F,
)
    requires
        settles_to(
            Ok::<Seq<ExecutedTx>, BatchFault>(list),
            transactions,
            refused,
            run,
            store,
            scene,
            f,
        ),
    ensures
        forall|i: int|
            0 <= i < list.len() ==> (#[trigger] list[i]).attested_work == (
            if run.receipts.contains_key(transactions[i].tx) {
                work_of(run.receipts[transactions[i].tx])
            } else {
                0
            }),
        forall|i: int, j: int|
            #![trigger list[i], list[j]]
            0 <= i < list.len() && 0 <= j < list.len() && run.receipts.contains_key(
                transactions[i].tx,
            ) && run.receipts.contains_key(transactions[j].tx) ==> {
                let failed = run.receipts[transactions[i].tx];
                let completed = run.receipts[transactions[j].tx];
                failed.fuel == 0 && completed.fuel > 0 && failed.declared_work
                    == completed.declared_work && failed.declared_work < u64::MAX ==> {
                    &&& list[i].attested_work == failed.declared_work
                    &&& list[j].attested_work > list[i].attested_work
                }
            },
{
    assert forall|i: int| 0 <= i < list.len() implies (#[trigger] list[i]).attested_work == (
    if run.receipts.contains_key(transactions[i].tx) {
        work_of(run.receipts[transactions[i].tx])
    } else {
        0
    }) by {
        assert(answers(list[i], transactions[i].tx, run, refused, scene, f));
    }
}

/// A transaction that was aborted settles nothing but its payer's floor, and
/// one that completed beyond recall holds nothing in reserve.
pub proof fn law_an_abort_settles_only_its_payers_vault(
    state: Folding,
    base: BaseCells,
    receipt: Receipt,
    fee: Option<PayerFee>,
    key: SubstateKey,
)
    ensures
        match abort_of(state, base, receipt, fee) {
            Some(cells) => fee is Some && (cells.contains_key(key) <==> key == fee->0.vault),
            None => true,
        },
        fee is None ==> abort_of(state, base, receipt, fee) is None,
        receipt.outcome is Completed && fee is Some && !fee->0.revocable ==> abort_of(
            state,
            base,
            receipt,
            fee,
        ) is None,
{
}

/// What the completed transactions before a position owe from a vault: of each
/// that names it as its payer, the fuel it consumed or the ceiling it signed,
/// whichever is less.
pub open spec fn owed_before(run: Run, n: nat, vault: SubstateKey) -> nat
    decreases n,
{
    if n == 0 {
        0
    } else {
        let tx = run.order[n - 1];
        let owed: nat = if run.receipts[tx].outcome is Completed && run.fees.dom().contains(tx)
            && run.fees[tx].vault == vault {
            if (run.receipts[tx].fuel as u128) <= run.fees[tx].max_fee {
                run.receipts[tx].fuel as nat
            } else {
                run.fees[tx].max_fee as nat
            }
        } else {
            0
        };
        owed_before(run, (n - 1) as nat, vault) + owed
    }
}

/// Burns add up over a batch: before each receipt, what is recorded as burned
/// from a vault is the whole sum that the completed transactions before it owe
/// from that vault, and never less than it was at an earlier one.
pub proof fn law_burns_add_up(run: Run, n: nat, vault: SubstateKey)
    requires
        run.sound(n),
        n <= u64::MAX,
    ensures
        owed_before(run, n, vault) == (if run.state(n).fees.dom().contains(vault) {
            run.state(n).fees[vault] as nat
        } else {
            0
        }),
        run.state(n).fees.dom().contains(vault) <==> owed_before(run, n, vault) > 0,
        owed_before(run, n, vault) <= n * u64::MAX,
        forall|m: nat| m <= n ==> #[trigger] owed_before(run, m, vault) <= owed_before(run, n, vault),
    decreases n,
{
    if n > 0 {
        let p = (n - 1) as nat;
        assert forall|i: nat| i < p implies #[trigger] run.fault(i) is None by {}
        law_burns_add_up(run, p, vault);
        assert(run.fault(p) is None);
        assert(p * u64::MAX + u64::MAX == n * u64::MAX) by (nonlinear_arith)
            requires
                n == p + 1,
        ;
        assert(n * u64::MAX <= u128::MAX) by (nonlinear_arith)
            requires
                n <= u64::MAX,
        ;
    }
}

/// The fold's cells before fees: a completed receipt leaves each cell that its
/// delta writes as the delta folds to, and every other as it was; an aborted one
/// leaves all.
pub proof fn law_the_fold_carries_each_receipts_cells(run: Run, n: nat, key: SubstateKey)
    requires
        run.sound((n + 1) as nat),
        n < run.order.len(),
    ensures
        ({
            let receipt = run.receipts[run.order[n as int]];
            let before = run.state(n).running;
            let after = run.state((n + 1) as nat).running;
            let delta = folded(receipt.delta, before, run.base, run.local);
            &&& receipt.outcome is Completed ==> delta is Ok
            &&& receipt.outcome is Completed && delta->Ok_0.dom().contains(key)
                ==> after.dom().contains(key) && after[key] == delta->Ok_0[key]
            &&& !(receipt.outcome is Completed && delta->Ok_0.dom().contains(key)) ==> (
            after.dom().contains(key) <==> before.dom().contains(key)) && (before.dom().contains(key)
                ==> after[key] == before[key])
        }),
{
    assert(run.fault(n) is None);
}

/// What a completed transaction is attested to write. A vault that owes and
/// holds an amount before fees is written with that amount less all that the
/// batch has it owe so far, at least nothing, and is deleted at nothing; it is
/// written even where the transaction itself left it alone. Every other cell is
/// written exactly where the transaction wrote it, with what it wrote.
pub proof fn law_a_write_carries_every_burn(run: Run, n: nat, key: SubstateKey)
    requires
        run.sound((n + 1) as nat),
        n < run.order.len(),
        n < u64::MAX,
        run.receipts[run.order[n as int]].outcome is Completed,
    ensures
        ({
            let receipt = run.receipts[run.order[n as int]];
            let after = run.state((n + 1) as nat).running;
            let attested = writes_of(run.state(n), run.base, receipt, run.fee(n as int), run.local);
            let delta = folded(receipt.delta, run.state(n).running, run.base, run.local)->Ok_0;
            let cell = standing(after, run.base, key);
            let owed = owed_before(run, (n + 1) as nat, key);
            &&& attested is Ok && attested->Ok_0 is Some
            &&& owed > 0 && cell is Some && cell->0.len() == 16
                ==> attested->Ok_0->0.dom().contains(key) && left_with(
                attested->Ok_0->0[key],
                if le_value(cell->0) >= owed {
                    le_value(cell->0) - owed
                } else {
                    0
                },
            )
            &&& !(owed > 0 && cell is Some && cell->0.len() == 16) ==> (
            attested->Ok_0->0.dom().contains(key) <==> delta.dom().contains(key)) && (
            delta.dom().contains(key) ==> attested->Ok_0->0[key] == delta[key])
        }),
{
    assert(run.fault(n) is None);
    let receipt = run.receipts[run.order[n as int]];
    let after = run.state((n + 1) as nat).running;
    let cell = standing(after, run.base, key);
    law_burns_add_up(run, (n + 1) as nat, key);
    if cell is Some && cell->0.len() == 16 {
        lemma_le_canonical(cell->0);
        lemma_widths();
        let owed = owed_before(run, (n + 1) as nat, key);
        if le_value(cell->0) >= owed {
            lemma_remainder((le_value(cell->0) - owed) as nat);
        } else {
            lemma_remainder(0);
        }
    }
}

/// What an abort is attested to write: where the payer's vault holds an amount
/// before fees, that amount less all that the batch has it owe before this
/// transaction, less the floor, at least nothing at each step; no other cell.
/// It is held ready only where the transaction failed or can still be revoked.
pub proof fn law_an_abort_pays_the_floor_on_top(run: Run, n: nat)
    requires
        run.sound(n),
        n < run.order.len(),
        n < u64::MAX,
    ensures
        ({
            let tx = run.order[n as int];
            let receipt = run.receipts[tx];
            let payer = run.fees[tx];
            let cell = standing(run.state(n).running, run.base, payer.vault);
            let owed = owed_before(run, n, payer.vault) + payer.abort_floor;
            let abort = abort_of(run.state(n), run.base, receipt, run.fee(n as int));
            &&& abort is Some <==> run.fees.dom().contains(tx) && (payer.revocable
                || !(receipt.outcome is Completed)) && cell is Some && cell->0.len() == 16
            &&& abort is Some ==> abort->0.dom() =~= set![payer.vault] && left_with(
                abort->0[payer.vault],
                if le_value(cell->0) >= owed {
                    le_value(cell->0) - owed
                } else {
                    0
                },
            )
        }),
{
    let tx = run.order[n as int];
    let payer = run.fees[tx];
    let cell = standing(run.state(n).running, run.base, payer.vault);
    law_burns_add_up(run, n, payer.vault);
    if cell is Some && cell->0.len() == 16 {
        lemma_le_canonical(cell->0);
        lemma_widths();
        let owed = owed_before(run, n, payer.vault) + payer.abort_floor;
        if le_value(cell->0) >= owed {
            lemma_remainder((le_value(cell->0) - owed) as nat);
        } else {
            lemma_remainder(0);
        }
    }
}

/// The facts of a transaction are those of its events that record one, each with
/// its emitter, in emission order.
pub proof fn law_facts_are_the_events_facts(events: Seq<VmEvent>, scene: Scene)
    ensures
        facts_in(events, scene) == events.filter(
            |e: VmEvent|
                witness_of(e, scene.pools@, scene.instances@, scene.staking_package) is Some,
        ).map_values(
            |e: VmEvent|
                (
                    e.emitter,
                    witness_of(e, scene.pools@, scene.instances@, scene.staking_package)->0,
                ),
        ),
    decreases events.len(),
{
    reveal(Seq::filter);
    let tells = |e: VmEvent|
        witness_of(e, scene.pools@, scene.instances@, scene.staking_package) is Some;
    let told = |e: VmEvent|
        (e.emitter, witness_of(e, scene.pools@, scene.instances@, scene.staking_package)->0);
    if events.len() > 0 {
        law_facts_are_the_events_facts(events.drop_last(), scene);
        let before = events.drop_last().filter(tells);
        assert(facts_in(events, scene) =~= events.filter(tells).map_values(told));
    } else {
        assert(facts_in(events, scene) =~= events.filter(tells).map_values(told));
    }
}

/// A receipt carries the writes of the shard's own cells, each as it was written,
/// and no cell that was not. Its hash is the hash of a subject that lists every
/// event, the other shards' too.
pub proof fn law_a_receipt_carries_the_shards_writes<F: Fn(&ReceiptSubject) -> Hash32>(
    receipt: ConsensusReceipt,
    writes: Cells,
    events: Seq<VmEvent>,
    scene: Scene,
    f: F,
    key: SubstateKey,
)
    requires
        attests(receipt, writes, events, scene, f),
    ensures
        receipt is Succeeded,
        ({
            let content = receipt->database_updates.content();
            let carried = content.contains_key(key.owner@) && content[key.owner@].contains_key(
                VM_PARTITION,
            ) && content[key.owner@][VM_PARTITION].1.contains_key(key.local@);
            &&& carried <==> writes.contains_key(key) && scene.locality.trie.shard_of(key.owner@)
                == scene.locality.local_shard
            &&& carried ==> content[key.owner@][VM_PARTITION].1[key.local@] == writes[key]
        }),
        exists|subject: ReceiptSubject|
            #![trigger call_ensures(f, (&subject,), receipt->receipt_hash)]
            call_ensures(f, (&subject,), receipt->receipt_hash) && subject.events@.len()
                == events.len() && forall|i: int|
                0 <= i < events.len() ==> (#[trigger] subject.events@[i]).emitter
                    == events[i].emitter && subject.events@[i].event_type == events[i].event_type
                    && subject.events@[i].payload@ == events[i].payload@,
        Seq::new(
            receipt->events@.len(),
            |i: int|
                (
                    receipt->events@[i].emitter,
                    receipt->events@[i].event_type,
                    receipt->events@[i].payload@,
                ),
        ) == Seq::new(
            events.len(),
            |i: int| (events[i].emitter, events[i].event_type, events[i].payload@),
        ).filter(
            |e: ([u8; 16], u32, Seq<u8>)|
                scene.locality.trie.shard_of(e.0@) == scene.locality.local_shard,
        ),
{
    let (content, root, hash) = choose|
        content: Map<Seq<u8>, NodeContent>,
        root: Hash32,
        hash: Hash32,
    |
        #![trigger is_content_of(content, writes), hashes_to(f, events, root, hash)]
        is_content_of(content, writes) && writes_root(content) == Some(root.0@) && hashes_to(
            f,
            events,
            root,
            hash,
        ) && is_slice(
            receipt,
            content,
            events,
            hash,
            facts_in(events, scene),
            scene.locality.local_shard,
            *scene.locality.trie,
        );
    let shard = scene.locality.local_shard;
    let trie = *scene.locality.trie;
    law_a_slice_is_what_lives_on_the_shard(
        receipt,
        content,
        events,
        hash,
        facts_in(events, scene),
        shard,
        trie,
    );
    lemma_filter_by(
        Seq::new(
            events.len(),
            |i: int| (events[i].emitter, events[i].event_type, events[i].payload@),
        ),
        |e: ([u8; 16], u32, Seq<u8>)| trie.shard_of(e.0@) == shard,
        |e: ([u8; 16], u32, Seq<u8>)|
            scene.locality.trie.shard_of(e.0@) == scene.locality.local_shard,
    );
    let subject = choose|subject: ReceiptSubject| #[trigger]
        is_subject(subject, events, root) && call_ensures(f, (&subject,), hash);
    assert(all_said(subject.events@).len() == all_said(events).len());
    assert forall|i: int| 0 <= i < events.len() implies (#[trigger] subject.events@[i]).emitter
        == events[i].emitter && subject.events@[i].event_type == events[i].event_type
        && subject.events@[i].payload@ == events[i].payload@ by {
        assert(all_said(subject.events@)[i] == all_said(events)[i]);
    }
    assert(call_ensures(f, (&subject,), receipt->receipt_hash));
    let kept = receipt->database_updates.content();
    let owner = key.owner@;
    if kept.contains_key(owner) && kept[owner].contains_key(VM_PARTITION)
        && kept[owner][VM_PARTITION].1.contains_key(key.local@) {
        assert(content.contains_key(owner));
        assert(content[owner].contains_key(VM_PARTITION));
        assert(content[owner][VM_PARTITION].1.contains_key(key.local@));
        assert(writes_cell(writes, owner, key.local@));
        let other = choose|k: SubstateKey| #[trigger]
            writes.contains_key(k) && k.owner@ == owner && k.local@ == key.local@;
        assert(other.owner =~= key.owner);
        assert(other.local =~= key.local);
        assert(other == key);
    }
    if writes.contains_key(key) && trie.shard_of(owner) == shard {
        assert(content.contains_key(owner));
        assert(kept.contains_key(owner));
    }
}

/// An executed transaction says how it came out: its hash and its fuel; the words
/// or the shortfall that it failed for, and none where it completed; the work of
/// its declaration and its fuel together, as far as that can be counted; a
/// success that attests its writes and events exactly where it completed; and a
/// receipt in reserve, over what an abort settles and no event, exactly where an
/// abort settles something.
pub proof fn law_an_executed_transaction_says_how_it_came_out<F: Fn(&ReceiptSubject) -> Hash32>(
    tx: ExecutedTx,
    state: Folding,
    base: BaseCells,
    hash: TxHash,
    receipt: Receipt,
    fee: Option<PayerFee>,
    scene: Scene,
    f: F,
)
    requires
        is_executed(tx, state, base, hash, receipt, fee, scene, f),
        fault_of(state, base, receipt, fee, |o: [u8; 16]| scene.locality.local(o)) is None,
    ensures
        tx.tx_hash == hash,
        tx.metadata.total_execution_cost == Some(receipt.fuel),
        match receipt.outcome {
            Outcome::Completed => tx.metadata.error is None,
            Outcome::UserError { reason } => tx.metadata.error == Some(AbortReason::Said(reason)),
            Outcome::ProtocolError { reason } => tx.metadata.error == Some(
                AbortReason::Said(reason),
            ),
            Outcome::Infeasible { key, amount } => tx.metadata.error == Some(
                AbortReason::Infeasible { key, amount },
            ),
        },
        receipt.declared_work + receipt.fuel <= u64::MAX ==> tx.attested_work
            == receipt.declared_work + receipt.fuel,
        receipt.declared_work + receipt.fuel > u64::MAX ==> tx.attested_work == u64::MAX,
        tx.consensus is Succeeded <==> receipt.outcome is Completed,
        receipt.outcome is Completed ==> attests(
            tx.consensus,
            writes_of(state, base, receipt, fee, |o: [u8; 16]| scene.locality.local(o))->Ok_0->0,
            receipt.events@,
            scene,
            f,
        ),
        tx.fee_receipt is Some <==> abort_of(state, base, receipt, fee) is Some,
        tx.fee_receipt is Some ==> attests(
            tx.fee_receipt->0,
            abort_of(state, base, receipt, fee)->0,
            Seq::empty(),
            scene,
            f,
        ),
{
}

/// A settled batch answers for each transaction under its own hash. One without a
/// receipt has failed at no cost and with no reserve, for the words it was
/// refused for, or else for want of a receipt; one with a receipt stands as it
/// was executed at its place among the receipts, from the state that those
/// before it left.
pub proof fn law_every_transaction_is_answered<
    F: Fn(&ReceiptSubject) -> Hash32,
    S: SubstateDatabase,
>(
    list: Seq<ExecutedTx>,
    transactions: Seq<BatchInput>,
    refused: Map<TxHash, String>,
    run: Run,
    store: S,
    scene: Scene,
    f: F,
    i: int,
)
    requires
        settles_to(
            Ok::<Seq<ExecutedTx>, BatchFault>(list),
            transactions,
            refused,
            run,
            store,
            scene,
            f,
        ),
        0 <= i < transactions.len(),
    ensures
        list.len() == transactions.len(),
        list[i].tx_hash == transactions[i].tx,
        run.receipts.contains_key(transactions[i].tx) ==> exists|n: nat|
            n < run.order.len() && #[trigger] run.order[n as int] == transactions[i].tx
                && is_executed(
                list[i],
                run.state(n),
                run.base,
                transactions[i].tx,
                run.receipts[transactions[i].tx],
                run.fee(n as int),
                scene,
                f,
            ),
        !run.receipts.contains_key(transactions[i].tx) ==> {
            &&& list[i].consensus is Failed
            &&& list[i].attested_work == 0
            &&& list[i].fee_receipt is None
            &&& list[i].metadata.total_execution_cost == Some(0u64)
            &&& list[i].metadata.error is Some
            &&& list[i].metadata.error->0 is Said
            &&& refused.contains_key(transactions[i].tx) ==> list[i].metadata.error->0->Said_0@
                == refused[transactions[i].tx]@
            &&& !refused.contains_key(transactions[i].tx) ==> list[i].metadata.error->0->Said_0@
                == "missing batch receipt"@
        },
        forall|key: SubstateKey|
            #![trigger store.cell(key)]
            run.state(run.order.len()).running.contains_key(key) ==> run.state(
                run.order.len(),
            ).running[key] == store.cell(key),
{
    assert(answers(list[i], transactions[i].tx, run, refused, scene, f));
}

/// Writes are oversize exactly where the updates that they come to have no root.
pub proof fn law_oversize_writes_have_no_root(content: Map<Seq<u8>, NodeContent>, writes: Cells)
    requires
        is_content_of(content, writes),
    ensures
        oversize(writes) <==> writes_root(content) is None,
{
    if oversize(writes) {
        let other = choose|c: Map<Seq<u8>, NodeContent>| rootless(c, writes);
        law_writes_determine_content(content, other, writes);
    }
    if writes_root(content) is None {
        assert(rootless(content, writes));
    }
}

/// A receipt is at fault exactly where what an abort would settle has no root, or,
/// where it completed, where its delta does not fold or what it writes has no
/// root. A fold that departs is told from writes that are oversize, and an abort
/// that is oversize comes first.
pub proof fn law_what_is_wrong_with_a_receipt(
    state: Folding,
    base: BaseCells,
    receipt: Receipt,
    fee: Option<PayerFee>,
    local: spec_fn([u8; 16]) -> bool,
)
    ensures
        ({
            let fault = fault_of(state, base, receipt, fee, local);
            let abort = abort_of(state, base, receipt, fee);
            let delta = folded(receipt.delta, state.running, base, local);
            let writes = writes_of(state, base, receipt, fee, local);
            let abort_bad = abort is Some && oversize(abort->0);
            let fold_bad = receipt.outcome is Completed && delta is Err;
            let writes_bad = receipt.outcome is Completed && delta is Ok && oversize(
                writes->Ok_0->0,
            );
            &&& fault is None <==> !abort_bad && !fold_bad && !writes_bad
            &&& fault matches Some(BatchFault::Fold(e)) ==> !abort_bad && fold_bad && delta->Err_0
                == e
            &&& fault == Some(BatchFault::Oversize) <==> abort_bad || writes_bad
            &&& !(fault matches Some(BatchFault::Diverged(_)))
        }),
{
}

/// Behind the last completed receipt nothing more is owed and no cell moves.
proof fn lemma_idle_tail(run: Run, n: nat, end: nat, vault: SubstateKey)
    requires
        n < end,
        forall|i: int|
            n < i < end ==> !((#[trigger] run.receipts[run.order[i]]).outcome is Completed),
    ensures
        owed_before(run, end, vault) == owed_before(run, (n + 1) as nat, vault),
        run.state(end) == run.state((n + 1) as nat),
    decreases end,
{
    if end > n + 1 {
        lemma_idle_tail(run, n, (end - 1) as nat, vault);
        assert(!(run.receipts[run.order[end - 1]].outcome is Completed));
    }
}

/// Over a whole batch a payer's vault is left with what it holds before fees less
/// all that the batch has it owe: that is what the last completed receipt writes
/// there, at least nothing, and deleted at nothing.
pub proof fn law_the_last_write_carries_the_whole_sum(run: Run, n: nat, vault: SubstateKey)
    requires
        n < run.order.len(),
        run.order.len() <= u64::MAX,
        run.sound(run.order.len()),
        run.receipts[run.order[n as int]].outcome is Completed,
        forall|i: int|
            n < i < run.order.len() ==> !((
            #[trigger] run.receipts[run.order[i]]).outcome is Completed),
    ensures
        ({
            let end = run.order.len();
            let attested = writes_of(
                run.state(n),
                run.base,
                run.receipts[run.order[n as int]],
                run.fee(n as int),
                run.local,
            );
            let cell = standing(run.state(end).running, run.base, vault);
            let owed = owed_before(run, end, vault);
            owed > 0 && cell is Some && cell->0.len() == 16 ==> attested is Ok && attested->Ok_0
                is Some && attested->Ok_0->0.dom().contains(vault) && left_with(
                attested->Ok_0->0[vault],
                if le_value(cell->0) >= owed {
                    le_value(cell->0) - owed
                } else {
                    0
                },
            )
        }),
{
    lemma_idle_tail(run, n, run.order.len(), vault);
    assert forall|i: nat| i < n + 1 implies #[trigger] run.fault(i) is None by {}
    law_a_write_carries_every_burn(run, n, vault);
}

/// A run is made of just the parts that a batch is folded from: its receipts, its
/// payers, its base and the owners that the shard folds for. A position's payer is
/// the payer of the transaction there, where the shard settles one.
pub proof fn law_a_run_is_made_of_its_parts(
    order: Seq<TxHash>,
    receipts: Map<TxHash, Receipt>,
    fees: Map<TxHash, PayerFee>,
    base: BaseCells,
    locality: Locality,
    n: int,
    owner: [u8; 16],
)
    ensures
        ({
            let run = run_of(order, receipts, fees, base, locality);
            &&& run.order == order && run.receipts == receipts && run.fees == fees
            &&& run.base == base
            &&& (run.local)(owner) == locality.local(owner)
            &&& run.fee(n) is Some <==> fees.contains_key(order[n])
            &&& fees.contains_key(order[n]) ==> run.fee(n)->0 == fees[order[n]]
            &&& run.state(0).running.dom() =~= Set::<SubstateKey>::empty()
            &&& run.state(0).fees.dom() =~= Set::<SubstateKey>::empty()
        }),
{
}

} // verus!
