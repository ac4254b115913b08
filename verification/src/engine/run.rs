//! Executing a batch: planning it, having the kernel run it, and settling what
//! came out.
use vstd::prelude::*;

use crate::bridge::checks::MetadataLimits;
use crate::engine::baseline::{BatchInput, PreparedTx};
use crate::engine::batch::{list_in, run_of, settle_batch, settles_to, BatchFault, ReceiptSubject, Scene};
use crate::engine::deploy::{amend, are_amended, file_packages, filed, held, Deployed};
use crate::engine::fold::{Receipt, VmBase};
use crate::engine::plan::{
    is_request_order, one_anchor, plan_cross_shard_batch, plan_wave_batch, request_anchors,
    request_cells, request_txs, BatchPlan, BatchTx, CrossShardTxInput, TreeFate, TxAnchor,
};
use crate::engine::receipt::ExecutedTx;
use crate::hash::Hash32;
use crate::sorted::{strictly_sorted, SortedMap};
use crate::storage::database::SubstateDatabase;
use crate::types::TxHash;

verus! {

/// What the kernel made of a batch.
pub struct KernelOutcome<T> {
    /// The receipt of each transaction that it ran.
    pub receipts: SortedMap<TxHash, Receipt>,
    /// The store as the kernel left it.
    pub store: T,
}

/// The engine: the kernel that runs a batch, the hash of a global receipt, and
/// the limits that packages are held to.
pub struct VmExecutor<K, F> {
    /// Runs a batch from the committed cells.
    pub kernel: K,
    /// Hashes a global receipt.
    pub receipt_hash: F,
    /// The limits on published packages.
    pub limits: MetadataLimits,
}

/// The receipts and the store are what the kernel made of a plan, with the
/// plan's publishes filed.
pub open spec fn files_publishes<T>(
    receipts: SortedMap<TxHash, Receipt>,
    store: Deployed<T>,
    out: KernelOutcome<T>,
    plan: BatchPlan,
) -> bool {
    &&& strictly_sorted(receipts.order())
    &&& receipts@.dom() == receipts.order().to_set()
    &&& are_amended(receipts@, out.receipts@, plan.prepared@)
    &&& store.store == out.store
    &&& held(store.packages@) == filed(
        plan.prepared.order(),
        plan.prepared@,
        plan.prepared.order().len(),
    )
}

/// A planned batch was run and settled: the kernel is handed the plan's own
/// cells and transactions, the plan's publishes are filed over what it made of
/// them, and the receipts are settled over the same cells, for the plan's
/// payers, with the plan's refusals.
pub open spec fn runs_plan<
    T: SubstateDatabase,
    K: Fn(&VmBase, &Vec<BatchTx>, &SortedMap<TxHash, PreparedTx>) -> KernelOutcome<T>,
    F: Fn(&ReceiptSubject) -> Hash32,
>(
    r: Result<Seq<ExecutedTx>, BatchFault>,
    plan: BatchPlan,
    transactions: Seq<BatchInput>,
    scene: Scene,
    kernel: K,
    f: F,
) -> bool {
    exists|
        out: KernelOutcome<T>,
        receipts: SortedMap<TxHash, Receipt>,
        store: Deployed<T>,
    | #[trigger]
        files_publishes(receipts, store, out, plan) && call_ensures(
            kernel,
            (&plan.base, &plan.batch, &plan.prepared),
            out,
        ) && settles_to(
            r,
            transactions,
            plan.refused@,
            run_of(receipts.order(), receipts@, plan.fees@, plan.base@, scene.locality),
            store,
            scene,
            f,
        )
}

/// The kernel runs any batch, and any receipt has a hash.
pub open spec fn is_ready<
    T,
    K: Fn(&VmBase, &Vec<BatchTx>, &SortedMap<TxHash, PreparedTx>) -> KernelOutcome<T>,
    F: Fn(&ReceiptSubject) -> Hash32,
>(kernel: K, f: F) -> bool {
    &&& forall|base: VmBase, batch: Vec<BatchTx>, prepared: SortedMap<TxHash, PreparedTx>|
        call_requires(kernel, (&base, &batch, &prepared))
    &&& forall|subject: ReceiptSubject| call_requires(f, (&subject,))
}

fn run_batch<
    T: SubstateDatabase,
    K: Fn(&VmBase, &Vec<BatchTx>, &SortedMap<TxHash, PreparedTx>) -> KernelOutcome<T>,
    F: Fn(&ReceiptSubject) -> Hash32,
>(
    kernel: &K,
    receipt_hash: &F,
    transactions: &Vec<BatchInput>,
    plan: &BatchPlan,
    scene: &Scene,
) -> (r: Result<Vec<ExecutedTx>, BatchFault>)
    requires
        scene.locality.trie.wf(),
        is_ready(*kernel, *receipt_hash),
    ensures
        runs_plan(list_in(r), *plan, transactions@, *scene, *kernel, *receipt_hash),
{
    let out = (*kernel)(&plan.base, &plan.batch, &plan.prepared);
    assert(call_ensures(*kernel, (&plan.base, &plan.batch, &plan.prepared), out));
    let ghost made = out;
    let receipts = amend(out.receipts, &plan.prepared);
    let store = Deployed { store: out.store, packages: file_packages(&plan.prepared) };
    let r = settle_batch(
        transactions,
        &plan.refused,
        &receipts,
        &plan.fees,
        &plan.base,
        &store,
        scene,
        receipt_hash,
    );
    assert(files_publishes(receipts, store, made, *plan));
    r
}

impl<K, F> VmExecutor<K, F> {
    /// Executes a batch that stays on one shard, anchored at the block that
    /// started its wave. An empty batch comes to nothing, and nothing is run.
    pub fn execute_wave_batch<S: SubstateDatabase, T: SubstateDatabase>(
        &self,
        transactions: &Vec<BatchInput>,
        fates: Vec<TreeFate>,
        wave_start_ms: u64,
        wave_start_reveal: Hash32,
        scene: &Scene,
        snapshot: &S,
    ) -> (r: Result<Vec<ExecutedTx>, BatchFault>) where
        K: Fn(&VmBase, &Vec<BatchTx>, &SortedMap<TxHash, PreparedTx>) -> KernelOutcome<T>,
        F: Fn(&ReceiptSubject) -> Hash32,

        requires
            fates@.len() == transactions@.len(),
            self.limits.wf(),
            scene.locality.trie.wf(),
            !scene.locality.cross_shard,
            is_ready(self.kernel, self.receipt_hash),
        ensures
            transactions@.len() == 0 ==> list_in(r) == Ok::<Seq<ExecutedTx>, BatchFault>(
                Seq::empty(),
            ),
            transactions@.len() > 0 ==> exists|plan: BatchPlan| #[trigger]
                plan.plans(
                    transactions@,
                    fates@,
                    Map::empty(),
                    one_anchor(
                        transactions@,
                        TxAnchor { clock_ms: wave_start_ms, randomness: wave_start_reveal },
                    ),
                    self.limits,
                    scene.locality,
                    *snapshot,
                ) && runs_plan(
                    list_in(r),
                    plan,
                    transactions@,
                    *scene,
                    self.kernel,
                    self.receipt_hash,
                ),
    {
        if transactions.len() == 0 {
            let none: Vec<ExecutedTx> = Vec::new();
            assert(none@ =~= Seq::empty());
            return Ok(none);
        }
        let plan = plan_wave_batch(
            transactions,
            fates,
            wave_start_ms,
            wave_start_reveal,
            &self.limits,
            &scene.locality,
            snapshot,
        );
        run_batch(&self.kernel, &self.receipt_hash, transactions, &plan, scene)
    }

    /// Executes a batch that crosses shards, each transaction under its own
    /// anchor. An empty batch comes to nothing, and nothing is run.
    pub fn execute_cross_shard_batch<S: SubstateDatabase, T: SubstateDatabase>(
        &self,
        requests: Vec<CrossShardTxInput>,
        fates: Vec<TreeFate>,
        scene: &Scene,
        snapshot: &S,
    ) -> (r: Result<Vec<ExecutedTx>, BatchFault>) where
        K: Fn(&VmBase, &Vec<BatchTx>, &SortedMap<TxHash, PreparedTx>) -> KernelOutcome<T>,
        F: Fn(&ReceiptSubject) -> Hash32,

        requires
            fates@.len() == requests@.len(),
            self.limits.wf(),
            scene.locality.trie.wf(),
            scene.locality.cross_shard,
            is_ready(self.kernel, self.receipt_hash),
        ensures
            requests@.len() == 0 ==> list_in(r) == Ok::<Seq<ExecutedTx>, BatchFault>(Seq::empty()),
            requests@.len() > 0 ==> exists|plan: BatchPlan, order: Seq<TxHash>|
                #![trigger plan.plans(request_txs(requests@), fates@, request_cells(requests@, order), request_anchors(requests@, requests@.len()), self.limits, scene.locality, *snapshot)]
                is_request_order(requests@, order) && plan.plans(
                    request_txs(requests@),
                    fates@,
                    request_cells(requests@, order),
                    request_anchors(requests@, requests@.len()),
                    self.limits,
                    scene.locality,
                    *snapshot,
                ) && runs_plan(
                    list_in(r),
                    plan,
                    request_txs(requests@),
                    *scene,
                    self.kernel,
                    self.receipt_hash,
                ),
    {
        if requests.len() == 0 {
            let none: Vec<ExecutedTx> = Vec::new();
            assert(none@ =~= Seq::empty());
            return Ok(none);
        }
        let (transactions, plan) = plan_cross_shard_batch(
            requests,
            fates,
            &self.limits,
            &scene.locality,
            snapshot,
        );
        run_batch(&self.kernel, &self.receipt_hash, &transactions, &plan, scene)
    }
}

} // verus!
