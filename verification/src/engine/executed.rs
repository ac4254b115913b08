//! What holds of an executed batch, whatever kernel runs it: what is said of the
//! kernel stands in each law's premises.
use vstd::prelude::*;

use crate::bridge::checks::MetadataLimits;
use crate::bridge::statics::Effect;
use crate::bytes::le_value;
use crate::engine::baseline::{BatchInput, Deployment, PreparedTx};
use crate::engine::batch::{
    answers, attests, run_of, settles_to, work_of, writes_of, BatchFault, ReceiptSubject, Run, Scene,
};
use crate::engine::deploy::{
    deploys, files, law_a_publish_writes_its_artifact, lemma_burns_lie_over_vaults,
    lemma_one_write_stays, worth, writes_one, Deployed,
};
use crate::engine::fees::{least, less, PayerFee};
use crate::engine::fold::{remainder, Receipt, VmBase};
use crate::engine::plan::{
    law_reveal_anchors_the_wave, one_anchor, BatchPlan, BatchTx, TreeFate, TxAnchor,
};
use crate::engine::receipt::{AbortReason, ConsensusReceipt, ExecutedTx};
use crate::engine::run::{files_publishes, runs_plan, KernelOutcome};
use crate::hash::Hash32;
use crate::sorted::{lemma_sorted_distinct, strictly_sorted, SortedMap};
use crate::storage::database::SubstateDatabase;
use crate::storage::state_key::{names_owner, VM_PARTITION};
use crate::types::{SubstateKey, TxHash};

verus! {

/// A transaction of an executed batch: the plan, what came of it, and where the
/// transaction stands in the list and in what the kernel was handed.
pub ghost struct Attempt<'a> {
    /// What came of the batch.
    pub list: Seq<ExecutedTx>,
    /// Its plan.
    pub plan: BatchPlan,
    /// Its transactions.
    pub transactions: Seq<BatchInput>,
    /// Where it ran.
    pub scene: Scene<'a>,
    /// Which of the transactions it is.
    pub i: int,
    /// Which of those that the kernel ran.
    pub k: int,
}

impl<'a> Attempt<'a> {
    /// The transaction.
    pub open spec fn tx(self) -> TxHash {
        self.transactions[self.i].tx
    }

    /// What came of it.
    pub open spec fn result(self) -> ExecutedTx {
        self.list[self.i]
    }

    /// What the kernel ran of it.
    pub open spec fn ran(self) -> BatchTx {
        self.plan.batch@[self.k]
    }

    /// The batch was executed, and the transaction was handed to the kernel.
    pub open spec fn executed<
        T: SubstateDatabase,
        K: Fn(&VmBase, &Vec<BatchTx>, &SortedMap<TxHash, PreparedTx>) -> KernelOutcome<T>,
        F: Fn(&ReceiptSubject) -> Hash32,
    >(self, kernel: K, f: F) -> bool {
        &&& runs_plan::<T, K, F>(
            Ok(self.list),
            self.plan,
            self.transactions,
            self.scene,
            kernel,
            f,
        )
        &&& 0 <= self.i < self.list.len()
        &&& 0 <= self.k < self.plan.batch@.len()
        &&& self.ran().tx == self.tx()
    }
}

/// The receipt that the kernel gave an attempt that files nothing, with the
/// answer that settling made of it.
proof fn lemma_answer<
    T: SubstateDatabase,
    K: Fn(&VmBase, &Vec<BatchTx>, &SortedMap<TxHash, PreparedTx>) -> KernelOutcome<T>,
    F: Fn(&ReceiptSubject) -> Hash32,
>(a: Attempt, kernel: K, f: F) -> (r: (KernelOutcome<T>, Run))
    requires
        a.executed::<T, K, F>(kernel, f),
    ensures
        call_ensures(kernel, (&a.plan.base, &a.plan.batch, &a.plan.prepared), r.0),
        answers(a.result(), a.tx(), r.1, a.plan.refused@, a.scene, f),
        strictly_sorted(r.1.order),
        r.1.receipts.dom() == r.1.order.to_set(),
        forall|t: TxHash| #[trigger]
            r.1.receipts.contains_key(t) == (r.0.receipts@.contains_key(t) || files(
                a.plan.prepared@,
                t,
            )),
        r.1.base == a.plan.base@,
        r.1.fees == a.plan.fees@,
        r.1.local == (|o: [u8; 16]| a.scene.locality.local(o)),
        files(a.plan.prepared@, a.tx()) ==> r.1.receipts.contains_key(a.tx()) && deploys(
            r.1.receipts[a.tx()],
            a.plan.prepared@[a.tx()].deploys->0,
            worth(r.0.receipts@, a.tx()),
        ),
        !files(a.plan.prepared@, a.tx()) ==> r.1.receipts.contains_key(a.tx())
            == r.0.receipts@.contains_key(a.tx()) && (r.1.receipts.contains_key(a.tx())
            ==> r.1.receipts[a.tx()] == r.0.receipts@[a.tx()]),
{
    let (out, receipts, store) = choose|
        out: KernelOutcome<T>,
        receipts: SortedMap<TxHash, Receipt>,
        store: Deployed<T>,
    | #[trigger]
        files_publishes(receipts, store, out, a.plan) && call_ensures(
            kernel,
            (&a.plan.base, &a.plan.batch, &a.plan.prepared),
            out,
        ) && settles_to(
            Ok::<Seq<ExecutedTx>, BatchFault>(a.list),
            a.transactions,
            a.plan.refused@,
            run_of(receipts.order(), receipts@, a.plan.fees@, a.plan.base@, a.scene.locality),
            store,
            a.scene,
            f,
        );
    let run = run_of(
        receipts.order(),
        receipts@,
        a.plan.fees@,
        a.plan.base@,
        a.scene.locality,
    );
    assert(answers(a.list[a.i], a.transactions[a.i].tx, run, a.plan.refused@, a.scene, f));
    assert(receipts@.contains_key(a.tx()) == (out.receipts@.contains_key(a.tx()) || files(
        a.plan.prepared@,
        a.tx(),
    )));
    (out, run)
}

/// The kernel prices every declaration by what it declares, and meters what
/// runs: a reservation that is not covered stops an attempt before it consumes
/// any fuel, and one that completes has consumed some.
pub open spec fn meters<
    T,
    K: Fn(&VmBase, &Vec<BatchTx>, &SortedMap<TxHash, PreparedTx>) -> KernelOutcome<T>,
>(kernel: K, price: spec_fn(Seq<Effect>) -> int) -> bool {
    forall|
        base: VmBase,
        batch: Vec<BatchTx>,
        prepared: SortedMap<TxHash, PreparedTx>,
        out: KernelOutcome<T>,
        k: int,
    |
        #![trigger call_ensures(kernel, (&base, &batch, &prepared), out), batch@[k]]
        call_ensures(kernel, (&base, &batch, &prepared), out) && 0 <= k < batch@.len()
            && out.receipts@.contains_key(batch@[k].tx) ==> {
            let r = out.receipts@[batch@[k].tx];
            &&& r.declared_work == price(batch@[k].declared@)
            &&& r.outcome is Infeasible ==> r.fuel == 0
            &&& r.outcome is Completed ==> r.fuel > 0
        }
}

/// An unapplied attempt attests its declaration, and a completed one of the same
/// worth attests its compute on top: of two transactions executed under a kernel
/// that meters, each in a batch of its own or in one, the first failed for a
/// reservation that was not covered and the second succeeded.
pub proof fn law_an_unapplied_attempt_attests_its_declaration<
    T: SubstateDatabase,
    K: Fn(&VmBase, &Vec<BatchTx>, &SortedMap<TxHash, PreparedTx>) -> KernelOutcome<T>,
    F: Fn(&ReceiptSubject) -> Hash32,
>(
    failed: Attempt,
    completed: Attempt,
    kernel: K,
    f: F,
    price: spec_fn(Seq<Effect>) -> int,
)
    requires
        meters::<T, K>(kernel, price),
        failed.executed::<T, K, F>(kernel, f),
        completed.executed::<T, K, F>(kernel, f),
        failed.result().metadata.error matches Some(AbortReason::Infeasible { .. }),
        completed.result().consensus is Succeeded,
        !files(completed.plan.prepared@, completed.tx()),
        price(failed.ran().declared@) == price(completed.ran().declared@),
        0 < price(failed.ran().declared@) < u64::MAX,
    ensures
        failed.result().consensus is Failed,
        failed.result().attested_work == price(failed.ran().declared@),
        failed.result().attested_work > 0,
        completed.result().attested_work > failed.result().attested_work,
{
    let (out, run) = lemma_answer::<T, K, F>(failed, kernel, f);
    assert(failed.plan.batch@[failed.k].tx == failed.tx());
    let (made, ran) = lemma_answer::<T, K, F>(completed, kernel, f);
    assert(completed.plan.batch@[completed.k].tx == completed.tx());
}

/// What a transaction left a cell with, as its receipt tells: nothing, where it
/// did not write it.
pub open spec fn cell_left(tx: ExecutedTx, key: SubstateKey) -> Option<Option<Seq<u8>>> {
    match tx.consensus {
        ConsensusReceipt::Failed => None,
        ConsensusReceipt::Succeeded { database_updates, .. } => {
            let content = database_updates.content();
            let owner = key.owner@;
            if content.contains_key(owner) && content[owner].contains_key(VM_PARTITION)
                && content[owner][VM_PARTITION].1.contains_key(key.local@) {
                Some(content[owner][VM_PARTITION].1[key.local@])
            } else {
                None
            }
        },
    }
}

/// The shard keeps the cell.
pub open spec fn keeps(scene: Scene, key: SubstateKey) -> bool {
    scene.locality.trie.shard_of(key.owner@) == scene.locality.local_shard
}

/// A settled receipt that writes one cell leaves the cell as it was written.
proof fn lemma_one_write_is_attested<F: Fn(&ReceiptSubject) -> Hash32>(
    a: Attempt,
    run: Run,
    key: SubstateKey,
    value: Seq<u8>,
    f: F,
)
    requires
        answers(a.result(), a.tx(), run, a.plan.refused@, a.scene, f),
        run.local == (|o: [u8; 16]| a.scene.locality.local(o)),
        run.receipts.contains_key(a.tx()),
        writes_one(run.receipts[a.tx()], key, value),
        keeps(a.scene, key),
        forall|t: TxHash| #[trigger] run.fees.contains_key(t) ==> run.fees[t].vault != key,
    ensures
        cell_left(a.result(), key) == Some(Some(value)),
        a.result().attested_work == work_of(run.receipts[a.tx()]),
{
    let n = choose|n: nat|
        n < run.order.len() && #[trigger] run.order[n as int] == a.tx() && run.executed(
            a.result(),
            n,
            a.scene,
            f,
        );
    if run.state(n).fees.contains_key(key) {
        lemma_burns_lie_over_vaults(run, n, key);
    }
    let receipt = run.receipts[a.tx()];
    let fee = run.fee(n as int);
    if fee is Some {
        assert(run.fees.contains_key(run.order[n as int]));
    }
    lemma_one_write_stays(run.state(n), run.base, receipt, key, value, fee, run.local);
    let w = writes_of(run.state(n), run.base, receipt, fee, run.local)->Ok_0->0;
    assert(attests(a.result().consensus, w, receipt.events@, a.scene, f));
    assert(names_owner(key.owner@));
}

/// A publish that was admitted succeeds under any kernel: its artifact is
/// written whole to its package's cell, and judging it is attested work.
pub proof fn law_a_publish_lands<
    T: SubstateDatabase,
    K: Fn(&VmBase, &Vec<BatchTx>, &SortedMap<TxHash, PreparedTx>) -> KernelOutcome<T>,
    F: Fn(&ReceiptSubject) -> Hash32,
>(a: Attempt, kernel: K, f: F)
    requires
        a.executed::<T, K, F>(kernel, f),
        files(a.plan.prepared@, a.tx()),
        keeps(a.scene, a.plan.prepared@[a.tx()].deploys->0.cell),
        forall|t: TxHash| #[trigger]
            a.plan.fees@.contains_key(t) ==> a.plan.fees@[t].vault
                != a.plan.prepared@[a.tx()].deploys->0.cell,
    ensures
        ({
            let d: Deployment = a.plan.prepared@[a.tx()].deploys->0;
            &&& cell_left(a.result(), d.cell) == Some(Some(d.artifact@))
            &&& a.result().attested_work >= d.artifact@.len()
        }),
{
    let (out, run) = lemma_answer::<T, K, F>(a, kernel, f);
    let d = a.plan.prepared@[a.tx()].deploys->0;
    lemma_one_write_is_attested(a, run, d.cell, d.artifact@, f);
}

/// The kernel gives no receipt but for what it was handed.
pub open spec fn keeps_to_its_batch<
    T,
    K: Fn(&VmBase, &Vec<BatchTx>, &SortedMap<TxHash, PreparedTx>) -> KernelOutcome<T>,
>(kernel: K) -> bool {
    forall|
        base: VmBase,
        batch: Vec<BatchTx>,
        prepared: SortedMap<TxHash, PreparedTx>,
        out: KernelOutcome<T>,
        t: TxHash,
    |
        #![trigger call_ensures(kernel, (&base, &batch, &prepared), out), out.receipts@.contains_key(t)]
        call_ensures(kernel, (&base, &batch, &prepared), out) && out.receipts@.contains_key(t)
            ==> prepared@.contains_key(t)
}

/// A publish that is executed alone pays exactly what judging its artifact cost,
/// up to its ceiling: its payer's vault is left with what it held less that.
pub proof fn law_a_publish_pays_for_its_artifact<
    T: SubstateDatabase,
    K: Fn(&VmBase, &Vec<BatchTx>, &SortedMap<TxHash, PreparedTx>) -> KernelOutcome<T>,
    F: Fn(&ReceiptSubject) -> Hash32,
>(a: Attempt, kernel: K, f: F, payer: PayerFee)
    requires
        keeps_to_its_batch::<T, K>(kernel),
        a.executed::<T, K, F>(kernel, f),
        a.plan.prepared@.dom() == set![a.tx()],
        files(a.plan.prepared@, a.tx()),
        a.plan.prepared@[a.tx()].deploys->0.artifact@.len() > 0,
        keeps(a.scene, a.plan.prepared@[a.tx()].deploys->0.cell),
        a.plan.fees@.contains_key(a.tx()),
        a.plan.fees@[a.tx()] == payer,
        payer.vault != a.plan.prepared@[a.tx()].deploys->0.cell,
        payer.max_fee > 0,
        keeps(a.scene, payer.vault),
        a.plan.base@.contains_key(payer.vault),
        a.plan.base@[payer.vault].len() == 16,
    ensures
        cell_left(a.result(), payer.vault) == Some(
            remainder(
                less(
                    le_value(a.plan.base@[payer.vault]) as int,
                    least(
                        a.plan.prepared@[a.tx()].deploys->0.artifact@.len() as int,
                        payer.max_fee as int,
                    ),
                ),
            ),
        ),
{
    let (out, run) = lemma_answer::<T, K, F>(a, kernel, f);
    let d = a.plan.prepared@[a.tx()].deploys->0;
    assert forall|t: TxHash| #[trigger] run.receipts.contains_key(t) implies t == a.tx() by {
        assert(a.plan.prepared@.dom().contains(t));
    }
    let n = choose|n: nat|
        n < run.order.len() && #[trigger] run.order[n as int] == a.tx() && run.executed(
            a.result(),
            n,
            a.scene,
            f,
        );
    lemma_sorted_distinct(run.order);
    if n > 0 {
        assert(run.order.to_set().contains(run.order[0]));
        assert(run.receipts.contains_key(run.order[0]));
        assert(run.order[0] == run.order[n as int]);
    }
    let receipt = run.receipts[a.tx()];
    let work = worth(out.receipts@, a.tx());
    law_a_publish_writes_its_artifact(run.state(n), run.base, receipt, d, work, payer, run.local);
    assert(run.fee(n as int) == Some(payer));
    let w = writes_of(run.state(n), run.base, receipt, Some(payer), run.local)->Ok_0->0;
    assert(attests(a.result().consensus, w, receipt.events@, a.scene, f));
    assert(w.contains_key(payer.vault));
    assert(names_owner(payer.vault.owner@));
}

/// The kernel stamps a transaction's draw into a cell: it runs the transaction,
/// and what it writes there is drawn from the randomness that it was handed.
pub open spec fn stamps<
    T,
    K: Fn(&VmBase, &Vec<BatchTx>, &SortedMap<TxHash, PreparedTx>) -> KernelOutcome<T>,
>(kernel: K, tx: TxHash, cell: SubstateKey, draw: spec_fn(Hash32) -> Seq<u8>) -> bool {
    forall|
        base: VmBase,
        batch: Vec<BatchTx>,
        prepared: SortedMap<TxHash, PreparedTx>,
        out: KernelOutcome<T>,
        k: int,
    |
        #![trigger call_ensures(kernel, (&base, &batch, &prepared), out), batch@[k]]
        call_ensures(kernel, (&base, &batch, &prepared), out) && 0 <= k < batch@.len()
            && batch@[k].tx == tx ==> out.receipts@.contains_key(tx) && writes_one(
            out.receipts@[tx],
            cell,
            draw(batch@[k].randomness),
        )
}

/// A stamp that is executed in a wave leaves its cell with the draw of the reveal
/// that the wave was started with.
proof fn lemma_stamp<
    S: SubstateDatabase,
    T: SubstateDatabase,
    K: Fn(&VmBase, &Vec<BatchTx>, &SortedMap<TxHash, PreparedTx>) -> KernelOutcome<T>,
    F: Fn(&ReceiptSubject) -> Hash32,
>(
    a: Attempt,
    wave: Wave<S>,
    kernel: K,
    f: F,
    cell: SubstateKey,
    draw: spec_fn(Hash32) -> Seq<u8>,
)
    requires
        a.executed::<T, K, F>(kernel, f),
        wave.starts(a),
        a.stamps_only(cell),
        stamps::<T, K>(kernel, a.tx(), cell, draw),
    ensures
        cell_left(a.result(), cell) == Some(Some(draw(wave.anchor.randomness))),
{
    let (out, run) = lemma_answer::<T, K, F>(a, kernel, f);
    law_reveal_anchors_the_wave(
        a.plan,
        a.transactions,
        wave.fates,
        wave.anchor,
        wave.limits,
        a.scene.locality,
        wave.snapshot,
        a.k,
    );
    assert(a.plan.batch@[a.k].tx == a.tx());
    lemma_one_write_is_attested(a, run, cell, draw(wave.anchor.randomness), f);
}

/// What a wave was planned from.
pub ghost struct Wave<S> {
    /// How each transaction's tree fares.
    pub fates: Seq<TreeFate>,
    /// The clock and the reveal of the block that started it.
    pub anchor: TxAnchor,
    /// The limits on published packages.
    pub limits: MetadataLimits,
    /// The snapshot that it reads.
    pub snapshot: S,
}

impl<S: SubstateDatabase> Wave<S> {
    /// The attempt's batch was planned for the wave.
    pub open spec fn starts(self, a: Attempt) -> bool {
        a.plan.plans(
            a.transactions,
            self.fates,
            Map::empty(),
            one_anchor(a.transactions, self.anchor),
            self.limits,
            a.scene.locality,
            self.snapshot,
        )
    }
}

impl<'a> Attempt<'a> {
    /// The transaction publishes nothing, the shard keeps the cell, and no fee
    /// of the batch is burned from it.
    pub open spec fn stamps_only(self, cell: SubstateKey) -> bool {
        &&& !files(self.plan.prepared@, self.tx())
        &&& keeps(self.scene, cell)
        &&& forall|t: TxHash| #[trigger]
            self.plan.fees@.contains_key(t) ==> self.plan.fees@[t].vault != cell
    }
}

/// The reveal anchors the draw, and nothing else does: two runs of one stamp
/// leave its cell with the draws of the reveals that their waves were started
/// with. One reveal is one draw, and where two reveals are drawn from
/// differently, the cell is left differently.
pub proof fn law_the_reveal_fixes_the_draw<
    S: SubstateDatabase,
    T: SubstateDatabase,
    K: Fn(&VmBase, &Vec<BatchTx>, &SortedMap<TxHash, PreparedTx>) -> KernelOutcome<T>,
    F: Fn(&ReceiptSubject) -> Hash32,
>(
    mine: Attempt,
    yours: Attempt,
    my_wave: Wave<S>,
    your_wave: Wave<S>,
    kernel: K,
    f: F,
    cell: SubstateKey,
    draw: spec_fn(Hash32) -> Seq<u8>,
)
    requires
        mine.tx() == yours.tx(),
        mine.executed::<T, K, F>(kernel, f),
        yours.executed::<T, K, F>(kernel, f),
        my_wave.starts(mine),
        your_wave.starts(yours),
        mine.stamps_only(cell),
        yours.stamps_only(cell),
        stamps::<T, K>(kernel, mine.tx(), cell, draw),
    ensures
        cell_left(mine.result(), cell) == Some(Some(draw(my_wave.anchor.randomness))),
        cell_left(yours.result(), cell) == Some(Some(draw(your_wave.anchor.randomness))),
        my_wave.anchor.randomness == your_wave.anchor.randomness ==> cell_left(mine.result(), cell)
            == cell_left(yours.result(), cell),
        draw(my_wave.anchor.randomness) != draw(your_wave.anchor.randomness) ==> cell_left(
            mine.result(),
            cell,
        ) != cell_left(yours.result(), cell),
{
    lemma_stamp::<S, T, K, F>(mine, my_wave, kernel, f, cell, draw);
    lemma_stamp::<S, T, K, F>(yours, your_wave, kernel, f, cell, draw);
}

} // verus!
