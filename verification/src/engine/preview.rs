//! Previews: what a transaction would change and cost, committing nothing. The
//! arithmetic is the wave's own.
use vstd::prelude::*;

use crate::bytes::{le_value, lemma_le_canonical, lemma_le_round_trip, lemma_widths};
use crate::engine::baseline::{BaseCells, BatchInput, PreparedTx};
use crate::engine::batch::{
    abort_of, answers, attests, reason_of, settles_to, writes_of, BatchFault, Folding,
    ReceiptSubject, Run, Scene,
};
use crate::engine::deploy::{amend, are_amended};
use crate::engine::executed::{cell_left, keeps};
use crate::engine::fees::{abort_writes, apply_fee_burn, burn_of, charged, less, PayerFee};
use crate::engine::fold::{
    amount_in, current, decode_amount, drawn_of, fold_delta, folded, holds_amount,
    law_a_fold_conserves_amounts, left_with, lemma_remainder, net_of, opening, remainder, speaks_of,
    writes_outright, Cells, Delta, FoldFault, Locality, Movement, Outcome, Receipt, VmBase,
};
use crate::engine::plan::{
    one_anchor, plan_wave_batch, BatchPlan, BatchTx, TreeFate, TxAnchor,
};
use crate::engine::receipt::{AbortReason, ExecutedTx};
use crate::engine::run::{is_ready, KernelOutcome, VmExecutor};
use crate::hash::Hash32;
use crate::list::{last_at, lemma_last_at, some_at};
use crate::order::same_key;
use crate::sorted::{lemma_sorted_distinct, lemma_take_next, SortedMap};
use crate::storage::database::SubstateDatabase;
use crate::storage::state_key::names_owner;
use crate::storage::writes::{left, StateWrites};
use crate::types::{SubstateKey, TxHash};

verus! {

/// What a preview reports of one cell.
#[derive(Clone, Copy, Debug, PartialEq, Eq)]
pub struct ResourceChange {
    /// The cell.
    pub key: SubstateKey,
    /// What it holds.
    pub before: u128,
    /// What it would hold.
    pub after: u128,
    /// What would be added to it.
    pub credit: u128,
    /// What would be taken from it.
    pub debit: u128,
    /// What would be drawn from its reservation.
    pub settled: u128,
}

/// How a previewed transaction would come out.
#[derive(Debug, PartialEq, Eq)]
pub enum PreviewOutcome {
    /// It would complete.
    Completed,
    /// It would abort, and pay the floor.
    Aborted {
        /// Why.
        reason: AbortReason,
    },
    /// It would never enter a block.
    Refused {
        /// Why.
        reason: String,
    },
}

/// A preview.
#[derive(Debug, PartialEq, Eq)]
pub struct PreviewReport {
    /// How it would come out.
    pub outcome: PreviewOutcome,
    /// What it would cost.
    pub fee: u128,
    /// What would change.
    pub changes: Vec<ResourceChange>,
}

/// Nothing is folded yet.
pub open spec fn unfolded() -> Folding {
    Folding { running: Map::empty(), fees: Map::empty() }
}

/// What a transaction alone would write. Free credit keeps the fee off.
pub open spec fn previewed_writes(
    receipt: Receipt,
    base: BaseCells,
    fee: Option<PayerFee>,
    free_credit: bool,
    local: spec_fn([u8; 16]) -> bool,
) -> Result<Cells, FoldFault> {
    let charged = if free_credit {
        None
    } else {
        fee
    };
    match writes_of(unfolded(), base, receipt, charged, local) {
        Err(e) => Err(e),
        Ok(Some(w)) => Ok(w),
        Ok(None) => match abort_of(unfolded(), base, receipt, charged) {
            Some(w) => Ok(w),
            None => Ok(Map::empty()),
        },
    }
}

/// What a transaction would cost: what it consumed, up to its ceiling, or the
/// floor, where it aborts. Free credit prices it all the same.
pub open spec fn previewed_fee(receipt: Receipt, fee: Option<PayerFee>) -> int {
    if receipt.outcome is Completed {
        burn_of(fee, receipt.fuel)
    } else {
        match fee {
            Some(payer) => payer.abort_floor as int,
            None => 0,
        }
    }
}

/// The last movement that a delta records of a cell.
pub open spec fn movement_of(list: Seq<(SubstateKey, Movement)>, key: SubstateKey) -> Movement
    decreases list.len(),
{
    if list.len() == 0 {
        Movement { credit: 0, debit: 0 }
    } else if list.last().0 == key {
        list.last().1
    } else {
        movement_of(list.drop_last(), key)
    }
}

/// The last settle that a delta records of a cell.
pub open spec fn settle_of(list: Seq<(SubstateKey, u128)>, key: SubstateKey) -> u128
    decreases list.len(),
{
    if list.len() == 0 {
        0
    } else if list.last().0 == key {
        list.last().1
    } else {
        settle_of(list.drop_last(), key)
    }
}

/// A delta moves or settles the amount of a cell.
pub open spec fn moves(delta: Delta, key: SubstateKey) -> bool {
    ||| exists|i: int| 0 <= i < delta.movements@.len() && (#[trigger] delta.movements@[i]).0 == key
    ||| exists|i: int| 0 <= i < delta.settles@.len() && (#[trigger] delta.settles@[i]).0 == key
}

/// The amount of a cell; nothing, where it holds none.
pub open spec fn amount_at(cell: Option<Seq<u8>>) -> nat {
    match amount_in(cell) {
        Some(x) => x,
        None => 0,
    }
}

/// The cell's bytes in a base.
pub open spec fn base_cell(base: BaseCells, key: SubstateKey) -> Option<Seq<u8>> {
    if base.contains_key(key) {
        Some(base[key])
    } else {
        None
    }
}

/// The cell is reported: it would be written, and it is the payer's vault or the
/// transaction moves its amount.
pub open spec fn reported(
    writes: Cells,
    receipt: Receipt,
    fee: Option<PayerFee>,
    key: SubstateKey,
) -> bool {
    writes.contains_key(key) && (fee is Some && fee->0.vault == key || (receipt.outcome is Completed
        && moves(receipt.delta, key)))
}

/// What is reported of a cell: what it holds, what the wave would leave it with,
/// and what the receipt says of the way there.
pub open spec fn reports(
    c: ResourceChange,
    writes: Cells,
    base: BaseCells,
    receipt: Receipt,
) -> bool {
    &&& c.before == amount_at(base_cell(base, c.key))
    &&& c.after == amount_at(writes[c.key])
    &&& if receipt.outcome is Completed {
        &&& c.credit == movement_of(receipt.delta.movements@, c.key).credit
        &&& c.debit == movement_of(receipt.delta.movements@, c.key).debit
        &&& c.settled == settle_of(receipt.delta.settles@, c.key)
    } else {
        c.credit == 0 && c.debit == 0 && c.settled == 0
    }
}

/// The list reports every such cell, each once.
pub open spec fn are_changes(
    changes: Seq<ResourceChange>,
    writes: Cells,
    base: BaseCells,
    receipt: Receipt,
    fee: Option<PayerFee>,
) -> bool {
    &&& forall|i: int|
        0 <= i < changes.len() ==> reports(#[trigger] changes[i], writes, base, receipt)
            && reported(writes, receipt, fee, changes[i].key)
    &&& forall|i: int, j: int|
        0 <= i < j < changes.len() ==> (#[trigger] changes[i]).key != (#[trigger] changes[j]).key
    &&& forall|key: SubstateKey| #[trigger]
        reported(writes, receipt, fee, key) ==> lists_change(changes, key)
}

/// The list holds a change of a cell.
pub open spec fn lists_change(changes: Seq<ResourceChange>, key: SubstateKey) -> bool {
    exists|i: int| 0 <= i < changes.len() && (#[trigger] changes[i]).key == key
}

/// The preview of a receipt.
pub open spec fn previews(
    report: PreviewReport,
    receipt: Receipt,
    base: BaseCells,
    fee: Option<PayerFee>,
    free_credit: bool,
    local: spec_fn([u8; 16]) -> bool,
) -> bool {
    &&& report.fee == previewed_fee(receipt, fee)
    &&& match report.outcome {
        PreviewOutcome::Completed => receipt.outcome is Completed,
        PreviewOutcome::Aborted { reason } => reason_of(receipt.outcome) == Some(reason),
        PreviewOutcome::Refused { .. } => false,
    }
    &&& previewed_writes(receipt, base, fee, free_credit, local) is Ok
    &&& are_changes(
        report.changes@,
        previewed_writes(receipt, base, fee, free_credit, local)->Ok_0,
        base,
        receipt,
        fee,
    )
}

/// The last movement of a cell, if there is one.
fn find_movement(list: &Vec<(SubstateKey, Movement)>, key: &SubstateKey) -> (r: Option<Movement>)
    ensures
        match r {
            Some(m) => m == movement_of(list@, *key) && exists|i: int|
                0 <= i < list@.len() && (#[trigger] list@[i]).0 == *key,
            None => movement_of(list@, *key) == (Movement { credit: 0, debit: 0 }) && forall|i: int|
                0 <= i < list@.len() ==> (#[trigger] list@[i]).0 != *key,
        },
{
    let mut n: usize = list.len();
    assert(list@.take(n as int) =~= list@);
    while n > 0
        invariant
            n <= list@.len(),
            movement_of(list@, *key) == movement_of(list@.take(n as int), *key),
            forall|i: int| n <= i < list@.len() ==> (#[trigger] list@[i]).0 != *key,
        decreases n,
    {
        let ghost now = list@.take(n as int);
        assert(now.last() == list@[n - 1]);
        assert(now.drop_last() =~= list@.take(n - 1));
        if same_key(&list[n - 1].0, key) {
            return Some(list[n - 1].1);
        }
        n = n - 1;
    }
    assert(list@.take(0) =~= Seq::empty());
    None
}

/// The last settle of a cell, if there is one.
fn find_settle(list: &Vec<(SubstateKey, u128)>, key: &SubstateKey) -> (r: Option<u128>)
    ensures
        match r {
            Some(x) => x == settle_of(list@, *key) && exists|i: int|
                0 <= i < list@.len() && (#[trigger] list@[i]).0 == *key,
            None => settle_of(list@, *key) == 0 && forall|i: int|
                0 <= i < list@.len() ==> (#[trigger] list@[i]).0 != *key,
        },
{
    let mut n: usize = list.len();
    assert(list@.take(n as int) =~= list@);
    while n > 0
        invariant
            n <= list@.len(),
            settle_of(list@, *key) == settle_of(list@.take(n as int), *key),
            forall|i: int| n <= i < list@.len() ==> (#[trigger] list@[i]).0 != *key,
        decreases n,
    {
        let ghost now = list@.take(n as int);
        assert(now.last() == list@[n - 1]);
        assert(now.drop_last() =~= list@.take(n - 1));
        if same_key(&list[n - 1].0, key) {
            return Some(list[n - 1].1);
        }
        n = n - 1;
    }
    assert(list@.take(0) =~= Seq::empty());
    None
}

fn amount_or_none(cell: &Option<Vec<u8>>) -> (x: u128)
    ensures
        x == amount_at(left(*cell)),
{
    match decode_amount(cell) {
        Some(x) => x,
        None => 0,
    }
}

/// Reports one written cell, if it is one to report.
fn report_cell(
    key: SubstateKey,
    change: &Option<Vec<u8>>,
    base: &VmBase,
    receipt: &Receipt,
    fee: Option<PayerFee>,
    Ghost(writes): Ghost<Cells>,
) -> (r: Option<ResourceChange>)
    requires
        writes.contains_key(key),
        writes[key] == left(*change),
    ensures
        match r {
            Some(c) => c.key == key && reported(writes, *receipt, fee, key) && reports(
                c,
                writes,
                base@,
                *receipt,
            ),
            None => !reported(writes, *receipt, fee, key),
        },
{
    let before = amount_or_none(&base.cell(&key));
    let after = amount_or_none(change);
    let pays = match fee {
        Some(payer) => same_key(&payer.vault, &key),
        None => false,
    };
    match receipt.outcome {
        Outcome::Completed => {
            let movement = find_movement(&receipt.delta.movements, &key);
            let settle = find_settle(&receipt.delta.settles, &key);
            if !pays && movement.is_none() && settle.is_none() {
                return None;
            }
            let (credit, debit) = match movement {
                Some(m) => (m.credit, m.debit),
                None => (0, 0),
            };
            let settled: u128 = match settle {
                Some(x) => x,
                None => 0,
            };
            Some(ResourceChange { key, before, after, credit, debit, settled })
        },
        _ => {
            if pays {
                Some(ResourceChange { key, before, after, credit: 0, debit: 0, settled: 0 })
            } else {
                None
            }
        },
    }
}

/// Reports the written cells that are to be reported.
fn report_cells(
    writes: &StateWrites,
    base: &VmBase,
    receipt: &Receipt,
    fee: Option<PayerFee>,
) -> (changes: Vec<ResourceChange>)
    ensures
        are_changes(changes@, writes@, base@, *receipt, fee),
{
    let mut changes: Vec<ResourceChange> = Vec::new();
    let count: usize = writes.len();
    let ghost order = writes.order();
    proof {
        lemma_sorted_distinct(order);
    }
    let mut i: usize = 0;
    while i < count
        invariant
            i <= count,
            count == order.len(),
            order == writes.order(),
            order.no_duplicates(),
            writes@.dom() == order.to_set(),
            forall|k: int|
                0 <= k < changes@.len() ==> reports(
                    #[trigger] changes@[k],
                    writes@,
                    base@,
                    *receipt,
                ) && reported(writes@, *receipt, fee, changes@[k].key),
            forall|k: int|
                0 <= k < changes@.len() ==> order.take(i as int).contains(
                    (#[trigger] changes@[k]).key,
                ),
            forall|a: int, b: int|
                0 <= a < b < changes@.len() ==> (#[trigger] changes@[a]).key != (
                #[trigger] changes@[b]).key,
            forall|k: int|
                0 <= k < i && reported(writes@, *receipt, fee, #[trigger] order[k])
                    ==> lists_change(changes@, order[k]),
        decreases count - i,
    {
        let key = writes.key_at(i);
        let ghost before = changes@;
        proof {
            lemma_take_next(order, i as int);
            assert(!order.take(i as int).contains(key)) by {
                if order.take(i as int).contains(key) {
                    let j = choose|j: int| 0 <= j < i && order.take(i as int)[j] == key;
                    assert(order[j] == order[i as int]);
                }
            }
        }
        match report_cell(key, writes.change_at(i), base, receipt, fee, Ghost(writes@)) {
            Some(change) => {
                changes.push(change);
                assert(changes@[before.len() as int].key == key);
            },
            None => {},
        }
        proof {
            assert forall|k: int|
                0 <= k < i + 1 && reported(
                    writes@,
                    *receipt,
                    fee,
                    #[trigger] order[k],
                ) implies lists_change(changes@, order[k]) by {
                if k < i {
                    let m = choose|m: int|
                        0 <= m < before.len() && (#[trigger] before[m]).key == order[k];
                    assert(changes@[m].key == order[k]);
                }
            }
        }
        i = i + 1;
    }
    proof {
        assert forall|key: SubstateKey| #[trigger] reported(
            writes@,
            *receipt,
            fee,
            key,
        ) implies lists_change(changes@, key) by {
            assert(order.to_set().contains(key));
            let k = choose|k: int| 0 <= k < order.len() && order[k] == key;
            assert(reported(writes@, *receipt, fee, order[k]));
        }
    }
    changes
}

/// What a transaction alone would write.
fn preview_writes(
    receipt: &Receipt,
    base: &VmBase,
    fee: Option<PayerFee>,
    free_credit: bool,
    locality: &Locality,
) -> (r: Result<StateWrites, FoldFault>)
    requires
        locality.trie.wf(),
    ensures
        match previewed_writes(
            *receipt,
            base@,
            fee,
            free_credit,
            |o: [u8; 16]| locality.local(o),
        ) {
            Ok(w) => r is Ok && r->Ok_0@ == w,
            Err(e) => r is Err && r->Err_0 == e,
        },
{
    let charged = if free_credit {
        None
    } else {
        fee
    };
    let mut running = StateWrites::new();
    let mut fees: SortedMap<SubstateKey, u128> = SortedMap::new();
    match receipt.outcome {
        Outcome::Completed => match fold_delta(receipt, base, &mut running, locality) {
            Err(e) => Err(e),
            Ok(mut writes) => {
                apply_fee_burn(&mut writes, &running, base, &mut fees, charged, receipt.fuel);
                Ok(writes)
            },
        },
        _ => match charged {
            Some(payer) => match abort_writes(
                &running,
                base,
                &fees,
                payer.vault,
                payer.abort_floor,
            ) {
                Some(writes) => Ok(writes),
                None => Ok(StateWrites::new()),
            },
            None => Ok(StateWrites::new()),
        },
    }
}

/// Reports what a receipt would change and cost, from the cells that it was run
/// from. A fault of the fold is a fault of the preview.
pub fn preview_report(
    receipt: &Receipt,
    base: &VmBase,
    fee: Option<PayerFee>,
    free_credit: bool,
    locality: &Locality,
) -> (r: Result<PreviewReport, FoldFault>)
    requires
        locality.trie.wf(),
    ensures
        match r {
            Ok(report) => previews(
                report,
                *receipt,
                base@,
                fee,
                free_credit,
                |o: [u8; 16]| locality.local(o),
            ),
            Err(e) => previewed_writes(
                *receipt,
                base@,
                fee,
                free_credit,
                |o: [u8; 16]| locality.local(o),
            ) == Err::<Cells, FoldFault>(e),
        },
{
    let writes = match preview_writes(receipt, base, fee, free_credit, locality) {
        Ok(writes) => writes,
        Err(e) => {
            return Err(e);
        },
    };
    let changes = report_cells(&writes, base, receipt, fee);
    let (outcome, cost) = match &receipt.outcome {
        Outcome::Completed => {
            let cost: u128 = match fee {
                Some(payer) => if (receipt.fuel as u128) <= payer.max_fee {
                    receipt.fuel as u128
                } else {
                    payer.max_fee
                },
                None => 0,
            };
            (PreviewOutcome::Completed, cost)
        },
        Outcome::UserError { reason } => (
            PreviewOutcome::Aborted { reason: AbortReason::Said(reason.clone()) },
            floor_of(fee),
        ),
        Outcome::ProtocolError { reason } => (
            PreviewOutcome::Aborted { reason: AbortReason::Said(reason.clone()) },
            floor_of(fee),
        ),
        Outcome::Infeasible { key, amount } => (
            PreviewOutcome::Aborted {
                reason: AbortReason::Infeasible { key: *key, amount: *amount },
            },
            floor_of(fee),
        ),
    };
    Ok(PreviewReport { outcome, fee: cost, changes })
}

fn floor_of(fee: Option<PayerFee>) -> (floor: u128)
    ensures
        floor == match fee {
            Some(payer) => payer.abort_floor,
            None => 0,
        },
{
    match fee {
        Some(payer) => payer.abort_floor,
        None => 0,
    }
}

/// A refusal costs nothing and changes nothing.
pub open spec fn is_refusal(report: PreviewReport, text: Seq<char>) -> bool {
    &&& report.outcome matches PreviewOutcome::Refused { reason } && reason@ == text
    &&& report.fee == 0
    &&& report.changes@.len() == 0
}

fn refusal(reason: String) -> (report: PreviewReport)
    ensures
        is_refusal(report, reason@),
{
    PreviewReport { outcome: PreviewOutcome::Refused { reason }, fee: 0, changes: Vec::new() }
}

/// The payer of a transaction, where the shard settles it.
pub open spec fn payer_in(fees: Map<TxHash, PayerFee>, t: TxHash) -> Option<PayerFee> {
    if fees.contains_key(t) {
        Some(fees[t])
    } else {
        None
    }
}

/// What a preview of a planned transaction comes to: refused for the plan's
/// reason, or for want of a receipt, or the preview of its receipt.
pub open spec fn previews_plan<
    T: SubstateDatabase,
    K: Fn(&VmBase, &Vec<BatchTx>, &SortedMap<TxHash, PreparedTx>) -> KernelOutcome<T>,
>(
    r: Result<PreviewReport, FoldFault>,
    plan: BatchPlan,
    t: TxHash,
    free_credit: bool,
    locality: Locality,
    kernel: K,
) -> bool {
    let local = |o: [u8; 16]| locality.local(o);
    let fee = payer_in(plan.fees@, t);
    if plan.refused@.contains_key(t) {
        r is Ok && is_refusal(r->Ok_0, plan.refused@[t]@)
    } else {
        exists|out: KernelOutcome<T>, receipts: SortedMap<TxHash, Receipt>| #[trigger]
            are_amended(receipts@, out.receipts@, plan.prepared@) && call_ensures(
                kernel,
                (&plan.base, &plan.batch, &plan.prepared),
                out,
            ) && if receipts@.contains_key(t) {
                match r {
                    Ok(report) => previews(
                        report,
                        receipts@[t],
                        plan.base@,
                        fee,
                        free_credit,
                        local,
                    ),
                    Err(e) => previewed_writes(
                        receipts@[t],
                        plan.base@,
                        fee,
                        free_credit,
                        local,
                    ) == Err::<Cells, FoldFault>(e),
                }
            } else {
                r is Ok && is_refusal(r->Ok_0, "missing batch receipt"@)
            }
    }
}

impl<K, F> VmExecutor<K, F> {
    /// Previews a transaction alone: it is planned and run as a wave of its own
    /// would be, and nothing is committed. What admission would refuse is
    /// refused, and `free_credit` keeps the fee off the payer.
    pub fn preview<S: SubstateDatabase, T: SubstateDatabase>(
        &self,
        transaction: BatchInput,
        fate: TreeFate,
        anchor: TxAnchor,
        free_credit: bool,
        locality: &Locality,
        snapshot: &S,
    ) -> (r: Result<PreviewReport, FoldFault>) where
        K: Fn(&VmBase, &Vec<BatchTx>, &SortedMap<TxHash, PreparedTx>) -> KernelOutcome<T>,
        F: Fn(&ReceiptSubject) -> Hash32,

        requires
            self.limits.wf(),
            locality.trie.wf(),
            !locality.cross_shard,
            is_ready(self.kernel, self.receipt_hash),
        ensures
            exists|plan: BatchPlan| #[trigger]
                plan.plans(
                    seq![transaction],
                    seq![fate],
                    Map::empty(),
                    one_anchor(seq![transaction], anchor),
                    self.limits,
                    *locality,
                    *snapshot,
                ) && previews_plan(r, plan, transaction.tx, free_credit, *locality, self.kernel),
    {
        let t = transaction.tx;
        let ghost input = transaction;
        let mut transactions: Vec<BatchInput> = Vec::new();
        transactions.push(transaction);
        let mut fates: Vec<TreeFate> = Vec::new();
        fates.push(fate);
        assert(transactions@ =~= seq![input]);
        assert(fates@ =~= seq![fate]);
        let plan = plan_wave_batch(
            &transactions,
            fates,
            anchor.clock_ms,
            anchor.randomness,
            &self.limits,
            locality,
            snapshot,
        );
        if let Some(reason) = plan.refused.get(&t) {
            return Ok(refusal(reason.clone()));
        }
        let out = (self.kernel)(&plan.base, &plan.batch, &plan.prepared);
        assert(call_ensures(self.kernel, (&plan.base, &plan.batch, &plan.prepared), out));
        let ghost made = out;
        let receipts = amend(out.receipts, &plan.prepared);
        assert(are_amended(receipts@, made.receipts@, plan.prepared@));
        let fee: Option<PayerFee> = match plan.fees.get(&t) {
            Some(fee) => Some(*fee),
            None => None,
        };
        match receipts.get(&t) {
            Some(receipt) => preview_report(receipt, &plan.base, fee, free_credit, locality),
            None => Ok(refusal("missing batch receipt".to_string())),
        }
    }
}

/// A preview's arithmetic is the wave's: where a transaction is settled alone,
/// every figure that its preview names is what its receipt commits there.
pub proof fn law_a_preview_agrees_with_its_wave<
    F: Fn(&ReceiptSubject) -> Hash32,
    S: SubstateDatabase,
>(
    list: Seq<ExecutedTx>,
    transactions: Seq<BatchInput>,
    refused: Map<TxHash, String>,
    run: Run,
    store: S,
    scene: Scene,
    f: F,
    i: int,
    report: PreviewReport,
    c: int,
)
    requires
        settles_to(
            Ok::<Seq<ExecutedTx>, BatchFault>(list),
            transactions,
            refused,
            run,
            store,
            scene,
            f,
        ),
        0 <= i < list.len(),
        run.order == seq![transactions[i].tx],
        run.receipts.contains_key(transactions[i].tx),
        run.receipts[transactions[i].tx].outcome is Completed,
        run.local == (|o: [u8; 16]| scene.locality.local(o)),
        previews(
            report,
            run.receipts[transactions[i].tx],
            run.base,
            run.fee(0),
            false,
            run.local,
        ),
        0 <= c < report.changes@.len(),
        keeps(scene, report.changes@[c].key),
    ensures
        cell_left(list[i], report.changes@[c].key) is Some,
        amount_at(cell_left(list[i], report.changes@[c].key)->0) == report.changes@[c].after,
{
    let tx = transactions[i].tx;
    assert(answers(list[i], tx, run, refused, scene, f));
    let n = choose|n: nat|
        n < run.order.len() && #[trigger] run.order[n as int] == tx && run.executed(
            list[i],
            n,
            scene,
            f,
        );
    assert(n == 0);
    let receipt = run.receipts[tx];
    let w = writes_of(run.state(0), run.base, receipt, run.fee(0), run.local)->Ok_0->0;
    assert(attests(list[i].consensus, w, receipt.events@, scene, f));
    let change = report.changes@[c];
    assert(reports(change, w, run.base, receipt));
    assert(reported(w, receipt, run.fee(0), change.key));
    assert(names_owner(change.key.owner@));
}

/// An amount reads back from the cell that it is left in.
proof fn lemma_amount_left(n: nat)
    requires
        n <= u128::MAX,
    ensures
        amount_at(remainder(n)) == n,
{
    if n > 0 {
        lemma_widths();
        lemma_le_round_trip(n, 16);
    }
}

/// Free credit prices the fee and keeps exactly it off the payer: nobody else's
/// figures change, and the payer's are higher by the fee, where the vault covers
/// it.
pub proof fn law_free_credit_keeps_exactly_the_fee_off(
    charged: PreviewReport,
    credited: PreviewReport,
    receipt: Receipt,
    base: BaseCells,
    payer: PayerFee,
    local: spec_fn([u8; 16]) -> bool,
    a: int,
    b: int,
)
    requires
        receipt.outcome is Completed,
        previews(charged, receipt, base, Some(payer), false, local),
        previews(credited, receipt, base, Some(payer), true, local),
        0 <= a < charged.changes@.len(),
        0 <= b < credited.changes@.len(),
        charged.changes@[a].key == credited.changes@[b].key,
        credited.changes@[b].key == payer.vault ==> credited.changes@[b].after >= charged.fee,
    ensures
        credited.fee == charged.fee,
        charged.changes@[a].key != payer.vault ==> charged.changes@[a] == credited.changes@[b],
        charged.changes@[a].key == payer.vault ==> credited.changes@[b].after
            == charged.changes@[a].after + charged.fee,
{
    let key = charged.changes@[a].key;
    let dear = previewed_writes(receipt, base, Some(payer), false, local)->Ok_0;
    let free = previewed_writes(receipt, base, Some(payer), true, local)->Ok_0;
    let x = charged.changes@[a];
    let y = credited.changes@[b];
    assert(reports(x, dear, base, receipt) && reported(dear, receipt, Some(payer), x.key));
    assert(reports(y, free, base, receipt) && reported(free, receipt, Some(payer), y.key));
    let w = folded(receipt.delta, Map::empty(), base, local)->Ok_0;
    let running = Map::<SubstateKey, Option<Seq<u8>>>::empty().union_prefer_right(w);
    assert(running =~= w);
    assert(free =~= w);
    let burn = burn_of(Some(payer), receipt.fuel);
    if key == payer.vault {
        assert(w.contains_key(key));
        assert(current(w, running, base, key) == w[key]);
        if burn > 0 {
            let cell = w[key];
            match cell {
                Some(bytes) => {
                    if bytes.len() == 16 {
                        lemma_widths();
                        lemma_le_canonical(bytes);
                        lemma_amount_left(less(le_value(bytes) as int, burn));
                    }
                },
                None => {},
            }
        }
    }
}

/// The last movement and the last settle of a cell are those behind which the
/// list speaks of it no more; a list that does not speak of it moves nothing.
pub proof fn law_the_last_movement_is_reported(
    moves: Seq<(SubstateKey, Movement)>,
    settles: Seq<(SubstateKey, u128)>,
    key: SubstateKey,
)
    ensures
        ({
            let moved = |m: (SubstateKey, Movement)| m.0 == key;
            let drawn = |s: (SubstateKey, u128)| s.0 == key;
            &&& !some_at(moves, moved) ==> movement_of(moves, key).credit == 0 && movement_of(
                moves,
                key,
            ).debit == 0
            &&& forall|i: int| #[trigger]
                last_at(moves, moved, i) ==> movement_of(moves, key) == moves[i].1
            &&& !some_at(settles, drawn) ==> settle_of(settles, key) == 0
            &&& forall|i: int| #[trigger]
                last_at(settles, drawn, i) ==> settle_of(settles, key) == settles[i].1
        }),
    decreases moves.len() + settles.len(),
{
    lemma_last_at(moves, |m: (SubstateKey, Movement)| m.0 == key);
    lemma_last_at(settles, |s: (SubstateKey, u128)| s.0 == key);
    if moves.len() > 0 {
        law_the_last_movement_is_reported(moves.drop_last(), settles, key);
    } else if settles.len() > 0 {
        law_the_last_movement_is_reported(moves, settles.drop_last(), key);
    }
}

/// A list speaks of a cell once at most.
pub open spec fn once<T>(list: Seq<(SubstateKey, T)>, key: SubstateKey) -> bool {
    forall|i: int, j: int|
        0 <= i < j < list.len() ==> !((#[trigger] list[i]).0 == key && (#[trigger] list[j]).0 == key)
}

proof fn lemma_net_once(list: Seq<(SubstateKey, Movement)>, key: SubstateKey)
    requires
        once(list, key),
    ensures
        net_of(list, key) == movement_of(list, key).credit - movement_of(list, key).debit,
        !speaks_of(list, key) ==> net_of(list, key) == 0,
    decreases list.len(),
{
    if list.len() > 0 {
        let t = list.drop_last();
        assert(once(t, key)) by {
            assert forall|i: int, j: int| 0 <= i < j < t.len() implies !((#[trigger] t[i]).0 == key
                && (#[trigger] t[j]).0 == key) by {
                assert(t[i] == list[i] && t[j] == list[j]);
            }
        }
        lemma_net_once(t, key);
        if list.last().0 == key {
            assert(list[list.len() - 1].0 == key);
            if speaks_of(t, key) {
                let i = choose|i: int| 0 <= i < t.len() && (#[trigger] t[i]).0 == key;
                assert(list[i].0 == key);
            }
        } else if speaks_of(t, key) {
            let i = choose|i: int| 0 <= i < t.len() && (#[trigger] t[i]).0 == key;
            assert(list[i].0 == key);
        }
    }
}

proof fn lemma_drawn_once(list: Seq<(SubstateKey, u128)>, key: SubstateKey)
    requires
        once(list, key),
    ensures
        drawn_of(list, key) == settle_of(list, key),
        !speaks_of(list, key) ==> drawn_of(list, key) == 0,
    decreases list.len(),
{
    if list.len() > 0 {
        let t = list.drop_last();
        assert(once(t, key)) by {
            assert forall|i: int, j: int| 0 <= i < j < t.len() implies !((#[trigger] t[i]).0 == key
                && (#[trigger] t[j]).0 == key) by {
                assert(t[i] == list[i] && t[j] == list[j]);
            }
        }
        lemma_drawn_once(t, key);
        if list.last().0 == key {
            assert(list[list.len() - 1].0 == key);
            if speaks_of(t, key) {
                let i = choose|i: int| 0 <= i < t.len() && (#[trigger] t[i]).0 == key;
                assert(list[i].0 == key);
            }
        } else if speaks_of(t, key) {
            let i = choose|i: int| 0 <= i < t.len() && (#[trigger] t[i]).0 == key;
            assert(list[i].0 == key);
        }
    }
}

/// A cell's amount is what it holds, and no more than fits.
proof fn lemma_cell_amount(cell: Option<Seq<u8>>)
    ensures
        forall|x: int| #[trigger] holds_amount(cell, x) ==> amount_at(cell) == x && x <= u128::MAX,
        forall|x: int| #[trigger] left_with(cell, x) ==> amount_at(cell) == x,
{
    lemma_widths();
    if cell is Some && cell->0.len() == 16 {
        lemma_le_canonical(cell->0);
    }
}

/// The figures of a preview add up. Where a transaction would complete and moves
/// an amount without writing its cell outright, what the cell would hold is what
/// it holds, and the credit, less the debit, less what is settled, less the fee
/// where the cell is the charged payer's vault, at least nothing. The fee is what
/// was consumed, up to the ceiling.
pub proof fn law_a_preview_adds_up(
    report: PreviewReport,
    receipt: Receipt,
    base: BaseCells,
    fee: Option<PayerFee>,
    free_credit: bool,
    local: spec_fn([u8; 16]) -> bool,
    c: int,
)
    requires
        previews(report, receipt, base, fee, free_credit, local),
        receipt.outcome is Completed,
        0 <= c < report.changes@.len(),
        local(report.changes@[c].key.owner),
        !writes_outright(receipt.delta.cells@, report.changes@[c].key),
        once(receipt.delta.movements@, report.changes@[c].key),
        once(receipt.delta.settles@, report.changes@[c].key),
    ensures
        report.outcome is Completed,
        fee is None ==> report.fee == 0,
        fee is Some && receipt.fuel <= fee->0.max_fee ==> report.fee == receipt.fuel,
        fee is Some && receipt.fuel > fee->0.max_fee ==> report.fee == fee->0.max_fee,
        ({
            let change = report.changes@[c];
            let moved = change.before + change.credit - change.debit - change.settled;
            let owed = if fee is Some && fee->0.vault == change.key && !free_credit {
                report.fee as int
            } else {
                0
            };
            if moved > owed {
                change.after == moved - owed
            } else {
                change.after == 0
            }
        }),
{
    let change = report.changes@[c];
    let key = change.key;
    let delta = receipt.delta;
    let charge = if free_credit {
        None
    } else {
        fee
    };
    let w = previewed_writes(receipt, base, fee, free_credit, local)->Ok_0;
    let none: Cells = Map::empty();
    let none_burned: Map<SubstateKey, u128> = Map::empty();
    assert(reports(report.changes@[c], w, base, receipt));
    assert(reported(w, receipt, fee, report.changes@[c].key));
    let folds = folded(delta, none, base, local)->Ok_0;
    law_a_fold_conserves_amounts(delta, none, base, local, key);
    lemma_net_once(delta.movements@, key);
    lemma_drawn_once(delta.settles@, key);
    let open = opening(delta.cells@, none, base, key);
    let standing = base_cell(base, key);
    assert(open == standing);
    lemma_cell_amount(standing);
    if folds.contains_key(key) {
        assert(speaks_of(delta.movements@, key) || speaks_of(delta.settles@, key));
        let before = choose|before: int| #[trigger]
            holds_amount(open, before) && left_with(
                folds[key],
                before + net_of(delta.movements@, key) - drawn_of(delta.settles@, key),
            );
        assert(before == change.before);
    } else {
        assert(!speaks_of(delta.movements@, key) && !speaks_of(delta.settles@, key));
        law_the_last_movement_is_reported(delta.movements@, delta.settles@, key);
        assert(!some_at(delta.movements@, |m: (SubstateKey, Movement)| m.0 == key));
        assert(!some_at(delta.settles@, |s: (SubstateKey, u128)| s.0 == key));
    }
    let fees = charged(none_burned, charge, receipt.fuel);
    let pre = current(folds, none.union_prefer_right(folds), base, key);
    lemma_cell_amount(pre);
    lemma_cell_amount(w[key]);
    if burn_of(charge, receipt.fuel) > 0 && charge->0.vault == key {
        assert(fees.contains_key(key));
        if pre is Some && pre->0.len() == 16 {
            assert(holds_amount(pre, le_value(pre->0) as int));
            lemma_remainder(less(le_value(pre->0) as int, fees[key] as int));
            assert(w[key] == remainder(less(le_value(pre->0) as int, fees[key] as int)));
        } else {
            assert(folds.contains_key(key));
            assert(w[key] == folds[key]);
        }
    } else {
        assert(!fees.contains_key(key));
        assert(folds.contains_key(key));
        assert(w[key] == folds[key]);
    }
}

/// A preview leaves no moved amount out: of a transaction that would complete,
/// every local cell that a movement or a settle speaks of is reported, and with
/// it every charged vault that holds an amount.
pub proof fn law_a_preview_leaves_no_movement_out(
    report: PreviewReport,
    receipt: Receipt,
    base: BaseCells,
    fee: Option<PayerFee>,
    free_credit: bool,
    local: spec_fn([u8; 16]) -> bool,
    key: SubstateKey,
)
    requires
        previews(report, receipt, base, fee, free_credit, local),
        receipt.outcome is Completed,
        local(key.owner),
        speaks_of(receipt.delta.movements@, key) || speaks_of(receipt.delta.settles@, key) || (fee
            is Some && fee->0.vault == key && !free_credit && report.fee > 0 && base.contains_key(key)
            && base[key].len() == 16 && !writes_outright(receipt.delta.cells@, key)),
    ensures
        exists|c: int| 0 <= c < report.changes@.len() && #[trigger] report.changes@[c].key == key,
{
    let delta = receipt.delta;
    let none: Cells = Map::empty();
    let w = previewed_writes(receipt, base, fee, free_credit, local)->Ok_0;
    law_a_fold_conserves_amounts(delta, none, base, local, key);
    let folds = folded(delta, none, base, local)->Ok_0;
    if speaks_of(delta.movements@, key) {
        let i = choose|i: int|
            0 <= i < delta.movements@.len() && (#[trigger] delta.movements@[i]).0 == key;
        assert(moves(delta, key));
    }
    if speaks_of(delta.settles@, key) {
        let i = choose|i: int|
            0 <= i < delta.settles@.len() && (#[trigger] delta.settles@[i]).0 == key;
        assert(moves(delta, key));
    }
    assert(w.contains_key(key));
    assert(reported(w, receipt, fee, key));
    assert(lists_change(report.changes@, key));
    let c = choose|c: int| 0 <= c < report.changes@.len() && (#[trigger] report.changes@[c]).key
        == key;
    assert(report.changes@[c].key == key);
}

/// A preview of a transaction that would abort names the floor as its cost, and
/// reports nothing but its payer's vault less that floor; with free credit it
/// reports nothing at all.
pub proof fn law_a_preview_of_an_abort_pays_the_floor(
    report: PreviewReport,
    receipt: Receipt,
    base: BaseCells,
    fee: Option<PayerFee>,
    free_credit: bool,
    local: spec_fn([u8; 16]) -> bool,
)
    requires
        previews(report, receipt, base, fee, free_credit, local),
        !(receipt.outcome is Completed),
    ensures
        report.outcome is Aborted,
        report.fee == (match fee {
            Some(payer) => payer.abort_floor,
            None => 0,
        }),
        free_credit || fee is None ==> report.changes@.len() == 0,
        report.changes@.len() <= 1,
        forall|c: int|
            0 <= c < report.changes@.len() ==> {
                let change = #[trigger] report.changes@[c];
                &&& change.key == fee->0.vault
                &&& change.credit == 0 && change.debit == 0 && change.settled == 0
                &&& change.before > report.fee ==> change.after == change.before - report.fee
                &&& change.before <= report.fee ==> change.after == 0
            },
{
    let w = previewed_writes(receipt, base, fee, free_credit, local)->Ok_0;
    assert forall|c: int| 0 <= c < report.changes@.len() implies {
        let change = #[trigger] report.changes@[c];
        &&& !free_credit && fee is Some
        &&& change.key == fee->0.vault
        &&& change.credit == 0 && change.debit == 0 && change.settled == 0
        &&& change.before > report.fee ==> change.after == change.before - report.fee
        &&& change.before <= report.fee ==> change.after == 0
    } by {
        let change = report.changes@[c];
        assert(reports(change, w, base, receipt));
        assert(reported(w, receipt, fee, change.key));
        let cell = base_cell(base, change.key);
        lemma_cell_amount(cell);
        lemma_cell_amount(w[change.key]);
        if cell is Some && cell->0.len() == 16 {
            assert(holds_amount(cell, le_value(cell->0) as int));
            lemma_remainder(
                less(less(le_value(cell->0) as int, 0) as int, fee->0.abort_floor as int),
            );
        }
    }
    if report.changes@.len() > 0 {
        let first = report.changes@[0];
        if report.changes@.len() > 1 {
            assert(report.changes@[0].key != report.changes@[1].key);
        }
    }
}

/// A transaction that the plan refuses is previewed as refused for the plan's own
/// words, at no cost and with no change; one without a receipt as refused for
/// want of it.
pub proof fn law_a_refused_preview_costs_nothing<
    T: SubstateDatabase,
    K: Fn(&VmBase, &Vec<BatchTx>, &SortedMap<TxHash, PreparedTx>) -> KernelOutcome<T>,
>(
    r: Result<PreviewReport, FoldFault>,
    plan: BatchPlan,
    t: TxHash,
    free_credit: bool,
    locality: Locality,
    kernel: K,
)
    requires
        previews_plan::<T, K>(r, plan, t, free_credit, locality, kernel),
    ensures
        plan.refused@.contains_key(t) ==> r is Ok && r->Ok_0.fee == 0 && r->Ok_0.changes@.len() == 0
            && r->Ok_0.outcome is Refused && r->Ok_0.outcome->Refused_reason@ == plan.refused@[t]@,
        !plan.refused@.contains_key(t) && r is Ok && r->Ok_0.outcome is Refused ==> r->Ok_0.fee == 0
            && r->Ok_0.changes@.len() == 0 && r->Ok_0.outcome->Refused_reason@
            == "missing batch receipt"@,
{
}

/// A preview is charged to the payer that the plan settles for its transaction, and
/// to nobody where the plan settles none.
pub proof fn law_a_preview_is_charged_to_the_plans_payer(fees: Map<TxHash, PayerFee>, t: TxHash)
    ensures
        payer_in(fees, t) is Some <==> fees.contains_key(t),
        fees.contains_key(t) ==> payer_in(fees, t)->0 == fees[t],
{
}

} // verus!
