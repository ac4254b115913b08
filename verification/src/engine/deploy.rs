//! Publishes in a batch. They call nothing: the kernel prices what they declare,
//! and what they write and burn is laid over what it made of the rest.
use vstd::prelude::*;

use crate::engine::baseline::{BaseCells, Deployment, PreparedTx};
use crate::engine::batch::{work_of, writes_of, Folding, Run};
use crate::engine::fees::{burned_so_far, charged, debited, least, PayerFee};
use crate::engine::fold::{current, folded, written, Delta, FoldFault, Outcome, Receipt};
use crate::list::{last_at, lemma_last_at, some_at};
use crate::sorted::{lemma_sorted_distinct, lemma_take_next, SortedMap};
use crate::storage::canonical::copy_bytes;
use crate::storage::database::SubstateDatabase;
use crate::storage::writes::left;
use crate::types::{SubstateKey, TxHash};

verus! {

/// The receipt of a transaction that completed and wrote one cell outright, and
/// changed nothing else.
pub open spec fn writes_one(r: Receipt, key: SubstateKey, value: Seq<u8>) -> bool {
    &&& r.outcome is Completed
    &&& r.delta.entries == 0
    &&& r.delta.movements@.len() == 0
    &&& r.delta.settles@.len() == 0
    &&& r.delta.cells@.len() == 1
    &&& r.delta.cells@[0].0 == key
    &&& left(r.delta.cells@[0].1) == Some(value)
}

/// The receipt of a publish: it wrote its artifact to its package's cell and
/// nothing else, and judging the artifact cost its length.
pub open spec fn deploys(r: Receipt, d: Deployment, declared_work: int) -> bool {
    &&& writes_one(r, d.cell, d.artifact@)
    &&& r.fuel == d.artifact@.len()
    &&& r.declared_work == declared_work
    &&& r.events@.len() == 0
}

/// The receipt of a publish whose declaration is worth `declared_work`.
pub fn deployment_receipt(d: &Deployment, declared_work: u64) -> (r: Receipt)
    ensures
        deploys(r, *d, declared_work as int),
{
    let mut cells: Vec<(SubstateKey, Option<Vec<u8>>)> = Vec::new();
    cells.push((d.cell, Some(copy_bytes(&d.artifact))));
    Receipt {
        outcome: Outcome::Completed,
        fuel: d.artifact.len() as u64,
        declared_work,
        delta: Delta { cells, movements: Vec::new(), settles: Vec::new(), entries: 0 },
        events: Vec::new(),
    }
}

/// The transaction files a package.
pub open spec fn files(prepared: Map<TxHash, PreparedTx>, t: TxHash) -> bool {
    prepared.contains_key(t) && prepared[t].deploys is Some
}

/// What the kernel says a declaration is worth; nothing, if it says nothing.
pub open spec fn worth(kernel: Map<TxHash, Receipt>, t: TxHash) -> int {
    if kernel.contains_key(t) {
        kernel[t].declared_work as int
    } else {
        0
    }
}

/// The receipts are the kernel's, with that of every publish in its place.
pub open spec fn are_amended(
    receipts: Map<TxHash, Receipt>,
    kernel: Map<TxHash, Receipt>,
    prepared: Map<TxHash, PreparedTx>,
) -> bool {
    &&& forall|t: TxHash| #[trigger]
        receipts.contains_key(t) == (kernel.contains_key(t) || files(prepared, t))
    &&& forall|t: TxHash| #[trigger]
        receipts.contains_key(t) ==> if files(prepared, t) {
            deploys(receipts[t], prepared[t].deploys->0, worth(kernel, t))
        } else {
            receipts[t] == kernel[t]
        }
}

/// Puts the receipt of every publish in its place.
pub fn amend(receipts: SortedMap<TxHash, Receipt>, prepared: &SortedMap<TxHash, PreparedTx>) -> (r:
    SortedMap<TxHash, Receipt>)
    ensures
        are_amended(r@, receipts@, prepared@),
{
    let ghost kernel = receipts@;
    let ghost order = prepared.order();
    let mut r = receipts;
    let count: usize = prepared.len();
    let mut i: usize = 0;
    proof {
        lemma_sorted_distinct(order);
    }
    while i < count
        invariant
            i <= count,
            count == order.len(),
            order == prepared.order(),
            order.no_duplicates(),
            prepared@.dom() == order.to_set(),
            forall|t: TxHash| #[trigger]
                r@.contains_key(t) == (kernel.contains_key(t) || (files(prepared@, t)
                    && order.take(i as int).contains(t))),
            forall|t: TxHash| #[trigger]
                r@.contains_key(t) ==> if files(prepared@, t) && order.take(i as int).contains(t) {
                    deploys(r@[t], prepared@[t].deploys->0, worth(kernel, t))
                } else {
                    r@[t] == kernel[t]
                },
        decreases count - i,
    {
        let tx = prepared.key_at(i);
        let p = prepared.value_at(i);
        proof {
            assert(!order.take(i as int).contains(tx)) by {
                if order.take(i as int).contains(tx) {
                    let j = choose|j: int| 0 <= j < i && order.take(i as int)[j] == tx;
                    assert(order[j] == order[i as int]);
                }
            }
            lemma_take_next(order, i as int);
        }
        if let Some(d) = &p.deploys {
            let priced: u64 = match r.get(&tx) {
                Some(receipt) => receipt.declared_work,
                None => 0,
            };
            assert(priced == worth(kernel, tx));
            let receipt = deployment_receipt(d, priced);
            r.insert(tx, receipt);
        }
        i = i + 1;
    }
    proof {
        assert(order.take(count as int) =~= order);
        assert forall|t: TxHash| files(prepared@, t) implies #[trigger] order.contains(t) by {
            assert(order.to_set().contains(t));
        }
    }
    r
}

/// The cells that the first `n` transactions file their packages in.
pub open spec fn filed(order: Seq<TxHash>, prepared: Map<TxHash, PreparedTx>, n: nat) -> Map<
    SubstateKey,
    Seq<u8>,
>
    decreases n,
{
    if n == 0 {
        Map::empty()
    } else {
        let before = filed(order, prepared, (n - 1) as nat);
        match prepared[order[n - 1]].deploys {
            Some(d) => before.insert(d.cell, d.artifact@),
            None => before,
        }
    }
}

/// What each cell holds.
pub open spec fn held(cells: Map<SubstateKey, Vec<u8>>) -> Map<SubstateKey, Seq<u8>> {
    cells.map_values(|v: Vec<u8>| v@)
}

/// A store with published packages filed in it.
pub struct Deployed<T> {
    /// The store.
    pub store: T,
    /// The packages, by cell.
    pub packages: SortedMap<SubstateKey, Vec<u8>>,
}

impl<T: SubstateDatabase> SubstateDatabase for Deployed<T> {
    open spec fn cell(&self, key: SubstateKey) -> Option<Seq<u8>> {
        if self.packages@.contains_key(key) {
            Some(self.packages@[key]@)
        } else {
            self.store.cell(key)
        }
    }

    fn substate(&self, key: SubstateKey) -> (r: Option<Vec<u8>>) {
        match self.packages.get(&key) {
            Some(artifact) => Some(copy_bytes(artifact)),
            None => self.store.substate(key),
        }
    }
}

/// The packages that a batch files, by cell.
pub fn file_packages(prepared: &SortedMap<TxHash, PreparedTx>) -> (packages: SortedMap<
    SubstateKey,
    Vec<u8>,
>)
    ensures
        held(packages@) == filed(prepared.order(), prepared@, prepared.order().len()),
{
    let mut packages: SortedMap<SubstateKey, Vec<u8>> = SortedMap::new();
    let count: usize = prepared.len();
    let mut i: usize = 0;
    assert(held(packages@) =~= Map::<SubstateKey, Seq<u8>>::empty());
    while i < count
        invariant
            i <= count,
            count == prepared.order().len(),
            held(packages@) == filed(prepared.order(), prepared@, i as nat),
        decreases count - i,
    {
        let p = prepared.value_at(i);
        if let Some(d) = &p.deploys {
            let ghost before = packages@;
            let artifact = copy_bytes(&d.artifact);
            packages.insert(d.cell, artifact);
            assert(held(packages@) =~= held(before).insert(d.cell, artifact@));
        }
        i = i + 1;
    }
    packages
}

/// A cell that is written outright, and that no fee is burned from, is left as it
/// was written; the rest of the writes are burns.
pub proof fn lemma_one_write_stays(
    state: Folding,
    base: BaseCells,
    receipt: Receipt,
    key: SubstateKey,
    value: Seq<u8>,
    fee: Option<PayerFee>,
    local: spec_fn([u8; 16]) -> bool,
)
    requires
        writes_one(receipt, key, value),
        local(key.owner),
        fee is Some ==> fee->0.vault != key,
        !state.fees.contains_key(key),
    ensures
        writes_of(state, base, receipt, fee, local) is Ok,
        writes_of(state, base, receipt, fee, local)->Ok_0 is Some,
        ({
            let w = writes_of(state, base, receipt, fee, local)->Ok_0->0;
            let fees = charged(state.fees, fee, receipt.fuel);
            &&& w.contains_key(key) && w[key] == Some(value)
            &&& forall|k: SubstateKey| #[trigger]
                w.contains_key(k) ==> k == key || fees.contains_key(k)
            &&& forall|k: SubstateKey| #[trigger]
                fees.contains_key(k) && debited(
                    current(Map::empty(), state.running, base, k),
                    fees[k] as int,
                ) is Some ==> w.contains_key(k) && w[k] == debited(
                    current(Map::empty(), state.running, base, k),
                    fees[k] as int,
                )->0
        }),
{
    let cells = receipt.delta.cells@;
    let one = written(cells, local);
    assert(cells.drop_last() =~= Seq::empty());
    assert(written(cells.drop_last(), local) == Map::<SubstateKey, Option<Seq<u8>>>::empty());
    assert(one == Map::<SubstateKey, Option<Seq<u8>>>::empty().insert(key, Some(value)));
    assert(folded(receipt.delta, state.running, base, local) == Ok::<
        Map<SubstateKey, Option<Seq<u8>>>,
        FoldFault,
    >(one));
    let fees = charged(state.fees, fee, receipt.fuel);
    assert(!fees.contains_key(key));
    let running = state.running.union_prefer_right(one);
    assert forall|k: SubstateKey| #[trigger] fees.contains_key(k) implies current(
        one,
        running,
        base,
        k,
    ) == current(Map::empty(), state.running, base, k) by {
        assert(k != key);
    }
}

/// A publish writes its artifact whole to its package's cell and burns the
/// artifact's length from its payer's vault, up to the ceiling. It writes
/// nothing else, but for the vaults that earlier burns lie over.
pub proof fn law_a_publish_writes_its_artifact(
    state: Folding,
    base: BaseCells,
    receipt: Receipt,
    d: Deployment,
    declared_work: int,
    payer: PayerFee,
    local: spec_fn([u8; 16]) -> bool,
)
    requires
        deploys(receipt, d, declared_work),
        local(d.cell.owner),
        payer.vault != d.cell,
        !state.fees.contains_key(d.cell),
    ensures
        writes_of(state, base, receipt, Some(payer), local) is Ok,
        writes_of(state, base, receipt, Some(payer), local)->Ok_0 is Some,
        ({
            let w = writes_of(state, base, receipt, Some(payer), local)->Ok_0->0;
            let burn = least(d.artifact@.len() as int, payer.max_fee as int);
            let before = current(Map::empty(), state.running, base, payer.vault);
            let total = burned_so_far(state.fees, payer.vault) + burn;
            &&& w.contains_key(d.cell) && w[d.cell] == Some(d.artifact@)
            &&& burn > 0 && total <= u128::MAX && debited(before, total) is Some
                ==> w.contains_key(payer.vault) && w[payer.vault] == debited(before, total)->0
            &&& forall|k: SubstateKey| #[trigger]
                w.contains_key(k) ==> k == d.cell || k == payer.vault || state.fees.contains_key(k)
        }),
        work_of(receipt) >= d.artifact@.len(),
{
    lemma_one_write_stays(state, base, receipt, d.cell, d.artifact@, Some(payer), local);
    let fees = charged(state.fees, Some(payer), receipt.fuel);
    let burn = least(d.artifact@.len() as int, payer.max_fee as int);
    if burn > 0 {
        assert(fees.contains_key(payer.vault));
    }
}

/// What has been burned lies over vaults of the run's payers only.
pub proof fn lemma_burns_lie_over_vaults(run: Run, n: nat, key: SubstateKey)
    requires
        n <= run.order.len(),
        run.state(n).fees.contains_key(key),
    ensures
        exists|t: TxHash| #[trigger] run.fees.contains_key(t) && run.fees[t].vault == key,
    decreases n,
{
    let before = run.state((n - 1) as nat);
    if n > 0 {
        if before.fees.contains_key(key) {
            lemma_burns_lie_over_vaults(run, (n - 1) as nat, key);
        } else {
            assert(run.fee(n - 1) is Some);
            assert(run.fees.contains_key(run.order[n - 1]));
        }
    }
}

/// Every publish of a batch is filed: a cell holds a package exactly where some
/// transaction files one there, and the last one's artifact, whole.
pub proof fn law_every_publish_is_filed(
    order: Seq<TxHash>,
    prepared: Map<TxHash, PreparedTx>,
    n: nat,
    cell: SubstateKey,
)
    requires
        n <= order.len(),
    ensures
        ({
            let here = |t: TxHash| prepared[t].deploys is Some && prepared[t].deploys->0.cell == cell;
            &&& filed(order, prepared, n).contains_key(cell) <==> some_at(order.take(n as int), here)
            &&& forall|i: int| #[trigger]
                last_at(order.take(n as int), here, i) ==> filed(order, prepared, n)[cell]
                    == prepared[order[i]].deploys->0.artifact@
        }),
    decreases n,
{
    let here = |t: TxHash| prepared[t].deploys is Some && prepared[t].deploys->0.cell == cell;
    lemma_last_at(order.take(n as int), here);
    if n > 0 {
        law_every_publish_is_filed(order, prepared, (n - 1) as nat, cell);
        assert(order.take(n as int).drop_last() =~= order.take(n - 1));
    }
}

/// A store with packages filed in it reads as the package where one is filed and
/// as the store itself elsewhere.
pub proof fn law_a_filed_package_is_read_back<T: SubstateDatabase>(
    deployed: Deployed<T>,
    key: SubstateKey,
)
    ensures
        deployed.packages@.contains_key(key) ==> deployed.cell(key) == Some(
            deployed.packages@[key]@,
        ),
        !deployed.packages@.contains_key(key) ==> deployed.cell(key) == deployed.store.cell(key),
{
}

/// The receipt of a publish: it completed, its one change is its artifact in its
/// package's cell, it emitted nothing, and it cost the artifact's length. Every
/// other receipt is the kernel's own.
pub proof fn law_a_publish_is_receipted_for_its_artifact(
    receipts: Map<TxHash, Receipt>,
    kernel: Map<TxHash, Receipt>,
    prepared: Map<TxHash, PreparedTx>,
    t: TxHash,
)
    requires
        are_amended(receipts, kernel, prepared),
    ensures
        prepared.contains_key(t) && prepared[t].deploys is Some ==> {
            let r = receipts[t];
            let d = prepared[t].deploys->0;
            &&& receipts.contains_key(t)
            &&& r.outcome is Completed
            &&& r.delta.entries == 0
            &&& r.delta.movements@.len() == 0
            &&& r.delta.settles@.len() == 0
            &&& r.delta.cells@.len() == 1
            &&& r.delta.cells@[0].0 == d.cell
            &&& r.delta.cells@[0].1 is Some
            &&& r.delta.cells@[0].1->0@ == d.artifact@
            &&& r.events@.len() == 0
            &&& r.fuel == d.artifact@.len()
            &&& r.declared_work == (if kernel.contains_key(t) {
                kernel[t].declared_work
            } else {
                0
            })
        },
        !(prepared.contains_key(t) && prepared[t].deploys is Some) ==> (receipts.contains_key(t)
            <==> kernel.contains_key(t)) && (kernel.contains_key(t) ==> receipts[t] == kernel[t]),
{
    assert(receipts.contains_key(t) == (kernel.contains_key(t) || files(prepared, t)));
}

/// Filed cells hold their bytes.
pub proof fn law_filed_cells_hold_their_bytes(
    cells: Map<SubstateKey, Vec<u8>>,
    key: SubstateKey,
)
    ensures
        held(cells).contains_key(key) <==> cells.contains_key(key),
        cells.contains_key(key) ==> held(cells)[key] == cells[key]@,
{
}

} // verus!
