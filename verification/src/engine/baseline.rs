//! What a batch reads: the transactions it is made of and the committed cells
//! that they start from.
use vstd::prelude::*;

use crate::bridge::statics::{Effect, EffectTarget, SnapshotPin};
use crate::engine::fees::PayerFee;
use crate::engine::fold::{Locality, VmBase};
use crate::engine::runner::ManifestNode;
use crate::list::{last_at, lemma_last_at, some_at};
use crate::sorted::{lemma_take_next, strictly_sorted, SortedMap, SortedSet};
use crate::storage::canonical::copy_bytes;
use crate::storage::database::SubstateDatabase;
use crate::storage::state_key::{flat, vm_flat_key_parts};
use crate::types::{SubstateKey, TxHash};

verus! {

/// The cells of a base.
pub type BaseCells = Map<SubstateKey, Seq<u8>>;

/// An entry of state that another shard provisioned.
#[derive(Debug, PartialEq, Eq)]
pub struct SubstateEntry {
    /// The flat key it is stored under.
    pub storage_key: Vec<u8>,
    /// Its value; absent for a key that holds none.
    pub value: Option<Vec<u8>>,
}

/// A package and the cell that it is filed in.
#[derive(Debug, PartialEq, Eq)]
pub struct Deployment {
    /// The cell.
    pub cell: SubstateKey,
    /// The package's artifact.
    pub artifact: Vec<u8>,
}

/// What an envelope carries.
#[derive(Debug, PartialEq, Eq)]
pub enum InputBody {
    /// The wire bytes of a tree that it calls.
    Call(Vec<u8>),
    /// A package that it publishes.
    Publish(Deployment),
}

/// What a batch needs to know of an envelope.
#[derive(Debug, PartialEq, Eq)]
pub struct VmInput {
    /// What it carries.
    pub body: InputBody,
    /// Pinned values that it reads.
    pub snapshot_pins: Vec<SnapshotPin>,
    /// The cell that its fee is taken from, where it has one.
    pub fee_vault: Option<SubstateKey>,
    /// The most it pays.
    pub max_fee: u128,
    /// What an abort of it settles.
    pub abort_floor: u128,
}

/// A transaction of a batch.
#[derive(Debug, PartialEq, Eq)]
pub struct BatchInput {
    /// The transaction.
    pub tx: TxHash,
    /// Its envelope, if it carries one.
    pub vm: Option<VmInput>,
}

/// What derivation made of a transaction.
#[derive(Debug, PartialEq, Eq)]
pub struct PreparedTx {
    /// The nodes that it calls, flattened.
    pub manifest: Vec<ManifestNode>,
    /// The effects it declares.
    pub declared: Vec<Effect>,
    /// The cells that its subintents nullify.
    pub nullifiers: Vec<SubstateKey>,
    /// The package that it files, if it is a publish.
    pub deploys: Option<Deployment>,
}

/// A base with a provisioned entry laid over: the cell its flat key names gets
/// its value. A key that names no cell, or an entry without a value, changes
/// nothing.
pub open spec fn with_entry(base: BaseCells, entry: SubstateEntry) -> BaseCells {
    match entry.value {
        Some(value) => Map::new(
            |k: SubstateKey| base.contains_key(k) || flat(k) == entry.storage_key@,
            |k: SubstateKey|
                if flat(k) == entry.storage_key@ {
                    value@
                } else {
                    base[k]
                },
        ),
        None => base,
    }
}

/// A base with entries laid over, one after the other.
pub open spec fn with_entries(base: BaseCells, entries: Seq<SubstateEntry>) -> BaseCells
    decreases entries.len(),
{
    if entries.len() == 0 {
        base
    } else {
        with_entry(with_entries(base, entries.drop_last()), entries.last())
    }
}

/// A base with lists of entries laid over, one after the other.
pub open spec fn with_lists(base: BaseCells, lists: Seq<Vec<SubstateEntry>>) -> BaseCells
    decreases lists.len(),
{
    if lists.len() == 0 {
        base
    } else {
        with_entries(with_lists(base, lists.drop_last()), lists.last()@)
    }
}

/// The provisioned cells, laid down by ascending transaction.
pub open spec fn provisioned(
    order: Seq<TxHash>,
    provisions: Map<TxHash, Vec<Vec<SubstateEntry>>>,
) -> BaseCells
    decreases order.len(),
{
    if order.len() == 0 {
        Map::empty()
    } else {
        with_lists(provisioned(order.drop_last(), provisions), provisions[order.last()]@)
    }
}

/// A transaction declares an effect on a cell.
pub open spec fn declares(tx: PreparedTx, key: SubstateKey) -> bool {
    exists|i: int|
        0 <= i < tx.declared@.len() && #[trigger] tx.declared@[i].target == EffectTarget::Point(key)
}

/// Some transaction declares an effect on a cell.
pub open spec fn is_declared(prepared: Map<TxHash, PreparedTx>, key: SubstateKey) -> bool {
    exists|tx: TxHash| #[trigger] prepared.contains_key(tx) && declares(prepared[tx], key)
}

/// A base with the local declared cells of a store laid over.
pub open spec fn with_local<S: SubstateDatabase>(
    base: BaseCells,
    prepared: Map<TxHash, PreparedTx>,
    local: spec_fn([u8; 16]) -> bool,
    snapshot: S,
) -> BaseCells {
    Map::new(
        |k: SubstateKey|
            base.contains_key(k) || (is_declared(prepared, k) && local(k.owner) && snapshot.cell(
                k,
            ) is Some),
        |k: SubstateKey|
            if is_declared(prepared, k) && local(k.owner) && snapshot.cell(k) is Some {
                snapshot.cell(k)->0
            } else {
                base[k]
            },
    )
}

/// A base with pins laid over, one after the other: a pinned value replaces the
/// cell, a pinned absence clears it.
pub open spec fn with_pins(base: BaseCells, pins: Seq<SnapshotPin>) -> BaseCells
    decreases pins.len(),
{
    if pins.len() == 0 {
        base
    } else {
        let before = with_pins(base, pins.drop_last());
        match pins.last().value {
            Some(value) => before.insert(pins.last().key, value@),
            None => before.remove(pins.last().key),
        }
    }
}

/// A base with the pins of every transaction laid over, in the order given.
pub open spec fn with_all_pins(base: BaseCells, transactions: Seq<BatchInput>) -> BaseCells
    decreases transactions.len(),
{
    if transactions.len() == 0 {
        base
    } else {
        let before = with_all_pins(base, transactions.drop_last());
        match transactions.last().vm {
            Some(vm) => with_pins(before, vm.snapshot_pins@),
            None => before,
        }
    }
}

fn lay_entries(base: &mut VmBase, entries: &Vec<SubstateEntry>)
    ensures
        final(base)@ == with_entries(old(base)@, entries@),
{
    let mut i: usize = 0;
    let ghost start = base@;
    assert(entries@.take(0) =~= Seq::empty());
    while i < entries.len()
        invariant
            i <= entries@.len(),
            base@ == with_entries(start, entries@.take(i as int)),
        decreases entries@.len() - i,
    {
        let entry = &entries[i];
        let ghost before = base@;
        match &entry.value {
            Some(value) => {
                match vm_flat_key_parts(&entry.storage_key) {
                    Some(key) => {
                        base.insert(key, copy_bytes(value));
                        proof {
                            assert forall|k: SubstateKey| flat(k) == entry.storage_key@ implies k
                                == key by {
                                crate::storage::state_key::law_flat_key_determines_cell(k, key);
                            }
                        }
                        assert(base@ =~= with_entry(before, *entry));
                    },
                    None => {
                        assert(base@ =~= with_entry(before, *entry));
                    },
                }
            },
            None => {},
        }
        assert(entries@.take(i + 1).drop_last() =~= entries@.take(i as int));
        i = i + 1;
    }
    assert(entries@.take(entries@.len() as int) =~= entries@);
}

fn lay_lists(base: &mut VmBase, lists: &Vec<Vec<SubstateEntry>>)
    ensures
        final(base)@ == with_lists(old(base)@, lists@),
{
    let mut i: usize = 0;
    let ghost start = base@;
    assert(lists@.take(0) =~= Seq::empty());
    while i < lists.len()
        invariant
            i <= lists@.len(),
            base@ == with_lists(start, lists@.take(i as int)),
        decreases lists@.len() - i,
    {
        lay_entries(base, &lists[i]);
        assert(lists@.take(i + 1).drop_last() =~= lists@.take(i as int));
        i = i + 1;
    }
    assert(lists@.take(lists@.len() as int) =~= lists@);
}

fn lay_pins(base: &mut VmBase, pins: &Vec<SnapshotPin>)
    ensures
        final(base)@ == with_pins(old(base)@, pins@),
{
    let mut i: usize = 0;
    let ghost start = base@;
    assert(pins@.take(0) =~= Seq::empty());
    while i < pins.len()
        invariant
            i <= pins@.len(),
            base@ == with_pins(start, pins@.take(i as int)),
        decreases pins@.len() - i,
    {
        let pin = &pins[i];
        match &pin.value {
            Some(value) => base.insert(pin.key, copy_bytes(value)),
            None => base.remove(&pin.key),
        }
        assert(pins@.take(i + 1).drop_last() =~= pins@.take(i as int));
        i = i + 1;
    }
    assert(pins@.take(pins@.len() as int) =~= pins@);
}

fn add_points(set: &mut SortedSet<SubstateKey>, tx: &PreparedTx)
    ensures
        forall|k: SubstateKey| #[trigger]
            final(set)@.contains(k) <==> old(set)@.contains(k) || declares(*tx, k),
{
    let mut i: usize = 0;
    let ghost start = set@;
    while i < tx.declared.len()
        invariant
            i <= tx.declared@.len(),
            start == old(set)@,
            forall|k: SubstateKey| #[trigger]
                set@.contains(k) <==> start.contains(k) || exists|j: int|
                    0 <= j < i && #[trigger] tx.declared@[j].target == EffectTarget::Point(k),
        decreases tx.declared@.len() - i,
    {
        let ghost before = set@;
        match tx.declared[i].target {
            EffectTarget::Point(key) => {
                set.insert(key);
            },
            _ => {},
        }
        proof {
            assert forall|k: SubstateKey| #[trigger]
                set@.contains(k) <==> start.contains(k) || exists|j: int|
                    0 <= j < i + 1 && #[trigger] tx.declared@[j].target == EffectTarget::Point(
                        k,
                    ) by {
                if before.contains(k) && !start.contains(k) {
                    let j = choose|j: int|
                        0 <= j < i && #[trigger] tx.declared@[j].target == EffectTarget::Point(k);
                    assert(tx.declared@[j].target == EffectTarget::Point(k));
                }
                if tx.declared@[i as int].target == EffectTarget::Point(k) {
                    assert(set@.contains(k));
                }
            }
        }
        i = i + 1;
    }
}

/// The cells that some transaction declares an effect on, ascending.
pub fn declared_points(prepared: &SortedMap<TxHash, PreparedTx>) -> (set: SortedSet<SubstateKey>)
    ensures
        forall|k: SubstateKey| #[trigger] set@.contains(k) <==> is_declared(prepared@, k),
{
    let count: usize = prepared.len();
    let ghost order = prepared.order();
    let mut set: SortedSet<SubstateKey> = SortedSet::new();
    let mut i: usize = 0;
    while i < count
        invariant
            i <= count,
            count == order.len(),
            order == prepared.order(),
            prepared@.dom() == order.to_set(),
            forall|k: SubstateKey| #[trigger]
                set@.contains(k) <==> exists|j: int|
                    0 <= j < i && declares(prepared@[#[trigger] order[j]], k),
        decreases count - i,
    {
        let ghost before = set@;
        add_points(&mut set, prepared.value_at(i));
        proof {
            assert forall|k: SubstateKey| #[trigger]
                set@.contains(k) <==> exists|j: int|
                    0 <= j < i + 1 && declares(prepared@[#[trigger] order[j]], k) by {
                if before.contains(k) {
                    let j = choose|j: int|
                        0 <= j < i && declares(prepared@[#[trigger] order[j]], k);
                    assert(declares(prepared@[order[j]], k));
                }
                if declares(prepared@[order[i as int]], k) {
                    assert(set@.contains(k));
                }
            }
        }
        i = i + 1;
    }
    proof {
        assert forall|k: SubstateKey| #[trigger]
            set@.contains(k) <==> is_declared(prepared@, k) by {
            if set@.contains(k) {
                let j = choose|j: int|
                    0 <= j < count && declares(prepared@[#[trigger] order[j]], k);
                assert(order.to_set().contains(order[j]));
                assert(prepared@.contains_key(order[j]));
            }
            if is_declared(prepared@, k) {
                let tx = choose|tx: TxHash| #[trigger]
                    prepared@.contains_key(tx) && declares(prepared@[tx], k);
                assert(order.to_set().contains(tx));
                let j = order.index_of(tx);
                assert(declares(prepared@[order[j]], k));
            }
        }
    }
    set
}

/// The local cells among the first `n` of a list laid over.
spec fn with_first<S: SubstateDatabase>(
    base: BaseCells,
    keys: Seq<SubstateKey>,
    local: spec_fn([u8; 16]) -> bool,
    snapshot: S,
    n: int,
) -> BaseCells {
    Map::new(
        |k: SubstateKey|
            base.contains_key(k) || (keys.take(n).contains(k) && local(k.owner) && snapshot.cell(
                k,
            ) is Some),
        |k: SubstateKey|
            if keys.take(n).contains(k) && local(k.owner) && snapshot.cell(k) is Some {
                snapshot.cell(k)->0
            } else {
                base[k]
            },
    )
}

/// The cells that a batch starts from: what other shards provisioned, then the
/// declared cells that the shard owns as the snapshot holds them, then the
/// pinned values, which override both.
pub fn committed_base<S: SubstateDatabase>(
    transactions: &Vec<BatchInput>,
    prepared: &SortedMap<TxHash, PreparedTx>,
    provisions: &SortedMap<TxHash, Vec<Vec<SubstateEntry>>>,
    locality: &Locality,
    snapshot: &S,
) -> (base: VmBase)
    requires
        locality.trie.wf(),
    ensures
        base@ == with_all_pins(
            with_local(
                provisioned(provisions.order(), provisions@),
                prepared@,
                |o: [u8; 16]| locality.local(o),
                *snapshot,
            ),
            transactions@,
        ),
        strictly_sorted(provisions.order()),
        provisions@.dom() == provisions.order().to_set(),
{
    let ghost local = |o: [u8; 16]| locality.local(o);
    let mut base = VmBase::new();
    let count: usize = provisions.len();
    let ghost order = provisions.order();
    let mut i: usize = 0;
    assert(order.take(0) =~= Seq::empty());
    while i < count
        invariant
            i <= count,
            count == order.len(),
            order == provisions.order(),
            base@ == provisioned(order.take(i as int), provisions@),
        decreases count - i,
    {
        lay_lists(&mut base, provisions.value_at(i));
        assert(order.take(i + 1).drop_last() =~= order.take(i as int));
        i = i + 1;
    }
    assert(order.take(count as int) =~= order);
    let ghost given = base@;
    let points = declared_points(prepared);
    let n: usize = points.len();
    let ghost keys = points.order();
    let mut j: usize = 0;
    assert(keys.take(0) =~= Seq::empty());
    assert(base@ =~= with_first(given, keys, local, *snapshot, 0));
    while j < n
        invariant
            j <= n,
            n == keys.len(),
            keys == points.order(),
            locality.trie.wf(),
            local == (|o: [u8; 16]| locality.local(o)),
            base@ == with_first(given, keys, local, *snapshot, j as int),
        decreases n - j,
    {
        let key = points.at(j);
        proof {
            lemma_take_next(keys, j as int);
        }
        if locality.is_local(&key.owner) {
            match snapshot.substate(key) {
                Some(value) => {
                    base.insert(key, value);
                },
                None => {},
            }
        }
        assert(base@ =~= with_first(given, keys, local, *snapshot, j + 1));
        j = j + 1;
    }
    proof {
        assert(keys.take(n as int) =~= keys);
        assert forall|k: SubstateKey| keys.contains(k) == is_declared(prepared@, k) by {
            assert(points@.contains(k) == keys.contains(k)) by {
                assert(keys.to_set().contains(k) == keys.contains(k));
            }
        }
        assert(base@ =~= with_local(given, prepared@, local, *snapshot));
    }
    let ghost read = base@;
    let mut t: usize = 0;
    assert(transactions@.take(0) =~= Seq::empty());
    while t < transactions.len()
        invariant
            t <= transactions@.len(),
            base@ == with_all_pins(read, transactions@.take(t as int)),
        decreases transactions@.len() - t,
    {
        match &transactions[t].vm {
            Some(vm) => lay_pins(&mut base, &vm.snapshot_pins),
            None => {},
        }
        assert(transactions@.take(t + 1).drop_last() =~= transactions@.take(t as int));
        t = t + 1;
    }
    assert(transactions@.take(transactions@.len() as int) =~= transactions@);
    base
}

/// What the shard charges as the fee payer of a transaction: nothing, where
/// the vault is not its own. Only a leg that crosses shards can still be
/// aborted after it ran.
pub open spec fn payer_of(
    tx: BatchInput,
    cross_shard: bool,
    local: spec_fn([u8; 16]) -> bool,
) -> Option<PayerFee> {
    match tx.vm {
        Some(vm) => match vm.fee_vault {
            Some(vault) => if local(vault.owner) {
                Some(
                    PayerFee {
                        vault,
                        max_fee: vm.max_fee,
                        abort_floor: vm.abort_floor,
                        revocable: cross_shard,
                    },
                )
            } else {
                None
            },
            None => None,
        },
        None => None,
    }
}

/// The fee payers of a batch; of two mentions of a transaction, the later one
/// that pays counts.
pub open spec fn payers_of(
    transactions: Seq<BatchInput>,
    cross_shard: bool,
    local: spec_fn([u8; 16]) -> bool,
) -> Map<TxHash, PayerFee>
    decreases transactions.len(),
{
    if transactions.len() == 0 {
        Map::empty()
    } else {
        let before = payers_of(transactions.drop_last(), cross_shard, local);
        match payer_of(transactions.last(), cross_shard, local) {
            Some(fee) => before.insert(transactions.last().tx, fee),
            None => before,
        }
    }
}

/// The fee payers that a shard settles for a batch.
pub fn fee_payers(transactions: &Vec<BatchInput>, locality: &Locality) -> (fees: SortedMap<
    TxHash,
    PayerFee,
>)
    requires
        locality.trie.wf(),
    ensures
        fees@ == payers_of(
            transactions@,
            locality.cross_shard,
            |o: [u8; 16]| locality.local(o),
        ),
{
    let ghost local = |o: [u8; 16]| locality.local(o);
    let mut fees: SortedMap<TxHash, PayerFee> = SortedMap::new();
    let mut i: usize = 0;
    assert(transactions@.take(0) =~= Seq::empty());
    while i < transactions.len()
        invariant
            i <= transactions@.len(),
            locality.trie.wf(),
            local == (|o: [u8; 16]| locality.local(o)),
            fees@ == payers_of(transactions@.take(i as int), locality.cross_shard, local),
        decreases transactions@.len() - i,
    {
        let tx = &transactions[i];
        match &tx.vm {
            Some(vm) => {
                match vm.fee_vault {
                    Some(vault) => {
                        if locality.is_local(&vault.owner) {
                            fees.insert(
                                tx.tx,
                                PayerFee {
                                    vault,
                                    max_fee: vm.max_fee,
                                    abort_floor: vm.abort_floor,
                                    revocable: locality.cross_shard,
                                },
                            );
                        }
                    },
                    None => {},
                }
            },
            None => {},
        }
        assert(transactions@.take(i + 1).drop_last() =~= transactions@.take(i as int));
        i = i + 1;
    }
    assert(transactions@.take(transactions@.len() as int) =~= transactions@);
    fees
}

/// A pinned value is what every committee reads: after the last pin of a cell,
/// neither the snapshot nor a provision shows through.
pub proof fn law_pins_override(a: BaseCells, b: BaseCells, pins: Seq<SnapshotPin>, i: int)
    requires
        0 <= i < pins.len(),
    ensures
        with_pins(a, pins).contains_key(pins[i].key) == with_pins(b, pins).contains_key(
            pins[i].key,
        ),
        with_pins(a, pins).contains_key(pins[i].key) ==> with_pins(a, pins)[pins[i].key]
            == with_pins(b, pins)[pins[i].key],
    decreases pins.len(),
{
    if pins.last().key != pins[i].key {
        assert(pins.drop_last()[i] == pins[i]);
        law_pins_override(a, b, pins.drop_last(), i);
    }
}

/// An entry provisions a cell.
pub open spec fn provides(entry: SubstateEntry, key: SubstateKey) -> bool {
    entry.value is Some && entry.storage_key@ == flat(key)
}

/// A list's entries provision a cell.
pub open spec fn list_provides(list: Seq<SubstateEntry>, key: SubstateKey) -> bool {
    some_at(list, |e: SubstateEntry| provides(e, key))
}

/// A transaction's lists provision a cell.
pub open spec fn lists_provide(lists: Seq<Vec<SubstateEntry>>, key: SubstateKey) -> bool {
    some_at(lists, |l: Vec<SubstateEntry>| list_provides(l@, key))
}

proof fn lemma_with_entries(base: BaseCells, entries: Seq<SubstateEntry>, key: SubstateKey)
    ensures
        with_entries(base, entries).contains_key(key) == (base.contains_key(key) || list_provides(
            entries,
            key,
        )),
        !list_provides(entries, key) && base.contains_key(key) ==> with_entries(base, entries)[key]
            == base[key],
        ({
            let entered = |e: SubstateEntry| provides(e, key);
            forall|at: int| #[trigger]
                last_at(entries, entered, at) ==> with_entries(base, entries)[key]
                    == entries[at].value->0@
        }),
    decreases entries.len(),
{
    lemma_last_at(entries, |e: SubstateEntry| provides(e, key));
    if entries.len() > 0 {
        lemma_with_entries(base, entries.drop_last(), key);
    }
}

proof fn lemma_with_lists(base: BaseCells, lists: Seq<Vec<SubstateEntry>>, key: SubstateKey)
    ensures
        with_lists(base, lists).contains_key(key) == (base.contains_key(key) || lists_provide(
            lists,
            key,
        )),
        !lists_provide(lists, key) && base.contains_key(key) ==> with_lists(base, lists)[key]
            == base[key],
        ({
            let listed = |l: Vec<SubstateEntry>| list_provides(l@, key);
            let entered = |e: SubstateEntry| provides(e, key);
            forall|l: int, at: int|
                #![trigger last_at(lists, listed, l), last_at(lists[l]@, entered, at)]
                last_at(lists, listed, l) && last_at(lists[l]@, entered, at) ==> with_lists(
                    base,
                    lists,
                )[key] == lists[l]@[at].value->0@
        }),
    decreases lists.len(),
{
    lemma_last_at(lists, |l: Vec<SubstateEntry>| list_provides(l@, key));
    if lists.len() > 0 {
        let before = with_lists(base, lists.drop_last());
        lemma_with_lists(base, lists.drop_last(), key);
        lemma_with_entries(before, lists.last()@, key);
    }
}

/// What other shards provision is laid down whole, the last word on a cell
/// standing: a cell is provisioned exactly where some entry with a value names
/// it, and holds what the last one says, by the last transaction that has one,
/// its last list that has one and that list's last one.
pub proof fn law_the_last_provision_stands(
    order: Seq<TxHash>,
    provisions: Map<TxHash, Vec<Vec<SubstateEntry>>>,
    key: SubstateKey,
)
    ensures
        ({
            let named = |t: TxHash| lists_provide(provisions[t]@, key);
            let listed = |l: Vec<SubstateEntry>| list_provides(l@, key);
            let entered = |e: SubstateEntry| provides(e, key);
            &&& provisioned(order, provisions).contains_key(key) <==> some_at(order, named)
            &&& forall|n: int, l: int, at: int|
                #![trigger last_at(order, named, n), last_at(provisions[order[n]]@, listed, l), last_at(provisions[order[n]]@[l]@, entered, at)]
                last_at(order, named, n) && last_at(provisions[order[n]]@, listed, l) && last_at(
                    provisions[order[n]]@[l]@,
                    entered,
                    at,
                ) ==> provisioned(order, provisions)[key]
                    == provisions[order[n]]@[l]@[at].value->0@
        }),
    decreases order.len(),
{
    lemma_last_at(order, |t: TxHash| lists_provide(provisions[t]@, key));
    if order.len() > 0 {
        let before = provisioned(order.drop_last(), provisions);
        law_the_last_provision_stands(order.drop_last(), provisions, key);
        lemma_with_lists(before, provisions[order.last()]@, key);
    }
}

/// The snapshot shows through for exactly the cells of the shard's own that some
/// transaction declares an effect on and that hold a value; every other cell is
/// as it was provisioned.
pub proof fn law_the_snapshot_shows_declared_cells<S: SubstateDatabase>(
    base: BaseCells,
    prepared: Map<TxHash, PreparedTx>,
    local: spec_fn([u8; 16]) -> bool,
    snapshot: S,
    key: SubstateKey,
)
    ensures
        ({
            let after = with_local(base, prepared, local, snapshot);
            let shows = snapshot.cell(key) is Some && local(key.owner) && exists|tx: TxHash, i: int|
                prepared.contains_key(tx) && 0 <= i < prepared[tx].declared@.len()
                    && #[trigger] prepared[tx].declared@[i].target == EffectTarget::Point(key);
            &&& shows ==> after.contains_key(key) && Some(after[key]) == snapshot.cell(key)
            &&& !shows ==> after.contains_key(key) == base.contains_key(key) && (base.contains_key(
                key,
            ) ==> after[key] == base[key])
        }),
{
    if is_declared(prepared, key) {
        let tx = choose|tx: TxHash| #[trigger]
            prepared.contains_key(tx) && declares(prepared[tx], key);
        let i = choose|i: int|
            0 <= i < prepared[tx].declared@.len() && #[trigger] prepared[tx].declared@[i].target
                == EffectTarget::Point(key);
        assert(prepared[tx].declared@[i].target == EffectTarget::Point(key));
    }
    if exists|tx: TxHash, i: int|
        prepared.contains_key(tx) && 0 <= i < prepared[tx].declared@.len()
            && #[trigger] prepared[tx].declared@[i].target == EffectTarget::Point(key) {
        let (tx, i) = choose|tx: TxHash, i: int|
            prepared.contains_key(tx) && 0 <= i < prepared[tx].declared@.len()
                && #[trigger] prepared[tx].declared@[i].target == EffectTarget::Point(key);
        assert(declares(prepared[tx], key));
    }
}

/// A transaction pins a cell.
pub open spec fn pins_cell(tx: BatchInput, key: SubstateKey) -> bool {
    tx.vm is Some && some_at(tx.vm->0.snapshot_pins@, |p: SnapshotPin| p.key == key)
}

proof fn lemma_with_pins(base: BaseCells, pins: Seq<SnapshotPin>, key: SubstateKey)
    ensures
        ({
            let of_key = |p: SnapshotPin| p.key == key;
            let after = with_pins(base, pins);
            &&& !some_at(pins, of_key) ==> after.contains_key(key) == base.contains_key(key) && (
            base.contains_key(key) ==> after[key] == base[key])
            &&& forall|at: int| #[trigger]
                last_at(pins, of_key, at) ==> match pins[at].value {
                    Some(v) => after.contains_key(key) && after[key] == v@,
                    None => !after.contains_key(key),
                }
        }),
    decreases pins.len(),
{
    lemma_last_at(pins, |p: SnapshotPin| p.key == key);
    if pins.len() > 0 {
        lemma_with_pins(base, pins.drop_last(), key);
    }
}

/// The last pin of a cell over the whole batch is what the batch reads there: its
/// value, or nothing where it pins an absence. A cell that no transaction pins
/// is read as it was.
pub proof fn law_the_last_pin_stands(
    base: BaseCells,
    transactions: Seq<BatchInput>,
    key: SubstateKey,
)
    ensures
        ({
            let pinned = |t: BatchInput| pins_cell(t, key);
            let of_key = |p: SnapshotPin| p.key == key;
            let after = with_all_pins(base, transactions);
            &&& !some_at(transactions, pinned) ==> after.contains_key(key) == base.contains_key(key)
                && (base.contains_key(key) ==> after[key] == base[key])
            &&& forall|n: int, at: int|
                #![trigger last_at(transactions, pinned, n), last_at(transactions[n].vm->0.snapshot_pins@, of_key, at)]
                last_at(transactions, pinned, n) && last_at(
                    transactions[n].vm->0.snapshot_pins@,
                    of_key,
                    at,
                ) ==> match transactions[n].vm->0.snapshot_pins@[at].value {
                    Some(v) => after.contains_key(key) && after[key] == v@,
                    None => !after.contains_key(key),
                }
        }),
    decreases transactions.len(),
{
    lemma_last_at(transactions, |t: BatchInput| pins_cell(t, key));
    if transactions.len() > 0 {
        let before = with_all_pins(base, transactions.drop_last());
        law_the_last_pin_stands(base, transactions.drop_last(), key);
        if transactions.last().vm is Some {
            lemma_with_pins(before, transactions.last().vm->0.snapshot_pins@, key);
        }
    }
}

/// A transaction names a fee vault that the shard holds.
pub open spec fn pays_here(tx: BatchInput, local: spec_fn([u8; 16]) -> bool) -> bool {
    tx.vm is Some && tx.vm->0.fee_vault is Some && local(tx.vm->0.fee_vault->0.owner)
}

/// A shard settles the fee of exactly the transactions that name a vault of its
/// own, with the vault, the ceiling and the floor that the last mention signed,
/// and can still revoke it exactly where the batch crosses shards.
pub proof fn law_a_shard_settles_its_own_payers(
    transactions: Seq<BatchInput>,
    cross_shard: bool,
    local: spec_fn([u8; 16]) -> bool,
    tx: TxHash,
)
    ensures
        ({
            let fees = payers_of(transactions, cross_shard, local);
            let pays = |t: BatchInput| t.tx == tx && pays_here(t, local);
            &&& fees.contains_key(tx) <==> some_at(transactions, pays)
            &&& forall|n: int| #[trigger]
                last_at(transactions, pays, n) ==> {
                    let vm = transactions[n].vm->0;
                    &&& fees[tx].vault == vm.fee_vault->0
                    &&& fees[tx].max_fee == vm.max_fee
                    &&& fees[tx].abort_floor == vm.abort_floor
                    &&& fees[tx].revocable == cross_shard
                }
        }),
    decreases transactions.len(),
{
    lemma_last_at(transactions, |t: BatchInput| t.tx == tx && pays_here(t, local));
    if transactions.len() > 0 {
        law_a_shard_settles_its_own_payers(transactions.drop_last(), cross_shard, local, tx);
    }
}

} // verus!
