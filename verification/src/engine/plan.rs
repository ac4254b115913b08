//! Planning a batch: what runs, under which clock and reveal, from which cells.
use vstd::prelude::*;

use crate::bridge::checks::MetadataLimits;
use crate::bridge::codec::unread;
use crate::bridge::envelope::{decode_tree, is_read_as, EnvelopeTree, TREE_DEPTH};
use crate::bridge::error::VmStaticsError;
use crate::bridge::package::{admit_package, backs, package_admits, package_refused_as};
use crate::bridge::statics::{Effect, EffectTarget, Mode, SnapshotPin};
use crate::engine::baseline::{
    committed_base, declares, fee_payers, is_declared, law_a_shard_settles_its_own_payers,
    law_the_last_pin_stands, law_the_last_provision_stands, law_the_snapshot_shows_declared_cells, list_provides,
    lists_provide, payers_of, pays_here, pins_cell, provides, provisioned, with_all_pins, with_local, BatchInput, Deployment, InputBody, PreparedTx,
    SubstateEntry, VmInput,
};
use crate::engine::fees::PayerFee;
use crate::engine::fold::{Locality, VmBase};
use crate::engine::runner::ManifestNode;
use crate::hash::Hash32;
use crate::list::{last_at, reversed, some_at};
use crate::order::OrdKey;
use crate::sorted::{lemma_sorted_distinct, lemma_sorted_unique, strictly_sorted, SortedMap};
use crate::storage::canonical::copy_bytes;
use crate::storage::database::SubstateDatabase;
use crate::text::join;
use crate::types::{SubstateKey, TxHash};

verus! {

/// The clock and the randomness that a transaction runs under.
#[derive(Clone, Copy, Debug, PartialEq, Eq)]
pub struct TxAnchor {
    /// Its clock, in milliseconds.
    pub clock_ms: u64,
    /// The reveal that its randomness is drawn from.
    pub randomness: Hash32,
}

/// A transaction as the kernel runs it.
#[derive(Debug, PartialEq, Eq)]
pub struct BatchTx {
    /// The transaction.
    pub tx: TxHash,
    /// The effects it declares.
    pub declared: Vec<Effect>,
    /// The cells that its subintents nullify.
    pub nullifiers: Vec<SubstateKey>,
    /// Its clock, in milliseconds.
    pub clock_ms: u64,
    /// The reveal that its randomness is drawn from.
    pub randomness: Hash32,
}

/// A transaction that crosses shards, with what the others provisioned for it.
pub struct CrossShardTxInput {
    /// The transaction.
    pub transaction: BatchInput,
    /// What other shards provisioned.
    pub provisions: Vec<Vec<SubstateEntry>>,
    /// Its clock, in milliseconds.
    pub clock_ms: u64,
    /// The reveal of the block that it committed in on its payer's shard.
    pub randomness: Hash32,
}

/// A subintent as admission records it.
#[derive(Clone, Copy, Debug, PartialEq, Eq)]
pub struct SubintentRecord {
    /// The hash of its declaration.
    pub subintent: [u8; 32],
    /// The cell that marks it as spent.
    pub nullifier: SubstateKey,
}

/// How an envelope's tree fares with the effect vocabulary.
#[derive(Debug, PartialEq, Eq)]
pub enum TreeFate {
    /// It is not admitted.
    NotAdmitted(String),
    /// It does not route.
    NotRouted(String),
    /// Its effects do not unite.
    Clashing(String),
    /// It is admitted and routed.
    Routed {
        /// The nodes that it calls, flattened.
        manifest: Vec<ManifestNode>,
        /// The effects it declares, shard by shard.
        per_shard: Vec<Vec<Effect>>,
        /// Its subintents.
        subintents: Vec<SubintentRecord>,
    },
}

/// The effects of all shards, one shard after the other.
pub open spec fn united(per_shard: Seq<Vec<Effect>>) -> Seq<Effect>
    decreases per_shard.len(),
{
    if per_shard.len() == 0 {
        Seq::empty()
    } else {
        united(per_shard.drop_last()) + per_shard.last()@
    }
}

fn unite(per_shard: &Vec<Vec<Effect>>) -> (all: Vec<Effect>)
    ensures
        all@ == united(per_shard@),
{
    let mut all: Vec<Effect> = Vec::new();
    let mut i: usize = 0;
    assert(per_shard@.take(0) =~= Seq::empty());
    while i < per_shard.len()
        invariant
            i <= per_shard@.len(),
            all@ == united(per_shard@.take(i as int)),
        decreases per_shard@.len() - i,
    {
        assert(per_shard@.take(i + 1).drop_last() =~= per_shard@.take(i as int));
        let ghost before = all@;
        all.extend_from_slice(per_shard[i].as_slice());
        assert(all@ =~= before + per_shard@[i as int]@);
        i = i + 1;
    }
    assert(per_shard@.take(i as int) =~= per_shard@);
    all
}

fn nullifiers_of(subintents: &Vec<SubintentRecord>) -> (list: Vec<SubstateKey>)
    ensures
        list@ == subintents@.map_values(|r: SubintentRecord| r.nullifier),
{
    let mut list: Vec<SubstateKey> = Vec::new();
    let mut i: usize = 0;
    while i < subintents.len()
        invariant
            i <= subintents@.len(),
            list@ =~= subintents@.take(i as int).map_values(|r: SubintentRecord| r.nullifier),
        decreases subintents@.len() - i,
    {
        list.push(subintents[i].nullifier);
        i = i + 1;
    }
    assert(subintents@.take(i as int) =~= subintents@);
    list
}

/// What derivation makes of a transaction.
#[verifier::ext_equal]
pub ghost struct PreparedView {
    /// The nodes that it calls.
    pub manifest: Seq<ManifestNode>,
    /// The effects it declares.
    pub declared: Seq<Effect>,
    /// The cells that its subintents nullify.
    pub nullifiers: Seq<SubstateKey>,
    /// The cell that it files a package in, and the package's artifact.
    pub deploys: Option<(SubstateKey, Seq<u8>)>,
}

/// What a prepared transaction holds.
pub open spec fn prepared_view(p: PreparedTx) -> PreparedView {
    PreparedView {
        manifest: p.manifest@,
        declared: p.declared@,
        nullifiers: p.nullifiers@,
        deploys: match p.deploys {
            Some(d) => Some((d.cell, d.artifact@)),
            None => None,
        },
    }
}

/// What prepared transactions hold.
pub open spec fn prepared_views(m: Map<TxHash, PreparedTx>) -> Map<TxHash, PreparedView> {
    m.map_values(|p: PreparedTx| prepared_view(p))
}

/// The effects that a publish declares: its package's cell and its payer's
/// vault, each exclusively.
pub open spec fn deployment_effects(d: Deployment, vault: Option<SubstateKey>) -> Seq<Effect> {
    let cell = seq![Effect { target: EffectTarget::Point(d.cell), mode: Mode::Write }];
    match vault {
        Some(v) => cell.push(Effect { target: EffectTarget::Point(v), mode: Mode::Write }),
        None => cell,
    }
}

/// The bytes read as no envelope tree.
pub open spec fn reads_as_none(bytes: Seq<u8>) -> bool {
    forall|tree: EnvelopeTree| !#[trigger] is_read_as(bytes, tree)
}

/// What derivation makes of a transaction; nothing, where it is refused. A
/// publish goes by its artifact alone, whatever the fate says.
pub open spec fn derived(tx: BatchInput, fate: TreeFate, lim: MetadataLimits) -> Option<
    PreparedView,
> {
    match tx.vm {
        None => None,
        Some(vm) => match vm.body {
            InputBody::Publish(d) => if vm.snapshot_pins@.len() == 0 && package_admits(
                d.artifact@,
                lim,
            ) {
                Some(
                    PreparedView {
                        manifest: Seq::empty(),
                        declared: deployment_effects(d, vm.fee_vault),
                        nullifiers: Seq::empty(),
                        deploys: Some((d.cell, d.artifact@)),
                    },
                )
            } else {
                None
            },
            InputBody::Call(tree) => match fate {
                TreeFate::Routed { manifest, per_shard, subintents } => if reads_as_none(tree@) {
                    None
                } else {
                    Some(
                        PreparedView {
                            manifest: manifest@,
                            declared: united(per_shard@),
                            nullifiers: subintents@.map_values(|r: SubintentRecord| r.nullifier),
                            deploys: None,
                        },
                    )
                },
                _ => None,
            },
        },
    }
}

/// The text says why derivation refuses a transaction: a body that is no
/// envelope, a tree that does not decode, the stage that turned it away, or an
/// artifact that is no package.
pub open spec fn refuses_as(
    tx: BatchInput,
    fate: TreeFate,
    lim: MetadataLimits,
    text: Seq<char>,
) -> bool {
    match tx.vm {
        None => text == "Radix body in a VM sub-batch"@,
        Some(vm) => match vm.body {
            InputBody::Publish(d) => if vm.snapshot_pins@.len() > 0 {
                text == VmStaticsError::PublishExtras.says(lim)
            } else {
                exists|e: VmStaticsError| #[trigger]
                    package_refused_as(d.artifact@, lim, e) && text == e.says(lim)
            },
            InputBody::Call(tree) => if reads_as_none(tree@) {
                text == "tree decode: "@ + unread(tree@, TREE_DEPTH as int)
            } else {
                match fate {
                    TreeFate::NotAdmitted(e) => text == "admission: "@ + e@,
                    TreeFate::NotRouted(e) => text == "routing: "@ + e@,
                    TreeFate::Clashing(e) => text == "effect set: "@ + e@,
                    TreeFate::Routed { .. } => false,
                }
            },
        },
    }
}

fn copy_deployment(d: &Deployment) -> (c: Deployment)
    ensures
        c.cell == d.cell,
        c.artifact@ == d.artifact@,
{
    Deployment { cell: d.cell, artifact: copy_bytes(&d.artifact) }
}

/// Derives a publish: its artifact is a package, and it declares its package's
/// cell and its payer's vault.
fn prepare_publish(vm: &VmInput, d: &Deployment, lim: &MetadataLimits) -> (r: Result<
    PreparedTx,
    VmStaticsError,
>)
    requires
        lim.wf(),
    ensures
        match r {
            Ok(p) => vm.snapshot_pins@.len() == 0 && package_admits(d.artifact@, *lim)
                && prepared_view(p) == (PreparedView {
                manifest: Seq::empty(),
                declared: deployment_effects(*d, vm.fee_vault),
                nullifiers: Seq::empty(),
                deploys: Some((d.cell, d.artifact@)),
            }),
            Err(e) => if vm.snapshot_pins@.len() > 0 {
                e is PublishExtras
            } else {
                package_refused_as(d.artifact@, *lim, e) && !package_admits(d.artifact@, *lim)
            },
        },
{
    if vm.snapshot_pins.len() > 0 {
        return Err(VmStaticsError::PublishExtras);
    }
    match admit_package(d.artifact.as_slice(), lim) {
        Err(e) => {
            return Err(e);
        },
        Ok(m) => {
            assert(backs(d.artifact@, m, *lim));
        },
    }
    let mut declared: Vec<Effect> = Vec::new();
    declared.push(Effect { target: EffectTarget::Point(d.cell), mode: Mode::Write });
    if let Some(vault) = vm.fee_vault {
        declared.push(Effect { target: EffectTarget::Point(vault), mode: Mode::Write });
    }
    assert(declared@ =~= deployment_effects(*d, vm.fee_vault));
    let p = PreparedTx {
        manifest: Vec::new(),
        declared,
        nullifiers: Vec::new(),
        deploys: Some(copy_deployment(d)),
    };
    assert(p.manifest@ =~= Seq::empty());
    assert(p.nullifiers@ =~= Seq::empty());
    Ok(p)
}

/// Derives a transaction from its envelope and how its tree fares, or says why
/// it is refused.
pub fn prepare(tx: &BatchInput, fate: TreeFate, lim: &MetadataLimits) -> (r: Result<
    PreparedTx,
    String,
>)
    requires
        lim.wf(),
    ensures
        match r {
            Ok(p) => derived(*tx, fate, *lim) == Some(prepared_view(p)),
            Err(text) => derived(*tx, fate, *lim) is None && refuses_as(*tx, fate, *lim, text@),
        },
{
    let vm = match &tx.vm {
        Some(vm) => vm,
        None => return Err("Radix body in a VM sub-batch".to_string()),
    };
    let tree = match &vm.body {
        InputBody::Publish(d) => {
            return match prepare_publish(vm, d, lim) {
                Ok(p) => Ok(p),
                Err(e) => Err(e.text(lim)),
            };
        },
        InputBody::Call(tree) => tree,
    };
    match decode_tree(tree.as_slice()) {
        Ok(read) => {
            assert(is_read_as(tree@, read));
        },
        Err(e) => return Err(e.text(lim)),
    }
    match fate {
        TreeFate::NotAdmitted(e) => Err(join("admission: ", e.as_str())),
        TreeFate::NotRouted(e) => Err(join("routing: ", e.as_str())),
        TreeFate::Clashing(e) => Err(join("effect set: ", e.as_str())),
        TreeFate::Routed { manifest, per_shard, subintents } => {
            let declared = unite(&per_shard);
            let nullifiers = nullifiers_of(&subintents);
            Ok(PreparedTx { manifest, declared, nullifiers, deploys: None })
        },
    }
}

/// The transactions that run, each with the last that derivation made of it.
pub open spec fn prepared_of(
    transactions: Seq<BatchInput>,
    fates: Seq<TreeFate>,
    lim: MetadataLimits,
    n: nat,
) -> Map<TxHash, PreparedView>
    decreases n,
{
    if n == 0 {
        Map::empty()
    } else {
        let before = prepared_of(transactions, fates, lim, (n - 1) as nat);
        match derived(transactions[n - 1], fates[n - 1], lim) {
            Some(p) => before.insert(transactions[n - 1].tx, p),
            None => before,
        }
    }
}

/// Only transactions of the batch run.
proof fn lemma_prepared_listed(
    transactions: Seq<BatchInput>,
    fates: Seq<TreeFate>,
    lim: MetadataLimits,
    n: nat,
)
    requires
        n <= transactions.len(),
    ensures
        forall|t: TxHash| #[trigger]
            prepared_of(transactions, fates, lim, n).contains_key(t) ==> is_listed(transactions, t),
    decreases n,
{
    if n > 0 {
        lemma_prepared_listed(transactions, fates, lim, (n - 1) as nat);
        assert(is_listed(transactions, transactions[n - 1].tx));
        assert forall|t: TxHash| #[trigger]
            prepared_of(transactions, fates, lim, n).contains_key(t) implies is_listed(
            transactions,
            t,
        ) by {
            if t != transactions[n - 1].tx {
                assert(prepared_of(transactions, fates, lim, (n - 1) as nat).contains_key(t));
            }
        }
    }
}

/// The transaction at a position is refused.
pub open spec fn refused_at(
    transactions: Seq<BatchInput>,
    fates: Seq<TreeFate>,
    lim: MetadataLimits,
    i: int,
) -> bool {
    derived(transactions[i], fates[i], lim) is None
}

/// Of the first `n` mentions, this is the last at which a transaction is
/// refused.
pub open spec fn last_refused(
    transactions: Seq<BatchInput>,
    fates: Seq<TreeFate>,
    lim: MetadataLimits,
    n: nat,
    t: TxHash,
    i: int,
) -> bool {
    &&& 0 <= i < n
    &&& transactions[i].tx == t
    &&& refused_at(transactions, fates, lim, i)
    &&& forall|j: int|
        i < j < n && transactions[j].tx == t ==> !#[trigger] refused_at(
            transactions,
            fates,
            lim,
            j,
        )
}

/// The map holds the refused among the first `n` transactions, each with the
/// last reason given.
pub open spec fn are_refused(
    refused: Map<TxHash, Seq<char>>,
    transactions: Seq<BatchInput>,
    fates: Seq<TreeFate>,
    lim: MetadataLimits,
    n: nat,
) -> bool {
    &&& forall|i: int|
        0 <= i < n && #[trigger] refused_at(transactions, fates, lim, i) ==> refused.contains_key(
            transactions[i].tx,
        )
    &&& forall|t: TxHash| #[trigger]
        refused.contains_key(t) ==> exists|i: int| #[trigger]
            last_refused(transactions, fates, lim, n, t, i) && refuses_as(
                transactions[i],
                fates[i],
                lim,
                refused[t],
            )
}

/// One transaction more: the map gains the reason, where it is refused.
proof fn lemma_refused_next(
    before: Map<TxHash, Seq<char>>,
    after: Map<TxHash, Seq<char>>,
    transactions: Seq<BatchInput>,
    fates: Seq<TreeFate>,
    lim: MetadataLimits,
    n: nat,
)
    requires
        n < transactions.len(),
        are_refused(before, transactions, fates, lim, n),
        if refused_at(transactions, fates, lim, n as int) {
            after.contains_key(transactions[n as int].tx) && refuses_as(
                transactions[n as int],
                fates[n as int],
                lim,
                after[transactions[n as int].tx],
            ) && after == before.insert(
                transactions[n as int].tx,
                after[transactions[n as int].tx],
            )
        } else {
            after == before
        },
    ensures
        are_refused(after, transactions, fates, lim, n + 1),
{
    let tx = transactions[n as int].tx;
    let hit = refused_at(transactions, fates, lim, n as int);
    assert forall|t: TxHash| #[trigger] after.contains_key(t) implies exists|i: int| #[trigger]
        last_refused(transactions, fates, lim, n + 1, t, i) && refuses_as(
            transactions[i],
            fates[i],
            lim,
            after[t],
        ) by {
        if hit && t == tx {
            assert(last_refused(transactions, fates, lim, n + 1, t, n as int));
        } else {
            assert(before.contains_key(t));
            let i = choose|i: int| #[trigger]
                last_refused(transactions, fates, lim, n, t, i) && refuses_as(
                    transactions[i],
                    fates[i],
                    lim,
                    before[t],
                );
            assert(last_refused(transactions, fates, lim, n + 1, t, i));
        }
    }
}

/// No transaction publishes.
pub open spec fn all_call(transactions: Seq<BatchInput>) -> bool {
    forall|i: int|
        0 <= i < transactions.len() && (#[trigger] transactions[i]).vm is Some
            ==> transactions[i].vm->0.body is Call
}

/// The same transactions are refused, and for the same reasons, where all call.
proof fn lemma_refused_alike(
    a: Map<TxHash, Seq<char>>,
    b: Map<TxHash, Seq<char>>,
    transactions: Seq<BatchInput>,
    fates: Seq<TreeFate>,
    lim: MetadataLimits,
)
    requires
        are_refused(a, transactions, fates, lim, transactions.len()),
        are_refused(b, transactions, fates, lim, transactions.len()),
    ensures
        a.dom() == b.dom(),
        all_call(transactions) ==> a == b,
{
    let n = transactions.len();
    assert forall|t: TxHash| a.contains_key(t) == b.contains_key(t) && (a.contains_key(t)
        && all_call(transactions) ==> a[t] == b[t]) by {
        if a.contains_key(t) {
            let i = choose|i: int| #[trigger]
                last_refused(transactions, fates, lim, n, t, i) && refuses_as(
                    transactions[i],
                    fates[i],
                    lim,
                    a[t],
                );
            assert(refused_at(transactions, fates, lim, i));
            assert(b.contains_key(t));
            let j = choose|j: int| #[trigger]
                last_refused(transactions, fates, lim, n, t, j) && refuses_as(
                    transactions[j],
                    fates[j],
                    lim,
                    b[t],
                );
            assert(refused_at(transactions, fates, lim, j));
            assert(i == j);
        } else if b.contains_key(t) {
            let j = choose|j: int| #[trigger]
                last_refused(transactions, fates, lim, n, t, j) && refuses_as(
                    transactions[j],
                    fates[j],
                    lim,
                    b[t],
                );
            assert(refused_at(transactions, fates, lim, j));
        }
    }
    assert(a.dom() =~= b.dom());
    if all_call(transactions) {
        assert(a =~= b);
    }
}

/// What each text says.
pub open spec fn texts(m: Map<TxHash, String>) -> Map<TxHash, Seq<char>> {
    m.map_values(|s: String| s@)
}

/// Parts the transactions that run from those that are refused.
pub fn sort_prepared(
    transactions: &Vec<BatchInput>,
    fates: Vec<TreeFate>,
    lim: &MetadataLimits,
) -> (r: (SortedMap<TxHash, PreparedTx>, SortedMap<TxHash, String>))
    requires
        fates@.len() == transactions@.len(),
        lim.wf(),
    ensures
        prepared_views(r.0@) == prepared_of(transactions@, fates@, *lim, transactions@.len()),
        are_refused(texts(r.1@), transactions@, fates@, *lim, transactions@.len()),
{
    let ghost all = fates@;
    let mut rest = reversed(fates);
    let mut prepared: SortedMap<TxHash, PreparedTx> = SortedMap::new();
    let mut refused: SortedMap<TxHash, String> = SortedMap::new();
    assert(prepared_views(prepared@) =~= Map::<TxHash, PreparedView>::empty());
    assert(texts(refused@) =~= Map::<TxHash, Seq<char>>::empty());
    let mut i: usize = 0;
    while i < transactions.len()
        invariant
            i <= transactions@.len(),
            transactions@.len() == all.len(),
            rest@.len() == all.len() - i,
            forall|j: int|
                0 <= j < rest@.len() ==> #[trigger] rest@[j] == all[all.len() - 1 - j],
            lim.wf(),
            prepared_views(prepared@) == prepared_of(transactions@, all, *lim, i as nat),
            are_refused(texts(refused@), transactions@, all, *lim, i as nat),
        decreases transactions@.len() - i,
    {
        match rest.pop() {
            Some(fate) => {
                assert(fate == all[i as int]);
                let tx = transactions[i].tx;
                let ghost said = texts(refused@);
                match prepare(&transactions[i], fate, lim) {
                    Ok(p) => {
                        let ghost before = prepared@;
                        prepared.insert(tx, p);
                        assert(prepared_views(prepared@) =~= prepared_views(before).insert(
                            tx,
                            prepared_view(p),
                        ));
                    },
                    Err(reason) => {
                        let ghost before = refused@;
                        refused.insert(tx, reason);
                        assert(texts(refused@) =~= texts(before).insert(tx, reason@));
                        assert(texts(refused@)[tx] == reason@);
                    },
                }
                proof {
                    lemma_refused_next(said, texts(refused@), transactions@, all, *lim, i as nat);
                }
            },
            None => {},
        }
        i = i + 1;
    }
    (prepared, refused)
}

/// The transaction is one of the batch.
pub open spec fn is_listed(transactions: Seq<BatchInput>, t: TxHash) -> bool {
    exists|i: int| 0 <= i < transactions.len() && #[trigger] transactions[i].tx == t
}

/// Every transaction of the batch has an anchor.
pub open spec fn all_anchored(
    transactions: Seq<BatchInput>,
    anchors: Map<TxHash, TxAnchor>,
) -> bool {
    forall|t: TxHash| #[trigger] is_listed(transactions, t) ==> anchors.contains_key(t)
}

/// The transaction runs what was prepared of it, under its anchor.
pub open spec fn runs(b: BatchTx, tx: TxHash, p: PreparedTx, anchor: TxAnchor) -> bool {
    &&& b.tx == tx
    &&& b.declared@ == p.declared@
    &&& b.nullifiers@ == p.nullifiers@
    &&& b.clock_ms == anchor.clock_ms
    &&& b.randomness == anchor.randomness
}

fn copy_prepared(tx: TxHash, p: &PreparedTx, anchor: TxAnchor) -> (b: BatchTx)
    ensures
        runs(b, tx, *p, anchor),
{
    let mut declared: Vec<Effect> = Vec::new();
    declared.extend_from_slice(p.declared.as_slice());
    assert(declared@ =~= p.declared@);
    let mut nullifiers: Vec<SubstateKey> = Vec::new();
    nullifiers.extend_from_slice(p.nullifiers.as_slice());
    assert(nullifiers@ =~= p.nullifiers@);
    BatchTx {
        tx,
        declared,
        nullifiers,
        clock_ms: anchor.clock_ms,
        randomness: anchor.randomness,
    }
}

/// What the kernel is to run, by ascending transaction.
pub fn batch_of(
    prepared: &SortedMap<TxHash, PreparedTx>,
    anchors: &SortedMap<TxHash, TxAnchor>,
) -> (b: Vec<BatchTx>)
    requires
        forall|t: TxHash| #[trigger] prepared@.contains_key(t) ==> anchors@.contains_key(t),
    ensures
        strictly_sorted(prepared.order()),
        prepared@.dom() == prepared.order().to_set(),
        b@.len() == prepared.order().len(),
        forall|i: int|
            0 <= i < b@.len() ==> runs(
                #[trigger] b@[i],
                prepared.order()[i],
                prepared@[prepared.order()[i]],
                anchors@[prepared.order()[i]],
            ),
{
    let count: usize = prepared.len();
    let mut b: Vec<BatchTx> = Vec::new();
    let mut i: usize = 0;
    while i < count
        invariant
            i <= count,
            count == prepared.order().len(),
            prepared@.dom() == prepared.order().to_set(),
            forall|t: TxHash| #[trigger] prepared@.contains_key(t) ==> anchors@.contains_key(t),
            b@.len() == i,
            forall|j: int|
                0 <= j < i ==> runs(
                    #[trigger] b@[j],
                    prepared.order()[j],
                    prepared@[prepared.order()[j]],
                    anchors@[prepared.order()[j]],
                ),
        decreases count - i,
    {
        let tx = prepared.key_at(i);
        assert(prepared.order().to_set().contains(prepared.order()[i as int]));
        assert(prepared@.contains_key(tx));
        match anchors.get(&tx) {
            Some(anchor) => b.push(copy_prepared(tx, prepared.value_at(i), *anchor)),
            None => {
                assert(false);
            },
        }
        i = i + 1;
    }
    b
}

/// What a batch needs before the kernel runs it.
pub struct BatchPlan {
    /// The transactions that run.
    pub prepared: SortedMap<TxHash, PreparedTx>,
    /// Those that are refused, each with the reason.
    pub refused: SortedMap<TxHash, String>,
    /// The cells to start from.
    pub base: VmBase,
    /// What the kernel is to run.
    pub batch: Vec<BatchTx>,
    /// The payers that the shard settles.
    pub fees: SortedMap<TxHash, PayerFee>,
}

impl BatchPlan {
    /// The plan of a batch.
    pub open spec fn plans<S: SubstateDatabase>(
        &self,
        transactions: Seq<BatchInput>,
        fates: Seq<TreeFate>,
        provided: Map<SubstateKey, Seq<u8>>,
        anchors: Map<TxHash, TxAnchor>,
        lim: MetadataLimits,
        locality: Locality,
        snapshot: S,
    ) -> bool {
        let local = |o: [u8; 16]| locality.local(o);
        &&& prepared_views(self.prepared@) == prepared_of(
            transactions,
            fates,
            lim,
            transactions.len(),
        )
        &&& are_refused(texts(self.refused@), transactions, fates, lim, transactions.len())
        &&& self.base@ == with_all_pins(
            with_local(provided, self.prepared@, local, snapshot),
            transactions,
        )
        &&& strictly_sorted(self.prepared.order())
        &&& self.prepared@.dom() == self.prepared.order().to_set()
        &&& self.batch@.len() == self.prepared.order().len()
        &&& forall|i: int|
            0 <= i < self.batch@.len() ==> runs(
                #[trigger] self.batch@[i],
                self.prepared.order()[i],
                self.prepared@[self.prepared.order()[i]],
                anchors[self.prepared.order()[i]],
            )
        &&& self.fees@ == payers_of(transactions, locality.cross_shard, local)
    }
}

fn plan_batch<S: SubstateDatabase>(
    transactions: &Vec<BatchInput>,
    fates: Vec<TreeFate>,
    provisions: &SortedMap<TxHash, Vec<Vec<SubstateEntry>>>,
    anchors: &SortedMap<TxHash, TxAnchor>,
    lim: &MetadataLimits,
    locality: &Locality,
    snapshot: &S,
) -> (plan: BatchPlan)
    requires
        fates@.len() == transactions@.len(),
        lim.wf(),
        locality.trie.wf(),
        all_anchored(transactions@, anchors@),
    ensures
        plan.plans(
            transactions@,
            fates@,
            provisioned(provisions.order(), provisions@),
            anchors@,
            *lim,
            *locality,
            *snapshot,
        ),
        strictly_sorted(provisions.order()),
        provisions@.dom() == provisions.order().to_set(),
{
    let ghost all = fates@;
    let (prepared, refused) = sort_prepared(transactions, fates, lim);
    let base = committed_base(transactions, &prepared, provisions, locality, snapshot);
    proof {
        lemma_prepared_listed(transactions@, all, *lim, transactions@.len());
        assert forall|t: TxHash| #[trigger] prepared@.contains_key(t) implies anchors@.contains_key(
            t,
        ) by {
            assert(prepared_views(prepared@).contains_key(t));
        }
    }
    let batch = batch_of(&prepared, anchors);
    let fees = fee_payers(transactions, locality);
    BatchPlan { prepared, refused, base, batch, fees }
}

/// Every transaction of a batch, under one anchor.
pub open spec fn one_anchor(transactions: Seq<BatchInput>, anchor: TxAnchor) -> Map<
    TxHash,
    TxAnchor,
> {
    Map::new(|t: TxHash| is_listed(transactions, t), |t: TxHash| anchor)
}

/// Plans a batch that stays on one shard: it commits in one block, so every
/// clock is the wave's start, every draw is from that block's reveal, nothing
/// is provisioned and every owner is local.
pub fn plan_wave_batch<S: SubstateDatabase>(
    transactions: &Vec<BatchInput>,
    fates: Vec<TreeFate>,
    wave_start_ms: u64,
    wave_start_reveal: Hash32,
    lim: &MetadataLimits,
    locality: &Locality,
    snapshot: &S,
) -> (plan: BatchPlan)
    requires
        fates@.len() == transactions@.len(),
        lim.wf(),
        locality.trie.wf(),
        !locality.cross_shard,
    ensures
        plan.plans(
            transactions@,
            fates@,
            Map::empty(),
            one_anchor(
                transactions@,
                TxAnchor { clock_ms: wave_start_ms, randomness: wave_start_reveal },
            ),
            *lim,
            *locality,
            *snapshot,
        ),
{
    let anchor = TxAnchor { clock_ms: wave_start_ms, randomness: wave_start_reveal };
    let mut anchors: SortedMap<TxHash, TxAnchor> = SortedMap::new();
    let mut i: usize = 0;
    assert(anchors@ =~= one_anchor(transactions@.take(0), anchor));
    while i < transactions.len()
        invariant
            i <= transactions@.len(),
            anchors@ == one_anchor(transactions@.take(i as int), anchor),
        decreases transactions@.len() - i,
    {
        let ghost before = anchors@;
        let tx = transactions[i].tx;
        anchors.insert(tx, anchor);
        proof {
            let now = transactions@.take(i as int);
            let next = transactions@.take(i + 1);
            assert forall|t: TxHash| is_listed(next, t) == (is_listed(now, t) || t == tx) by {
                if is_listed(now, t) {
                    let j = choose|j: int| 0 <= j < now.len() && #[trigger] now[j].tx == t;
                    assert(next[j].tx == t);
                }
                if t == tx {
                    assert(next[i as int].tx == t);
                }
                if is_listed(next, t) && t != tx {
                    let j = choose|j: int| 0 <= j < next.len() && #[trigger] next[j].tx == t;
                    assert(now[j].tx == t);
                }
            }
            assert(anchors@ =~= one_anchor(next, anchor));
        }
        i = i + 1;
    }
    assert(transactions@.take(transactions@.len() as int) =~= transactions@);
    let provisions: SortedMap<TxHash, Vec<Vec<SubstateEntry>>> = SortedMap::new();
    plan_batch(transactions, fates, &provisions, &anchors, lim, locality, snapshot)
}

/// The anchors of requests; of two for one transaction the later counts.
pub open spec fn request_anchors(requests: Seq<CrossShardTxInput>, n: nat) -> Map<TxHash, TxAnchor>
    decreases n,
{
    if n == 0 {
        Map::empty()
    } else {
        request_anchors(requests, (n - 1) as nat).insert(
            requests[n - 1].transaction.tx,
            TxAnchor {
                clock_ms: requests[n - 1].clock_ms,
                randomness: requests[n - 1].randomness,
            },
        )
    }
}

proof fn lemma_requests_anchored(requests: Seq<CrossShardTxInput>, n: nat, i: int)
    requires
        0 <= i < n <= requests.len(),
    ensures
        request_anchors(requests, n).contains_key(requests[i].transaction.tx),
    decreases n,
{
    if i < n - 1 {
        lemma_requests_anchored(requests, (n - 1) as nat, i);
    }
}

/// What was provisioned by request; of two for one transaction the later
/// counts.
pub open spec fn request_provisions(requests: Seq<CrossShardTxInput>, n: nat) -> Map<
    TxHash,
    Vec<Vec<SubstateEntry>>,
>
    decreases n,
{
    if n == 0 {
        Map::empty()
    } else {
        request_provisions(requests, (n - 1) as nat).insert(
            requests[n - 1].transaction.tx,
            requests[n - 1].provisions,
        )
    }
}

/// The transactions of requests.
pub open spec fn request_txs(requests: Seq<CrossShardTxInput>) -> Seq<BatchInput> {
    requests.map_values(|r: CrossShardTxInput| r.transaction)
}

/// The cells that requests come with, laid down by ascending transaction.
pub open spec fn request_cells(requests: Seq<CrossShardTxInput>, order: Seq<TxHash>) -> Map<
    SubstateKey,
    Seq<u8>,
> {
    provisioned(order, request_provisions(requests, requests.len()))
}

/// The transactions that provisions are for, ascending.
pub open spec fn is_request_order(requests: Seq<CrossShardTxInput>, order: Seq<TxHash>) -> bool {
    strictly_sorted(order) && order.to_set() == request_provisions(
        requests,
        requests.len(),
    ).dom()
}

/// Plans a batch that crosses shards: each transaction runs under its own
/// anchor, over what other shards provisioned for it, and only local owners are read.
pub fn plan_cross_shard_batch<S: SubstateDatabase>(
    requests: Vec<CrossShardTxInput>,
    fates: Vec<TreeFate>,
    lim: &MetadataLimits,
    locality: &Locality,
    snapshot: &S,
) -> (r: (Vec<BatchInput>, BatchPlan))
    requires
        fates@.len() == requests@.len(),
        lim.wf(),
        locality.trie.wf(),
        locality.cross_shard,
    ensures
        r.0@ == request_txs(requests@),
        exists|order: Seq<TxHash>| #[trigger]
            is_request_order(requests@, order) && r.1.plans(
                request_txs(requests@),
                fates@,
                request_cells(requests@, order),
                request_anchors(requests@, requests@.len()),
                *lim,
                *locality,
                *snapshot,
            ),
{
    let ghost all = requests@;
    let mut back = reversed(requests);
    let mut transactions: Vec<BatchInput> = Vec::new();
    let mut anchors: SortedMap<TxHash, TxAnchor> = SortedMap::new();
    let mut provisions: SortedMap<TxHash, Vec<Vec<SubstateEntry>>> = SortedMap::new();
    while back.len() > 0
        invariant
            back@.len() + transactions@.len() == all.len(),
            forall|j: int|
                0 <= j < back@.len() ==> #[trigger] back@[j] == all[all.len() - 1 - j],
            transactions@ =~= request_txs(all).take(transactions@.len() as int),
            anchors@ == request_anchors(all, transactions@.len()),
            provisions@ == request_provisions(all, transactions@.len()),
        decreases back@.len(),
    {
        match back.pop() {
            Some(request) => {
                assert(request == all[transactions@.len() as int]);
                anchors.insert(
                    request.transaction.tx,
                    TxAnchor { clock_ms: request.clock_ms, randomness: request.randomness },
                );
                provisions.insert(request.transaction.tx, request.provisions);
                transactions.push(request.transaction);
            },
            None => {},
        }
    }
    assert(transactions@ =~= request_txs(all));
    proof {
        assert forall|t: TxHash| #[trigger] is_listed(transactions@, t) implies anchors@.contains_key(
            t,
        ) by {
            let j = choose|j: int|
                0 <= j < transactions@.len() && #[trigger] transactions@[j].tx == t;
            lemma_requests_anchored(all, all.len(), j);
            assert(transactions@[j] == all[j].transaction);
        }
    }
    let plan = plan_batch(&transactions, fates, &provisions, &anchors, lim, locality, snapshot);
    assert(is_request_order(all, provisions.order()));
    (transactions, plan)
}

/// Two transactions that the kernel is to run are alike.
pub open spec fn same_run(a: BatchTx, b: BatchTx) -> bool {
    &&& a.tx == b.tx
    &&& a.declared@ == b.declared@
    &&& a.nullifiers@ == b.nullifiers@
    &&& a.clock_ms == b.clock_ms
    &&& a.randomness == b.randomness
}

/// In a wave every draw is from the reveal of the block that started it, and
/// every clock is that block's.
pub proof fn law_reveal_anchors_the_wave<S: SubstateDatabase>(
    plan: BatchPlan,
    transactions: Seq<BatchInput>,
    fates: Seq<TreeFate>,
    anchor: TxAnchor,
    lim: MetadataLimits,
    locality: Locality,
    snapshot: S,
    i: int,
)
    requires
        plan.plans(
            transactions,
            fates,
            Map::empty(),
            one_anchor(transactions, anchor),
            lim,
            locality,
            snapshot,
        ),
        0 <= i < plan.batch@.len(),
    ensures
        plan.batch@[i].randomness == anchor.randomness,
        plan.batch@[i].clock_ms == anchor.clock_ms,
{
    lemma_prepared_listed(transactions, fates, lim, transactions.len());
    let tx = plan.prepared.order()[i];
    assert(plan.prepared.order().to_set().contains(tx));
    assert(prepared_views(plan.prepared@).contains_key(tx));
    assert(is_listed(transactions, tx));
}

/// Prepared transactions that hold the same declare the same cells.
proof fn lemma_declared_alike(a: Map<TxHash, PreparedTx>, b: Map<TxHash, PreparedTx>)
    requires
        prepared_views(a) == prepared_views(b),
    ensures
        forall|key: SubstateKey| #[trigger] is_declared(a, key) ==> is_declared(b, key),
{
    assert forall|key: SubstateKey| #[trigger] is_declared(a, key) implies is_declared(b, key) by {
        let tx = choose|tx: TxHash| #[trigger] a.contains_key(tx) && declares(a[tx], key);
        let i = choose|i: int|
            0 <= i < a[tx].declared@.len() && #[trigger] a[tx].declared@[i].target
                == EffectTarget::Point(key);
        assert(prepared_views(a).contains_key(tx));
        assert(prepared_views(b).contains_key(tx));
        assert(prepared_views(a)[tx].declared == prepared_views(b)[tx].declared);
        assert(b[tx].declared@[i].target == EffectTarget::Point(key));
        assert(declares(b[tx], key));
        assert(b.contains_key(tx));
    }
}

/// The anchors, and not who executes, decide what the kernel is handed: two
/// plans of the same transactions under the same anchors run the same,
/// from the same cells, and charge the same.
pub proof fn law_anchors_fix_the_batch<S: SubstateDatabase>(
    mine: BatchPlan,
    yours: BatchPlan,
    transactions: Seq<BatchInput>,
    fates: Seq<TreeFate>,
    provided: Map<SubstateKey, Seq<u8>>,
    anchors: Map<TxHash, TxAnchor>,
    lim: MetadataLimits,
    locality: Locality,
    snapshot: S,
)
    requires
        mine.plans(transactions, fates, provided, anchors, lim, locality, snapshot),
        yours.plans(transactions, fates, provided, anchors, lim, locality, snapshot),
    ensures
        mine.batch@.len() == yours.batch@.len(),
        forall|i: int|
            0 <= i < mine.batch@.len() ==> same_run(#[trigger] mine.batch@[i], yours.batch@[i]),
        mine.base@ == yours.base@,
        mine.fees@ == yours.fees@,
        mine.refused@.dom() == yours.refused@.dom(),
        all_call(transactions) ==> texts(mine.refused@) == texts(yours.refused@),
{
    lemma_refused_alike(
        texts(mine.refused@),
        texts(yours.refused@),
        transactions,
        fates,
        lim,
    );
    assert(texts(mine.refused@).dom() =~= mine.refused@.dom());
    assert(texts(yours.refused@).dom() =~= yours.refused@.dom());
    let a = mine.prepared;
    let b = yours.prepared;
    assert(prepared_views(a@).dom() =~= a@.dom());
    assert(prepared_views(b@).dom() =~= b@.dom());
    lemma_sorted_unique(a.order(), b.order());
    lemma_declared_alike(a@, b@);
    lemma_declared_alike(b@, a@);
    let local = |o: [u8; 16]| locality.local(o);
    assert(with_local(provided, a@, local, snapshot) =~= with_local(provided, b@, local, snapshot));
    assert forall|i: int| 0 <= i < mine.batch@.len() implies same_run(
        #[trigger] mine.batch@[i],
        yours.batch@[i],
    ) by {
        let tx = a.order()[i];
        assert(a.order().to_set().contains(tx));
        assert(prepared_views(a@)[tx] == prepared_view(a@[tx]));
        assert(prepared_views(b@)[tx] == prepared_view(b@[tx]));
        assert(runs(mine.batch@[i], tx, a@[tx], anchors[tx]));
        assert(runs(yours.batch@[i], tx, b@[tx], anchors[tx]));
    }
}

/// A transaction declares the effects of every shard, none left out, each shard's
/// behind the last one's.
pub proof fn law_every_shards_effects_are_declared(per_shard: Seq<Vec<Effect>>)
    ensures
        united(per_shard) == per_shard.map_values(|v: Vec<Effect>| v@).flatten(),
    decreases per_shard.len(),
{
    let lists = per_shard.map_values(|v: Vec<Effect>| v@);
    lists.lemma_flatten_and_flatten_alt_are_equivalent();
    if per_shard.len() > 0 {
        let t = per_shard.drop_last();
        law_every_shards_effects_are_declared(t);
        let before = t.map_values(|v: Vec<Effect>| v@);
        before.lemma_flatten_and_flatten_alt_are_equivalent();
        assert(lists.drop_last() =~= before);
    }
}

/// A publish holds its package's cell and its payer's vault, where it has one,
/// for itself, and touches nothing else.
pub proof fn law_a_publish_holds_its_cell_and_its_vault(
    d: Deployment,
    vault: Option<SubstateKey>,
    e: Effect,
)
    ensures
        deployment_effects(d, vault).contains(e) <==> e.mode is Write && (e.target
            == EffectTarget::Point(d.cell) || (vault is Some && e.target == EffectTarget::Point(
            vault->0,
        ))),
        deployment_effects(d, vault).len() == if vault is Some {
            2nat
        } else {
            1nat
        },
{
    let all = deployment_effects(d, vault);
    assert(all[0] == Effect { target: EffectTarget::Point(d.cell), mode: Mode::Write });
    if vault is Some {
        assert(all[1] == Effect { target: EffectTarget::Point(vault->0), mode: Mode::Write });
    }
}

/// A transaction runs exactly where its envelope carries a tree that reads, and
/// is admitted, routed and of one mind, or a package that is one and pins
/// nothing. A call runs the nodes and the effects that it was routed to and
/// nullifies each of its subintents; a publish runs no node and nullifies none.
pub proof fn law_what_runs_of_a_transaction(tx: BatchInput, fate: TreeFate, lim: MetadataLimits)
    ensures
        ({
            let p = derived(tx, fate, lim);
            &&& p is Some <==> tx.vm is Some && match tx.vm->0.body {
                InputBody::Call(tree) => fate is Routed && exists|t: EnvelopeTree| #[trigger]
                    is_read_as(tree@, t),
                InputBody::Publish(d) => tx.vm->0.snapshot_pins@.len() == 0 && package_admits(
                    d.artifact@,
                    lim,
                ),
            }
            &&& p is Some && tx.vm->0.body is Call ==> {
                &&& p->0.manifest == fate->manifest@
                &&& p->0.declared == fate->per_shard@.map_values(|v: Vec<Effect>| v@).flatten()
                &&& p->0.nullifiers.len() == fate->subintents@.len()
                &&& forall|i: int|
                    0 <= i < fate->subintents@.len() ==> #[trigger] p->0.nullifiers[i]
                        == fate->subintents@[i].nullifier
                &&& p->0.deploys is None
            }
            &&& p is Some && tx.vm->0.body is Publish ==> {
                &&& p->0.manifest.len() == 0
                &&& p->0.nullifiers.len() == 0
                &&& p->0.deploys == Some(
                    (tx.vm->0.body->Publish_0.cell, tx.vm->0.body->Publish_0.artifact@),
                )
                &&& forall|e: Effect| #[trigger]
                    p->0.declared.contains(e) <==> e.mode is Write && (e.target
                        == EffectTarget::Point(tx.vm->0.body->Publish_0.cell) || (
                    tx.vm->0.fee_vault is Some && e.target == EffectTarget::Point(
                        tx.vm->0.fee_vault->0,
                    )))
            }
        }),
{
    if fate is Routed {
        law_every_shards_effects_are_declared(fate->per_shard@);
    }
    if tx.vm is Some && tx.vm->0.body is Publish {
        let d = tx.vm->0.body->Publish_0;
        assert forall|e: Effect| #[trigger]
            deployment_effects(d, tx.vm->0.fee_vault).contains(e) <==> e.mode is Write && (e.target
                == EffectTarget::Point(d.cell) || (tx.vm->0.fee_vault is Some && e.target
                == EffectTarget::Point(tx.vm->0.fee_vault->0))) by {
            law_a_publish_holds_its_cell_and_its_vault(d, tx.vm->0.fee_vault, e);
        }
    }
}

/// Of a transaction's mentions, a position is the last among the first `n` where
/// something is made of it.
pub open spec fn last_derived(
    transactions: Seq<BatchInput>,
    fates: Seq<TreeFate>,
    lim: MetadataLimits,
    n: nat,
    t: TxHash,
    i: int,
) -> bool {
    &&& 0 <= i < n
    &&& transactions[i].tx == t
    &&& derived(transactions[i], fates[i], lim) is Some
    &&& forall|j: int|
        i < j < n && (#[trigger] transactions[j]).tx == t ==> derived(transactions[j], fates[j], lim)
            is None
}

/// The batch runs every transaction that something is made of, and no other, each
/// with the last that was made of it.
pub proof fn law_every_derived_transaction_runs(
    transactions: Seq<BatchInput>,
    fates: Seq<TreeFate>,
    lim: MetadataLimits,
    n: nat,
    t: TxHash,
)
    requires
        n <= transactions.len(),
    ensures
        prepared_of(transactions, fates, lim, n).contains_key(t) <==> exists|i: int|
            0 <= i < n && (#[trigger] transactions[i]).tx == t && derived(
                transactions[i],
                fates[i],
                lim,
            ) is Some,
        forall|i: int| #[trigger]
            last_derived(transactions, fates, lim, n, t, i) ==> derived(
                transactions[i],
                fates[i],
                lim,
            ) == Some(prepared_of(transactions, fates, lim, n)[t]),
    decreases n,
{
    if n > 0 {
        let p = (n - 1) as nat;
        law_every_derived_transaction_runs(transactions, fates, lim, p, t);
        let here = transactions[p as int].tx == t && derived(
            transactions[p as int],
            fates[p as int],
            lim,
        ) is Some;
        assert forall|i: int| #[trigger]
            last_derived(transactions, fates, lim, n, t, i) implies derived(
            transactions[i],
            fates[i],
            lim,
        ) == Some(prepared_of(transactions, fates, lim, n)[t]) by {
            if here {
                assert(i == p) by {
                    if i < p {
                        assert(transactions[p as int].tx == t);
                    }
                }
            } else {
                assert(last_derived(transactions, fates, lim, p, t, i));
            }
        }
        if prepared_of(transactions, fates, lim, n).contains_key(t) && !here {
            let i = choose|i: int|
                0 <= i < p && (#[trigger] transactions[i]).tx == t && derived(
                    transactions[i],
                    fates[i],
                    lim,
                ) is Some;
            assert(0 <= i < n);
        }
    }
}

/// What a plan hands the kernel: one transaction for each that was prepared, in
/// ascending order, with all that it declares and nullifies, under the clock and
/// the reveal of its own anchor.
pub proof fn law_the_kernel_is_handed_what_was_prepared<S: SubstateDatabase>(
    plan: BatchPlan,
    transactions: Seq<BatchInput>,
    fates: Seq<TreeFate>,
    provided: Map<SubstateKey, Seq<u8>>,
    anchors: Map<TxHash, TxAnchor>,
    lim: MetadataLimits,
    locality: Locality,
    snapshot: S,
)
    requires
        plan.plans(transactions, fates, provided, anchors, lim, locality, snapshot),
    ensures
        forall|t: TxHash| #[trigger]
            plan.prepared@.contains_key(t) <==> exists|i: int|
                0 <= i < plan.batch@.len() && #[trigger] plan.batch@[i].tx == t,
        forall|i: int|
            0 <= i < plan.batch@.len() ==> {
                let b = #[trigger] plan.batch@[i];
                &&& b.declared@ == plan.prepared@[b.tx].declared@
                &&& b.nullifiers@ == plan.prepared@[b.tx].nullifiers@
                &&& b.clock_ms == anchors[b.tx].clock_ms
                &&& b.randomness == anchors[b.tx].randomness
            },
        forall|i: int, j: int|
            0 <= i < j < plan.batch@.len() ==> (#[trigger] plan.batch@[i]).tx.before(
                (#[trigger] plan.batch@[j]).tx,
            ),
{
    let order = plan.prepared.order();
    assert forall|i: int| 0 <= i < plan.batch@.len() implies runs(
        #[trigger] plan.batch@[i],
        order[i],
        plan.prepared@[order[i]],
        anchors[order[i]],
    ) by {}
    assert forall|t: TxHash| #[trigger]
        plan.prepared@.contains_key(t) <==> exists|i: int|
            0 <= i < plan.batch@.len() && #[trigger] plan.batch@[i].tx == t by {
        assert(order.to_set().contains(t) == order.contains(t));
        if plan.prepared@.contains_key(t) {
            let i = choose|i: int| 0 <= i < order.len() && order[i] == t;
            assert(plan.batch@[i].tx == t);
        }
        if exists|i: int| 0 <= i < plan.batch@.len() && #[trigger] plan.batch@[i].tx == t {
            let i = choose|i: int| 0 <= i < plan.batch@.len() && #[trigger] plan.batch@[i].tx == t;
            assert(order[i] == t);
        }
    }
}

/// Of a transaction's requests the last counts: its clock, its reveal and what was
/// provisioned for it. Every requested transaction is in the batch, in the order
/// of the requests.
pub proof fn law_the_last_request_counts(requests: Seq<CrossShardTxInput>, n: nat, t: TxHash)
    requires
        n <= requests.len(),
    ensures
        request_anchors(requests, n).contains_key(t) <==> exists|i: int|
            0 <= i < n && (#[trigger] requests[i]).transaction.tx == t,
        request_provisions(requests, n).dom() == request_anchors(requests, n).dom(),
        forall|i: int|
            0 <= i < n && (#[trigger] requests[i]).transaction.tx == t && (forall|j: int|
                i < j < n ==> (#[trigger] requests[j]).transaction.tx != t) ==> {
                &&& request_anchors(requests, n)[t].clock_ms == requests[i].clock_ms
                &&& request_anchors(requests, n)[t].randomness == requests[i].randomness
                &&& request_provisions(requests, n)[t] == requests[i].provisions
            },
        request_txs(requests).len() == requests.len(),
        forall|i: int|
            0 <= i < requests.len() ==> #[trigger] request_txs(requests)[i]
                == requests[i].transaction,
    decreases n,
{
    if n > 0 {
        let p = (n - 1) as nat;
        law_the_last_request_counts(requests, p, t);
        assert(request_provisions(requests, n).dom() =~= request_anchors(requests, n).dom());
        if request_anchors(requests, n).contains_key(t) && requests[p as int].transaction.tx != t {
            let i = choose|i: int| 0 <= i < p && (#[trigger] requests[i]).transaction.tx == t;
            assert(0 <= i < n);
        }
        assert forall|i: int|
            0 <= i < n && (#[trigger] requests[i]).transaction.tx == t && (forall|j: int|
                i < j < n ==> (#[trigger] requests[j]).transaction.tx != t) implies {
            &&& request_anchors(requests, n)[t].clock_ms == requests[i].clock_ms
            &&& request_anchors(requests, n)[t].randomness == requests[i].randomness
            &&& request_provisions(requests, n)[t] == requests[i].provisions
        } by {
            if i < p {
                assert(requests[p as int].transaction.tx != t);
            }
        }
    } else {
        assert(request_provisions(requests, n).dom() =~= request_anchors(requests, n).dom());
    }
}

/// Why a transaction is refused: it carries no envelope, its tree does not read,
/// or the stage that turned its tree away, with what that stage said behind the
/// stage's name; a publish for what its pins or its artifact are refused for.
/// Nothing that runs is refused.
pub proof fn law_a_refusal_names_its_stage(
    tx: BatchInput,
    fate: TreeFate,
    lim: MetadataLimits,
    text: Seq<char>,
)
    requires
        refuses_as(tx, fate, lim, text),
        tx.vm is Some,
        tx.vm->0.body is Call,
    ensures
        derived(tx, fate, lim) is None,
        ({
            let bytes = tx.vm->0.body->Call_0@;
            let unreadable = forall|t: EnvelopeTree| !#[trigger] is_read_as(bytes, t);
            &&& unreadable ==> text == "tree decode: "@ + unread(bytes, 64)
            &&& !unreadable ==> match fate {
                TreeFate::NotAdmitted(e) => text == "admission: "@ + e@,
                TreeFate::NotRouted(e) => text == "routing: "@ + e@,
                TreeFate::Clashing(e) => text == "effect set: "@ + e@,
                TreeFate::Routed { .. } => false,
            }
        }),
{
}

/// What a batch starts from and whom it charges. A cell that some transaction pins
/// starts as the last pin says; any other as the snapshot holds it, where it is
/// the shard's own, some transaction that runs declares it and it holds a value;
/// and else as it was provisioned. The payers are those that the shard settles.
pub proof fn law_a_batch_starts_from_the_committed_cells<S: SubstateDatabase>(
    plan: BatchPlan,
    transactions: Seq<BatchInput>,
    fates: Seq<TreeFate>,
    provided: Map<SubstateKey, Seq<u8>>,
    anchors: Map<TxHash, TxAnchor>,
    lim: MetadataLimits,
    locality: Locality,
    snapshot: S,
    key: SubstateKey,
    t: TxHash,
)
    requires
        plan.plans(transactions, fates, provided, anchors, lim, locality, snapshot),
    ensures
        ({
            let pinned = |x: BatchInput| pins_cell(x, key);
            let of_key = |p: SnapshotPin| p.key == key;
            let shows = snapshot.cell(key) is Some && locality.local(key.owner) && exists|
                tx: TxHash,
                i: int,
            |
                plan.prepared@.contains_key(tx) && 0 <= i < plan.prepared@[tx].declared@.len()
                    && #[trigger] plan.prepared@[tx].declared@[i].target == EffectTarget::Point(key);
            &&& !some_at(transactions, pinned) && shows ==> plan.base@.contains_key(key) && Some(
                plan.base@[key],
            ) == snapshot.cell(key)
            &&& !some_at(transactions, pinned) && !shows ==> plan.base@.contains_key(key)
                == provided.contains_key(key) && (provided.contains_key(key) ==> plan.base@[key]
                == provided[key])
            &&& forall|n: int, at: int|
                #![trigger last_at(transactions, pinned, n), last_at(transactions[n].vm->0.snapshot_pins@, of_key, at)]
                last_at(transactions, pinned, n) && last_at(
                    transactions[n].vm->0.snapshot_pins@,
                    of_key,
                    at,
                ) ==> match transactions[n].vm->0.snapshot_pins@[at].value {
                    Some(v) => plan.base@.contains_key(key) && plan.base@[key] == v@,
                    None => !plan.base@.contains_key(key),
                }
        }),
        ({
            let pays = |x: BatchInput|
                x.tx == t && x.vm is Some && x.vm->0.fee_vault is Some && locality.local(
                    x.vm->0.fee_vault->0.owner,
                );
            &&& plan.fees@.contains_key(t) <==> some_at(transactions, pays)
            &&& forall|n: int| #[trigger]
                last_at(transactions, pays, n) ==> {
                    let vm = transactions[n].vm->0;
                    &&& plan.fees@[t].vault == vm.fee_vault->0
                    &&& plan.fees@[t].max_fee == vm.max_fee
                    &&& plan.fees@[t].abort_floor == vm.abort_floor
                    &&& plan.fees@[t].revocable == locality.cross_shard
                }
        }),
{
    let local = |o: [u8; 16]| locality.local(o);
    let shown = with_local(provided, plan.prepared@, local, snapshot);
    law_the_snapshot_shows_declared_cells(provided, plan.prepared@, local, snapshot, key);
    law_the_last_pin_stands(shown, transactions, key);
    law_a_shard_settles_its_own_payers(transactions, locality.cross_shard, local, t);
    let pays = |x: BatchInput|
        x.tx == t && x.vm is Some && x.vm->0.fee_vault is Some && locality.local(
            x.vm->0.fee_vault->0.owner,
        );
    let here = |x: BatchInput| x.tx == t && pays_here(x, local);
    assert forall|x: BatchInput| #[trigger] pays(x) == here(x) by {}
    assert(pays =~= here);
}

/// Every transaction that is refused at some mention is listed as refused, and no
/// other, with a text that its last such mention is refused as.
pub proof fn law_every_refusal_is_listed(
    refused: Map<TxHash, Seq<char>>,
    transactions: Seq<BatchInput>,
    fates: Seq<TreeFate>,
    lim: MetadataLimits,
    t: TxHash,
)
    requires
        are_refused(refused, transactions, fates, lim, transactions.len()),
    ensures
        refused.contains_key(t) <==> exists|i: int|
            0 <= i < transactions.len() && (#[trigger] transactions[i]).tx == t && derived(
                transactions[i],
                fates[i],
                lim,
            ) is None,
        forall|i: int|
            #![trigger transactions[i]]
            0 <= i < transactions.len() && transactions[i].tx == t && derived(
                transactions[i],
                fates[i],
                lim,
            ) is None && (forall|j: int|
                i < j < transactions.len() && (#[trigger] transactions[j]).tx == t ==> derived(
                    transactions[j],
                    fates[j],
                    lim,
                ) is Some) ==> refuses_as(transactions[i], fates[i], lim, refused[t]),
{
    let n = transactions.len();
    if refused.contains_key(t) {
        let i = choose|i: int| #[trigger]
            last_refused(transactions, fates, lim, n, t, i) && refuses_as(
                transactions[i],
                fates[i],
                lim,
                refused[t],
            );
        assert(transactions[i].tx == t);
        assert forall|k: int|
            #![trigger transactions[k]]
            0 <= k < n && transactions[k].tx == t && derived(transactions[k], fates[k], lim) is None
                && (forall|j: int|
                k < j < n && (#[trigger] transactions[j]).tx == t ==> derived(
                    transactions[j],
                    fates[j],
                    lim,
                ) is Some) implies refuses_as(transactions[k], fates[k], lim, refused[t]) by {
            if i < k {
                assert(refused_at(transactions, fates, lim, k));
            } else if k < i {
                assert(transactions[i].tx == t);
            }
        }
    }
    if exists|i: int|
        0 <= i < n && (#[trigger] transactions[i]).tx == t && derived(
            transactions[i],
            fates[i],
            lim,
        ) is None {
        let i = choose|i: int|
            0 <= i < n && (#[trigger] transactions[i]).tx == t && derived(
                transactions[i],
                fates[i],
                lim,
            ) is None;
        assert(refused_at(transactions, fates, lim, i));
    }
}

/// What was prepared reads as its nodes, its effects, its nullified cells and what
/// it files, and refusals as their texts.
pub proof fn law_what_was_prepared_reads_as_it_stands(
    prepared: Map<TxHash, PreparedTx>,
    refused: Map<TxHash, String>,
    t: TxHash,
)
    ensures
        prepared_views(prepared).contains_key(t) <==> prepared.contains_key(t),
        prepared.contains_key(t) ==> {
            let v = prepared_views(prepared)[t];
            let p = prepared[t];
            &&& v.manifest == p.manifest@
            &&& v.declared == p.declared@
            &&& v.nullifiers == p.nullifiers@
            &&& v.deploys is Some <==> p.deploys is Some
            &&& p.deploys is Some ==> (v.deploys->0).0 == p.deploys->0.cell && (v.deploys->0).1
                == p.deploys->0.artifact@
        },
        texts(refused).contains_key(t) <==> refused.contains_key(t),
        refused.contains_key(t) ==> texts(refused)[t] == refused[t]@,
{
}

/// What other shards provisioned is what a batch that crosses shards reads: the
/// requested transactions are gone through in ascending order, each once and none
/// left out, and a cell is provided exactly where the lists of some requested
/// transaction, by its last request, provide it, with what the last of those
/// transactions' last list's last entry says.
pub proof fn law_what_was_provisioned_is_read(
    requests: Seq<CrossShardTxInput>,
    order: Seq<TxHash>,
    key: SubstateKey,
    t: TxHash,
)
    requires
        is_request_order(requests, order),
    ensures
        order.contains(t) <==> exists|i: int|
            0 <= i < requests.len() && (#[trigger] requests[i]).transaction.tx == t,
        order.no_duplicates(),
        ({
            let given = request_provisions(requests, requests.len());
            let named = |x: TxHash| lists_provide(given[x]@, key);
            let listed = |l: Vec<SubstateEntry>| list_provides(l@, key);
            let entered = |e: SubstateEntry| provides(e, key);
            &&& request_cells(requests, order).contains_key(key) <==> some_at(order, named)
            &&& forall|n: int, l: int, at: int|
                #![trigger last_at(order, named, n), last_at(given[order[n]]@, listed, l), last_at(given[order[n]]@[l]@, entered, at)]
                last_at(order, named, n) && last_at(given[order[n]]@, listed, l) && last_at(
                    given[order[n]]@[l]@,
                    entered,
                    at,
                ) ==> request_cells(requests, order)[key] == given[order[n]]@[l]@[at].value->0@
        }),
{
    law_the_last_request_counts(requests, requests.len(), t);
    assert(order.to_set().contains(t) == order.contains(t));
    lemma_sorted_distinct(order);
    law_the_last_provision_stands(order, request_provisions(requests, requests.len()), key);
}

} // verus!
