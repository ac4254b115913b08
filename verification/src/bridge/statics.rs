//! What a signed envelope touches, derived before it runs.
use vstd::prelude::*;

use crate::bridge::account::{account_of, vm_account_address, VM_XRD};
use crate::bridge::checks::MetadataLimits;
use crate::bridge::codec::unread;
use crate::bridge::envelope::{decode_tree, is_read_as, EnvelopeTree, TREE_DEPTH};
use crate::bridge::error::VmStaticsError;
use crate::bridge::package::{admit_package, package_admits, package_refused_as};
use crate::bridge::roles::{derives, key_by, package_key, vault_key, CellRole};
use crate::order::same_bytes;
use crate::sorted::{lemma_sorted_distinct, strictly_sorted, SortedSet};
use crate::types::{DeclaredKey, SubstateKey};

verus! {

/// A cell that an effect or a snapshot names.
#[derive(Clone, Copy, Debug, PartialEq, Eq)]
pub enum EffectTarget {
    /// One cell.
    Point(SubstateKey),
    /// One entry of an ordered collection.
    Entry {
        /// The collection's owner.
        owner: [u8; 16],
        /// The collection.
        collection: u16,
        /// The entry's order.
        order: u128,
    },
    /// A range of an ordered collection.
    Range {
        /// The collection's owner.
        owner: [u8; 16],
        /// The collection.
        collection: u16,
        /// The lowest order.
        lo: u128,
        /// The highest order.
        hi: u128,
    },
}

/// How an effect holds its target.
#[derive(Clone, Copy, Debug, PartialEq, Eq, Structural)]
pub enum Mode {
    /// A fresh read.
    Read,
    /// An exclusive write.
    Write,
    /// A commutative change.
    Delta,
    /// A reservation.
    Reserve {
        /// How much is reserved.
        amount: u128,
    },
    /// A read of a pinned version.
    Snapshot,
}

/// A declared effect.
#[derive(Clone, Copy, Debug, PartialEq, Eq)]
pub struct Effect {
    /// What it touches.
    pub target: EffectTarget,
    /// How it holds it.
    pub mode: Mode,
}

/// A pinned cell value that an envelope carries.
#[derive(Debug, PartialEq, Eq)]
pub struct SnapshotPin {
    /// The cell.
    pub key: SubstateKey,
    /// Its value at the pinned version; absent for a cell that held none.
    pub value: Option<Vec<u8>>,
}

/// What an envelope carries.
#[derive(Debug, PartialEq, Eq)]
pub enum VmBody {
    /// A call: the wire bytes of an envelope tree.
    Call(Vec<u8>),
    /// A publish: a component artifact.
    Publish(Vec<u8>),
}

/// A subintent's signature.
#[derive(Clone, Copy, Debug, PartialEq, Eq)]
pub struct VmSubintentSig {
    /// The signer's public key.
    pub public_key: [u8; 32],
    /// The signature.
    pub signature: [u8; 64],
}

/// A signed envelope.
#[derive(Debug, PartialEq, Eq)]
pub struct VmTransaction {
    /// What it carries.
    pub body: VmBody,
    /// One signature for each subintent.
    pub subintent_sigs: Vec<VmSubintentSig>,
    /// The account that pays.
    pub fee_payer: [u8; 16],
    /// The most it pays.
    pub max_fee: u128,
    /// The most it may burn.
    pub gas_limit: u64,
    /// Pinned values that it reads.
    pub snapshot_pins: Vec<SnapshotPin>,
    /// When it becomes valid.
    pub validity_start_ms: u64,
    /// When it ceases to be valid.
    pub validity_end_ms: u64,
    /// A message.
    pub message: Vec<u8>,
    /// The composer's public key.
    pub signer: [u8; 32],
    /// The composer's signature.
    pub signature: [u8; 64],
}

impl VmTransaction {
    /// The published artifact, if it is a publish.
    pub fn artifact(&self) -> (r: Option<&Vec<u8>>)
        ensures
            match r {
                Some(a) => self.body == VmBody::Publish(*a),
                None => self.body is Call,
            },
    {
        match &self.body {
            VmBody::Publish(artifact) => Some(artifact),
            VmBody::Call(_) => None,
        }
    }

    /// The tree's wire bytes, if it is a call.
    pub fn call_tree(&self) -> (r: Option<&Vec<u8>>)
        ensures
            match r {
                Some(t) => self.body == VmBody::Call(*t),
                None => self.body is Publish,
            },
    {
        match &self.body {
            VmBody::Call(tree) => Some(tree),
            VmBody::Publish(_) => None,
        }
    }
}

/// The key that admission conflicts on for a target: the cell of a point, the
/// whole owner of a collection.
pub open spec fn key_of(target: EffectTarget) -> DeclaredKey {
    match target {
        EffectTarget::Point(key) => DeclaredKey::Prefix { owner: key.owner, local: Some(key.local) },
        EffectTarget::Entry { owner, .. } => DeclaredKey::Prefix { owner, local: None },
        EffectTarget::Range { owner, .. } => DeclaredKey::Prefix { owner, local: None },
    }
}

/// The key that admission conflicts on for a target.
pub fn admission_key(target: &EffectTarget) -> (k: DeclaredKey)
    ensures
        k == key_of(*target),
{
    match target {
        EffectTarget::Point(key) => DeclaredKey::substate(key.owner, key.local),
        EffectTarget::Entry { owner, .. } => DeclaredKey::prefix(*owner),
        EffectTarget::Range { owner, .. } => DeclaredKey::prefix(*owner),
    }
}

/// The owner of a prefix key.
pub open spec fn owner_of(key: DeclaredKey) -> [u8; 16] {
    key->owner
}

/// The owner of a prefix key.
pub fn key_owner(key: &DeclaredKey) -> (owner: [u8; 16])
    requires
        key is Prefix,
    ensures
        owner == owner_of(*key),
{
    match key {
        DeclaredKey::Prefix { owner, .. } => *owner,
        DeclaredKey::Node { .. } => [0; 16],
    }
}

/// A mode that shares its key.
pub open spec fn shares(mode: Mode) -> bool {
    mode is Read
}

/// A mode that excludes others from its key.
pub open spec fn excludes(mode: Mode) -> bool {
    mode is Write || mode is Delta || mode is Reserve
}

/// A mode whose prior value a counterpart cannot do without.
pub open spec fn provisions(mode: Mode) -> bool {
    mode is Read || mode is Write
}

/// The keys of the effects whose mode is picked.
pub open spec fn keys_where(effects: Seq<Effect>, pick: spec_fn(Mode) -> bool) -> Set<DeclaredKey>
    decreases effects.len(),
{
    if effects.len() == 0 {
        Set::empty()
    } else {
        let before = keys_where(effects.drop_last(), pick);
        if pick(effects.last().mode) {
            before.insert(key_of(effects.last().target))
        } else {
            before
        }
    }
}

/// The list holds exactly the keys of a set, ascending.
pub open spec fn lists_keys(list: Seq<DeclaredKey>, keys: Set<DeclaredKey>) -> bool {
    strictly_sorted(list) && list.to_set() == keys
}

/// The list holds exactly the owners of a set of keys, ascending.
pub open spec fn lists_owners(list: Seq<[u8; 16]>, keys: Set<DeclaredKey>) -> bool {
    strictly_sorted(list) && list.to_set() == keys.map(|k: DeclaredKey| owner_of(k))
}

/// What an envelope touches.
#[derive(Debug, PartialEq, Eq)]
pub struct VmRouting {
    /// Owners it reads under.
    pub read_prefixes: Vec<[u8; 16]>,
    /// Owners it writes under.
    pub write_prefixes: Vec<[u8; 16]>,
    /// Owners whose values a counterpart needs.
    pub provision_prefixes: Vec<[u8; 16]>,
    /// Keys it shares.
    pub read_keys: Vec<DeclaredKey>,
    /// Keys it excludes others from.
    pub write_keys: Vec<DeclaredKey>,
    /// Keys whose values a counterpart needs.
    pub provision_keys: Vec<DeclaredKey>,
}

impl VmRouting {
    /// The routing of a list of effects.
    pub open spec fn routes(&self, effects: Seq<Effect>) -> bool {
        let reads = keys_where(effects, |m: Mode| shares(m));
        let writes = keys_where(effects, |m: Mode| excludes(m));
        let needs = keys_where(effects, |m: Mode| provisions(m));
        &&& lists_keys(self.read_keys@, reads)
        &&& lists_keys(self.write_keys@, writes)
        &&& lists_keys(self.provision_keys@, needs)
        &&& lists_owners(self.read_prefixes@, reads)
        &&& lists_owners(self.write_prefixes@, writes)
        &&& lists_owners(self.provision_prefixes@, needs)
    }
}

/// What an envelope derives to.
#[derive(Debug, PartialEq, Eq)]
pub struct VmDerived {
    /// What it touches.
    pub routing: VmRouting,
    /// The declaration hash of each subintent.
    pub subintent_hashes: Vec<[u8; 32]>,
    /// The cells that it reads at a pinned version.
    pub snapshot_targets: Vec<SubstateKey>,
    /// The cell under the payer that the fee is taken from.
    pub fee_vault_local: [u8; 16],
}

fn owners(keys: &SortedSet<DeclaredKey>) -> (list: Vec<[u8; 16]>)
    requires
        forall|k: DeclaredKey| keys@.contains(k) ==> k is Prefix,
    ensures
        lists_owners(list@, keys@),
{
    let mut set: SortedSet<[u8; 16]> = SortedSet::new();
    let count: usize = keys.len();
    let mut i: usize = 0;
    while i < count
        invariant
            i <= count,
            count == keys.order().len(),
            keys@ == keys.order().to_set(),
            forall|k: DeclaredKey| keys@.contains(k) ==> k is Prefix,
            forall|o: [u8; 16]| #[trigger]
                set@.contains(o) <==> exists|j: int|
                    0 <= j < i && owner_of(#[trigger] keys.order()[j]) == o,
        decreases count - i,
    {
        let key = keys.at(i);
        let ghost before = set@;
        set.insert(key_owner(&key));
        proof {
            assert forall|o: [u8; 16]| #[trigger] set@.contains(o) implies exists|j: int|
                0 <= j < i + 1 && owner_of(#[trigger] keys.order()[j]) == o by {
                if o == owner_of(key) {
                    assert(owner_of(keys.order()[i as int]) == o);
                } else {
                    assert(before.contains(o));
                }
            }
            assert forall|j: int| 0 <= j < i + 1 implies set@.contains(
                owner_of(#[trigger] keys.order()[j]),
            ) by {
                if j < i {
                    assert(before.contains(owner_of(keys.order()[j])));
                }
            }
        }
        i = i + 1;
    }
    proof {
        let want = keys@.map(|k: DeclaredKey| owner_of(k));
        assert forall|o: [u8; 16]| set@.contains(o) == want.contains(o) by {
            if set@.contains(o) {
                let j = choose|j: int|
                    0 <= j < count && owner_of(#[trigger] keys.order()[j]) == o;
                assert(keys.order().to_set().contains(keys.order()[j]));
            }
            if want.contains(o) {
                let k = choose|k: DeclaredKey| keys@.contains(k) && owner_of(k) == o;
                assert(keys.order().to_set().contains(k));
                let j = keys.order().index_of(k);
                assert(owner_of(keys.order()[j]) == o);
            }
        }
        assert(set@ =~= want);
    }
    set.to_vec()
}

/// Folds declared effects into what admission and provisioning go by: fresh
/// reads share, changes exclude, snapshot reads take no key; a counterpart
/// needs what is read and what is read to be written.
pub fn fold_effects(effects: &Vec<Effect>) -> (routing: VmRouting)
    ensures
        routing.routes(effects@),
{
    let mut reads: SortedSet<DeclaredKey> = SortedSet::new();
    let mut writes: SortedSet<DeclaredKey> = SortedSet::new();
    let mut needs: SortedSet<DeclaredKey> = SortedSet::new();
    let ghost r = |m: Mode| shares(m);
    let ghost w = |m: Mode| excludes(m);
    let ghost n = |m: Mode| provisions(m);
    let mut i: usize = 0;
    assert(effects@.take(0) =~= Seq::empty());
    while i < effects.len()
        invariant
            i <= effects@.len(),
            r == (|m: Mode| shares(m)),
            w == (|m: Mode| excludes(m)),
            n == (|m: Mode| provisions(m)),
            reads@ == keys_where(effects@.take(i as int), r),
            writes@ == keys_where(effects@.take(i as int), w),
            needs@ == keys_where(effects@.take(i as int), n),
        decreases effects@.len() - i,
    {
        proof {
            assert(effects@.take(i + 1).drop_last() =~= effects@.take(i as int));
            assert(effects@.take(i + 1).last() == effects@[i as int]);
        }
        let key = admission_key(&effects[i].target);
        match effects[i].mode {
            Mode::Read => {
                reads.insert(key);
                needs.insert(key);
            },
            Mode::Write => {
                writes.insert(key);
                needs.insert(key);
            },
            Mode::Delta => {
                writes.insert(key);
            },
            Mode::Reserve { .. } => {
                writes.insert(key);
            },
            Mode::Snapshot => {},
        }
        i = i + 1;
    }
    proof {
        assert(effects@.take(effects@.len() as int) =~= effects@);
        lemma_keys_are_prefixes(effects@, r);
        lemma_keys_are_prefixes(effects@, w);
        lemma_keys_are_prefixes(effects@, n);
    }
    VmRouting {
        read_prefixes: owners(&reads),
        write_prefixes: owners(&writes),
        provision_prefixes: owners(&needs),
        read_keys: reads.to_vec(),
        write_keys: writes.to_vec(),
        provision_keys: needs.to_vec(),
    }
}

proof fn lemma_keys_are_prefixes(effects: Seq<Effect>, pick: spec_fn(Mode) -> bool)
    ensures
        forall|k: DeclaredKey| #[trigger] keys_where(effects, pick).contains(k) ==> k is Prefix,
    decreases effects.len(),
{
    if effects.len() > 0 {
        let before = keys_where(effects.drop_last(), pick);
        lemma_keys_are_prefixes(effects.drop_last(), pick);
        assert forall|k: DeclaredKey| #[trigger] keys_where(effects, pick).contains(k) implies k is
            Prefix by {
            if !before.contains(k) {
                assert(k == key_of(effects.last().target));
            }
        }
    }
}

/// What admission and routing of a tree come to.
pub struct TreeRouting {
    /// The effects, over all shards.
    pub effects: Vec<Effect>,
    /// The declaration hash of each subintent.
    pub subintent_hashes: Vec<[u8; 32]>,
    /// What must be proven at a pinned version.
    pub snapshot_obligations: Vec<EffectTarget>,
}

/// How admission and routing of a tree came out.
pub enum TreeOutcome {
    /// Both went through.
    Routed(TreeRouting),
    /// The tree was not admitted, and why.
    NotAdmitted(String),
    /// The tree was not routed, and why.
    NotRouted(String),
}

/// Every obligation is a cell.
pub open spec fn all_points(targets: Seq<EffectTarget>) -> bool {
    forall|i: int| 0 <= i < targets.len() ==> (#[trigger] targets[i]) is Point
}

/// Projects the routing of a call's tree: its effects folded, its snapshot
/// obligations as cells.
pub fn project_call(outcome: TreeOutcome, vault: &SubstateKey) -> (r: Result<
    VmDerived,
    VmStaticsError,
>)
    ensures
        match outcome {
            TreeOutcome::NotAdmitted(reason) => r is Err && r->Err_0 == (VmStaticsError::Admission {
                reason,
            }),
            TreeOutcome::NotRouted(reason) => r is Err && r->Err_0 == (VmStaticsError::Routing {
                reason,
            }),
            TreeOutcome::Routed(tree) => if all_points(tree.snapshot_obligations@) {
                &&& r is Ok
                &&& r->Ok_0.routing.routes(tree.effects@)
                &&& r->Ok_0.subintent_hashes@ == tree.subintent_hashes@
                &&& r->Ok_0.fee_vault_local == vault.local
                &&& r->Ok_0.snapshot_targets@.len() == tree.snapshot_obligations@.len()
                &&& forall|i: int|
                    0 <= i < tree.snapshot_obligations@.len()
                        ==> tree.snapshot_obligations@[i] == EffectTarget::Point(
                        #[trigger] r->Ok_0.snapshot_targets@[i],
                    )
            } else {
                r is Err && r->Err_0 is CollectionSnapshot
            },
        },
{
    let tree = match outcome {
        TreeOutcome::NotAdmitted(reason) => {
            return Err(VmStaticsError::Admission { reason });
        },
        TreeOutcome::NotRouted(reason) => {
            return Err(VmStaticsError::Routing { reason });
        },
        TreeOutcome::Routed(tree) => tree,
    };
    let mut snapshot_targets: Vec<SubstateKey> = Vec::new();
    let mut i: usize = 0;
    while i < tree.snapshot_obligations.len()
        invariant
            i <= tree.snapshot_obligations@.len(),
            snapshot_targets@.len() == i,
            forall|j: int|
                0 <= j < i ==> tree.snapshot_obligations@[j] == EffectTarget::Point(
                    #[trigger] snapshot_targets@[j],
                ),
            forall|j: int| 0 <= j < i ==> (#[trigger] tree.snapshot_obligations@[j]) is Point,
            outcome == TreeOutcome::Routed(tree),
        decreases tree.snapshot_obligations@.len() - i,
    {
        match tree.snapshot_obligations[i] {
            EffectTarget::Point(key) => {
                snapshot_targets.push(key);
            },
            _ => {
                assert(!(tree.snapshot_obligations@[i as int] is Point));
                return Err(VmStaticsError::CollectionSnapshot);
            },
        }
        i = i + 1;
    }
    let routing = fold_effects(&tree.effects);
    Ok(
        VmDerived {
            routing,
            subintent_hashes: tree.subintent_hashes,
            snapshot_targets,
            fee_vault_local: vault.local,
        },
    )
}

/// A publish touches its package cell and its payer's vault, exclusively, and
/// nothing else.
pub open spec fn publishes(d: VmDerived, publisher: [u8; 16], cell: SubstateKey, vault: SubstateKey) -> bool {
    let cells = Set::empty().insert(
        DeclaredKey::Prefix { owner: cell.owner, local: Some(cell.local) },
    ).insert(DeclaredKey::Prefix { owner: vault.owner, local: Some(vault.local) });
    &&& d.routing.read_prefixes@.len() == 0
    &&& d.routing.provision_prefixes@.len() == 0
    &&& d.routing.read_keys@.len() == 0
    &&& d.routing.provision_keys@.len() == 0
    &&& d.routing.write_prefixes@ == seq![publisher]
    &&& lists_keys(d.routing.write_keys@, cells)
    &&& d.subintent_hashes@.len() == 0
    &&& d.snapshot_targets@.len() == 0
    &&& d.fee_vault_local == vault.local
}

/// The routing of a publish.
pub fn project_publish(publisher: [u8; 16], cell: &SubstateKey, vault: &SubstateKey) -> (d: VmDerived)
    ensures
        publishes(d, publisher, *cell, *vault),
{
    let mut writes: SortedSet<DeclaredKey> = SortedSet::new();
    writes.insert(DeclaredKey::substate(cell.owner, cell.local));
    writes.insert(DeclaredKey::substate(vault.owner, vault.local));
    let mut write_prefixes: Vec<[u8; 16]> = Vec::new();
    write_prefixes.push(publisher);
    assert(write_prefixes@ =~= seq![publisher]);
    VmDerived {
        routing: VmRouting {
            read_prefixes: Vec::new(),
            write_prefixes,
            provision_prefixes: Vec::new(),
            read_keys: Vec::new(),
            write_keys: writes.to_vec(),
            provision_keys: Vec::new(),
        },
        subintent_hashes: Vec::new(),
        snapshot_targets: Vec::new(),
        fee_vault_local: vault.local,
    }
}

/// What an envelope opens to.
pub enum Opened {
    /// A publish whose artifact was admitted.
    Publish,
    /// A call with its tree.
    Call(EnvelopeTree),
}

/// The subintent at `i` names the account of the key that signs for it.
pub open spec fn signer_matches(vm: VmTransaction, tree: EnvelopeTree, i: int) -> bool {
    account_of(vm.subintent_sigs@[i].public_key@) == tree.subintents@[i].signer@
}

/// The error names the first reason why a call's tree is refused.
pub open spec fn call_refused_as(vm: VmTransaction, bytes: Seq<u8>, e: VmStaticsError) -> bool {
    if forall|x: EnvelopeTree| !#[trigger] is_read_as(bytes, x) {
        e is TreeMalformed && e->TreeMalformed_reason@ == unread(bytes, TREE_DEPTH as int)
    } else {
        exists|tree: EnvelopeTree| #[trigger]
            is_read_as(bytes, tree) && if vm.subintent_sigs@.len() != tree.subintents@.len() {
                e is SubintentCount && e->bound == tree.subintents@.len() && e->carried
                    == vm.subintent_sigs@.len()
            } else {
                &&& e is SubintentSigner
                &&& e->index < tree.subintents@.len()
                &&& !signer_matches(vm, tree, e->index as int)
                &&& forall|j: int| 0 <= j < e->index ==> #[trigger] signer_matches(vm, tree, j)
            }
    }
}

/// Every subintent is signed for by its own account.
pub open spec fn call_accepted(vm: VmTransaction, tree: EnvelopeTree) -> bool {
    &&& vm.subintent_sigs@.len() == tree.subintents@.len()
    &&& forall|j: int| 0 <= j < tree.subintents@.len() ==> #[trigger] signer_matches(vm, tree, j)
}

fn open_call(vm: &VmTransaction, bytes: &Vec<u8>) -> (r: Result<EnvelopeTree, VmStaticsError>)
    ensures
        match r {
            Ok(tree) => is_read_as(bytes@, tree) && call_accepted(*vm, tree),
            Err(e) => call_refused_as(*vm, bytes@, e),
        },
{
    let tree = match decode_tree(bytes.as_slice()) {
        Ok(tree) => tree,
        Err(e) => {
            return Err(e);
        },
    };
    assert(is_read_as(bytes@, tree));
    if vm.subintent_sigs.len() != tree.subintents.len() {
        return Err(
            VmStaticsError::SubintentCount {
                bound: tree.subintents.len(),
                carried: vm.subintent_sigs.len(),
            },
        );
    }
    let mut i: usize = 0;
    while i < tree.subintents.len()
        invariant
            i <= tree.subintents@.len(),
            vm.subintent_sigs@.len() == tree.subintents@.len(),
            is_read_as(bytes@, tree),
            forall|j: int| 0 <= j < i ==> #[trigger] signer_matches(*vm, tree, j),
        decreases tree.subintents@.len() - i,
    {
        let account = vm_account_address(&vm.subintent_sigs[i].public_key);
        if !same_bytes(account.as_slice(), tree.subintents[i].signer.as_slice()) {
            assert(!signer_matches(*vm, tree, i as int));
            return Err(VmStaticsError::SubintentSigner { index: i });
        }
        assert(signer_matches(*vm, tree, i as int));
        i = i + 1;
    }
    Ok(tree)
}

/// Opens an envelope: the payer is the composer's own account, a publish
/// carries nothing but an artifact that is admitted, and a call's subintents
/// are each signed for by their own account.
pub fn open_envelope(vm: &VmTransaction, lim: &MetadataLimits) -> (r: Result<Opened, VmStaticsError>)
    requires
        lim.wf(),
    ensures
        if account_of(vm.signer@) != vm.fee_payer@ {
            r is Err && r->Err_0 is FeePayer
        } else {
            match vm.body {
                VmBody::Publish(artifact) => if vm.subintent_sigs@.len() > 0
                    || vm.snapshot_pins@.len() > 0 {
                    r is Err && r->Err_0 is PublishExtras
                } else {
                    match r {
                        Ok(o) => o is Publish && package_admits(artifact@, *lim),
                        Err(e) => package_refused_as(artifact@, *lim, e),
                    }
                },
                VmBody::Call(bytes) => match r {
                    Ok(o) => o is Call && is_read_as(bytes@, o->Call_0) && call_accepted(
                        *vm,
                        o->Call_0,
                    ),
                    Err(e) => call_refused_as(*vm, bytes@, e),
                },
            }
        },
{
    let own = vm_account_address(&vm.signer);
    if !same_bytes(own.as_slice(), vm.fee_payer.as_slice()) {
        return Err(VmStaticsError::FeePayer);
    }
    match &vm.body {
        VmBody::Publish(artifact) => {
            if vm.subintent_sigs.len() > 0 || vm.snapshot_pins.len() > 0 {
                return Err(VmStaticsError::PublishExtras);
            }
            match admit_package(artifact.as_slice(), lim) {
                Err(e) => Err(e),
                Ok(_) => Ok(Opened::Publish),
            }
        },
        VmBody::Call(bytes) => {
            match open_call(vm, bytes) {
                Err(e) => Err(e),
                Ok(tree) => Ok(Opened::Call(tree)),
            }
        },
    }
}

/// The vault that a payer's fees are taken from.
pub open spec fn fee_vault<K: Fn(CellRole) -> SubstateKey>(
    payer: [u8; 16],
    cell_key: K,
) -> SubstateKey {
    key_by(cell_key, CellRole::Vault { owner: payer, resource: VM_XRD })
}

/// Derivation over the limits that published packages are held to.
#[derive(Clone, Copy, Debug)]
pub struct BridgeStatics {
    /// The limits.
    pub limits: MetadataLimits,
}

impl BridgeStatics {
    /// Derives what an envelope touches from how its tree was admitted and
    /// routed. A publish goes by its cells alone: the one that its package,
    /// whose content address is `package`, is filed in, and the payer's vault.
    pub fn derive<K: Fn(CellRole) -> SubstateKey>(
        &self,
        vm: &VmTransaction,
        package: [u8; 32],
        outcome: TreeOutcome,
        cell_key: &K,
    ) -> (r: Result<VmDerived, VmStaticsError>)
        requires
            self.limits.wf(),
            derives(*cell_key),
        ensures
            if account_of(vm.signer@) != vm.fee_payer@ {
                r is Err && r->Err_0 is FeePayer
            } else {
                match vm.body {
                    VmBody::Publish(artifact) => if vm.subintent_sigs@.len() > 0
                        || vm.snapshot_pins@.len() > 0 {
                        r is Err && r->Err_0 is PublishExtras
                    } else {
                        match r {
                            Ok(d) => package_admits(artifact@, self.limits) && publishes(
                                d,
                                vm.fee_payer,
                                key_by(*cell_key, CellRole::Package { owner: vm.fee_payer, package }),
                                fee_vault(vm.fee_payer, *cell_key),
                            ),
                            Err(e) => package_refused_as(artifact@, self.limits, e),
                        }
                    },
                    VmBody::Call(bytes) => match r {
                        Ok(d) => {
                            &&& exists|tree: EnvelopeTree| #[trigger]
                                is_read_as(bytes@, tree) && call_accepted(*vm, tree)
                            &&& outcome is Routed
                            &&& all_points(outcome->Routed_0.snapshot_obligations@)
                            &&& d.routing.routes(outcome->Routed_0.effects@)
                            &&& d.subintent_hashes@ == outcome->Routed_0.subintent_hashes@
                            &&& d.fee_vault_local == fee_vault(vm.fee_payer, *cell_key).local
                            &&& d.snapshot_targets@.len()
                                == outcome->Routed_0.snapshot_obligations@.len()
                            &&& forall|i: int|
                                0 <= i < d.snapshot_targets@.len()
                                    ==> outcome->Routed_0.snapshot_obligations@[i]
                                    == EffectTarget::Point(#[trigger] d.snapshot_targets@[i])
                        },
                        Err(e) => call_refused_as(*vm, bytes@, e) || ((exists|tree: EnvelopeTree|
                            #[trigger] is_read_as(bytes@, tree) && call_accepted(*vm, tree)) && match outcome {
                            TreeOutcome::NotAdmitted(reason) => e == (VmStaticsError::Admission {
                                reason,
                            }),
                            TreeOutcome::NotRouted(reason) => e == (VmStaticsError::Routing {
                                reason,
                            }),
                            TreeOutcome::Routed(t) => e is CollectionSnapshot && !all_points(
                                t.snapshot_obligations@,
                            ),
                        }),
                    },
                }
            },
    {
        let vault = vault_key(cell_key, vm.fee_payer, VM_XRD);
        match open_envelope(vm, &self.limits) {
            Err(e) => Err(e),
            Ok(Opened::Publish) => {
                let cell = package_key(cell_key, vm.fee_payer, package);
                Ok(project_publish(vm.fee_payer, &cell, &vault))
            },
            Ok(Opened::Call(tree)) => {
                proof {
                    if let VmBody::Call(bytes) = &vm.body {
                        assert(is_read_as(bytes@, tree) && call_accepted(*vm, tree));
                    }
                }
                project_call(outcome, &vault)
            },
        }
    }
}

/// A transaction that only changes cells commutatively provisions nothing.
pub proof fn law_commutative_effects_provision_nothing(effects: Seq<Effect>)
    requires
        forall|i: int|
            0 <= i < effects.len() ==> (#[trigger] effects[i]).mode is Delta || effects[i].mode is
                Reserve,
    ensures
        keys_where(effects, |m: Mode| provisions(m)) == Set::<DeclaredKey>::empty(),
        keys_where(effects, |m: Mode| shares(m)) == Set::<DeclaredKey>::empty(),
    decreases effects.len(),
{
    if effects.len() > 0 {
        assert(effects.last() == effects[effects.len() - 1]);
        law_commutative_effects_provision_nothing(effects.drop_last());
    }
}

/// What is provisioned is read or written: no key is provisioned that
/// admission does not hold.
pub proof fn law_provisions_are_declared(effects: Seq<Effect>)
    ensures
        keys_where(effects, |m: Mode| provisions(m)).subset_of(
            keys_where(effects, |m: Mode| shares(m)).union(
                keys_where(effects, |m: Mode| excludes(m)),
            ),
        ),
    decreases effects.len(),
{
    if effects.len() > 0 {
        law_provisions_are_declared(effects.drop_last());
    }
}

/// Where admission looks for a target: at the one cell of a point, and at the
/// whole owner of a collection.
pub open spec fn lies_at(target: EffectTarget, owner: [u8; 16], local: Option<[u8; 16]>) -> bool {
    match target {
        EffectTarget::Point(cell) => cell.owner == owner && local is Some && local->0 == cell.local,
        EffectTarget::Entry { owner: whose, collection: _, order: _ } => whose == owner && local is
            None,
        EffectTarget::Range { owner: whose, collection: _, lo: _, hi: _ } => whose == owner
            && local is None,
    }
}

proof fn lemma_keys_where(
    effects: Seq<Effect>,
    pick: spec_fn(Mode) -> bool,
    owner: [u8; 16],
    local: Option<[u8; 16]>,
)
    ensures
        keys_where(effects, pick).contains(DeclaredKey::Prefix { owner, local }) <==> exists|i: int|
            0 <= i < effects.len() && pick((#[trigger] effects[i]).mode) && lies_at(
                effects[i].target,
                owner,
                local,
            ),
    decreases effects.len(),
{
    if effects.len() > 0 {
        let t = effects.drop_last();
        let n = effects.len() - 1;
        lemma_keys_where(t, pick, owner, local);
        let key = DeclaredKey::Prefix { owner, local };
        assert((key_of(effects[n].target) == key) == lies_at(effects[n].target, owner, local));
        if keys_where(t, pick).contains(key) {
            let i = choose|i: int|
                0 <= i < t.len() && pick((#[trigger] t[i]).mode) && lies_at(
                    t[i].target,
                    owner,
                    local,
                );
            assert(effects[i] == t[i]);
        }
        if exists|i: int|
            0 <= i < effects.len() && pick((#[trigger] effects[i]).mode) && lies_at(
                effects[i].target,
                owner,
                local,
            ) {
            let i = choose|i: int|
                0 <= i < effects.len() && pick((#[trigger] effects[i]).mode) && lies_at(
                    effects[i].target,
                    owner,
                    local,
                );
            if i < n {
                assert(t[i] == effects[i]);
            }
        }
    }
}

/// What the lists of a set of keys hold: the keys, and the owners of the keys.
proof fn lemma_listed(
    keys: Seq<DeclaredKey>,
    owners: Seq<[u8; 16]>,
    effects: Seq<Effect>,
    pick: spec_fn(Mode) -> bool,
    owner: [u8; 16],
    local: Option<[u8; 16]>,
)
    requires
        lists_keys(keys, keys_where(effects, pick)),
        lists_owners(owners, keys_where(effects, pick)),
    ensures
        keys.contains(DeclaredKey::Prefix { owner, local }) <==> exists|i: int|
            0 <= i < effects.len() && pick((#[trigger] effects[i]).mode) && lies_at(
                effects[i].target,
                owner,
                local,
            ),
        owners.contains(owner) <==> exists|i: int|
            0 <= i < effects.len() && pick((#[trigger] effects[i]).mode) && (lies_at(
                effects[i].target,
                owner,
                None,
            ) || exists|l: [u8; 16]| lies_at(effects[i].target, owner, Some(l))),
{
    let set = keys_where(effects, pick);
    let key = DeclaredKey::Prefix { owner, local };
    lemma_keys_where(effects, pick, owner, local);
    assert(keys.to_set().contains(key) == keys.contains(key));
    assert(owners.to_set().contains(owner) == owners.contains(owner));
    lemma_keys_are_prefixes(effects, pick);
    if owners.contains(owner) {
        assert(set.map(|k: DeclaredKey| owner_of(k)).contains(owner));
        let k = choose|k: DeclaredKey| set.contains(k) && owner_of(k) == owner;
        assert(k is Prefix);
        let l = k->local;
        assert(k == DeclaredKey::Prefix { owner, local: l });
        lemma_keys_where(effects, pick, owner, l);
        let i = choose|i: int|
            0 <= i < effects.len() && pick((#[trigger] effects[i]).mode) && lies_at(
                effects[i].target,
                owner,
                l,
            );
        if l is Some {
            assert(lies_at(effects[i].target, owner, Some(l->0)));
        }
    }
    if exists|i: int|
        0 <= i < effects.len() && pick((#[trigger] effects[i]).mode) && (lies_at(
            effects[i].target,
            owner,
            None,
        ) || exists|l: [u8; 16]| lies_at(effects[i].target, owner, Some(l))) {
        let i = choose|i: int|
            0 <= i < effects.len() && pick((#[trigger] effects[i]).mode) && (lies_at(
                effects[i].target,
                owner,
                None,
            ) || exists|l: [u8; 16]| lies_at(effects[i].target, owner, Some(l)));
        let l: Option<[u8; 16]> = if lies_at(effects[i].target, owner, None) {
            None
        } else {
            Some(choose|l: [u8; 16]| lies_at(effects[i].target, owner, Some(l)))
        };
        lemma_keys_where(effects, pick, owner, l);
        let k = DeclaredKey::Prefix { owner, local: l };
        assert(set.contains(k) && owner_of(k) == owner);
        assert(set.map(|k: DeclaredKey| owner_of(k)).contains(owner));
    }
}

/// Every effect is routed, and nothing else: a key is shared exactly where some
/// effect reads its target, held exclusively exactly where some effect writes,
/// changes or reserves it, and provisioned exactly where some effect reads or
/// writes it. The prefixes are the owners of those targets. A snapshot takes no
/// key.
pub proof fn law_every_effect_is_routed(
    routing: VmRouting,
    effects: Seq<Effect>,
    owner: [u8; 16],
    local: Option<[u8; 16]>,
)
    requires
        routing.routes(effects),
    ensures
        ({
            let key = DeclaredKey::Prefix { owner, local };
            &&& routing.read_keys@.contains(key) <==> exists|i: int|
                0 <= i < effects.len() && (#[trigger] effects[i]).mode is Read && lies_at(
                    effects[i].target,
                    owner,
                    local,
                )
            &&& routing.write_keys@.contains(key) <==> exists|i: int|
                0 <= i < effects.len() && ((#[trigger] effects[i]).mode is Write
                    || effects[i].mode is Delta || effects[i].mode is Reserve) && lies_at(
                    effects[i].target,
                    owner,
                    local,
                )
            &&& routing.provision_keys@.contains(key) <==> exists|i: int|
                0 <= i < effects.len() && ((#[trigger] effects[i]).mode is Read
                    || effects[i].mode is Write) && lies_at(effects[i].target, owner, local)
            &&& routing.read_keys@.contains(key) ==> routing.read_prefixes@.contains(owner)
            &&& routing.write_keys@.contains(key) ==> routing.write_prefixes@.contains(owner)
            &&& routing.provision_keys@.contains(key) ==> routing.provision_prefixes@.contains(owner)
            &&& routing.read_prefixes@.contains(owner) ==> exists|l: Option<[u8; 16]>| #[trigger]
                routing.read_keys@.contains(DeclaredKey::Prefix { owner, local: l })
            &&& routing.write_prefixes@.contains(owner) ==> exists|l: Option<[u8; 16]>| #[trigger]
                routing.write_keys@.contains(DeclaredKey::Prefix { owner, local: l })
            &&& routing.provision_prefixes@.contains(owner) ==> exists|l: Option<[u8; 16]>| #[trigger]
                routing.provision_keys@.contains(DeclaredKey::Prefix { owner, local: l })
            &&& routing.read_keys@.no_duplicates()
            &&& routing.write_keys@.no_duplicates()
            &&& routing.provision_keys@.no_duplicates()
        }),
{
    let reads = |m: Mode| shares(m);
    let writes = |m: Mode| excludes(m);
    let needs = |m: Mode| provisions(m);
    lemma_listed(routing.read_keys@, routing.read_prefixes@, effects, reads, owner, local);
    lemma_listed(routing.write_keys@, routing.write_prefixes@, effects, writes, owner, local);
    lemma_listed(
        routing.provision_keys@,
        routing.provision_prefixes@,
        effects,
        needs,
        owner,
        local,
    );
    lemma_sorted_distinct(routing.read_keys@);
    lemma_sorted_distinct(routing.write_keys@);
    lemma_sorted_distinct(routing.provision_keys@);
    if routing.read_prefixes@.contains(owner) {
        lemma_owner_has_a_key(routing.read_keys@, routing.read_prefixes@, effects, reads, owner);
    }
    if routing.write_prefixes@.contains(owner) {
        lemma_owner_has_a_key(routing.write_keys@, routing.write_prefixes@, effects, writes, owner);
    }
    if routing.provision_prefixes@.contains(owner) {
        lemma_owner_has_a_key(
            routing.provision_keys@,
            routing.provision_prefixes@,
            effects,
            needs,
            owner,
        );
    }
}

proof fn lemma_owner_has_a_key(
    keys: Seq<DeclaredKey>,
    owners: Seq<[u8; 16]>,
    effects: Seq<Effect>,
    pick: spec_fn(Mode) -> bool,
    owner: [u8; 16],
)
    requires
        lists_keys(keys, keys_where(effects, pick)),
        lists_owners(owners, keys_where(effects, pick)),
        owners.contains(owner),
    ensures
        exists|l: Option<[u8; 16]>| #[trigger]
            keys.contains(DeclaredKey::Prefix { owner, local: l }),
{
    let set = keys_where(effects, pick);
    assert(owners.to_set().contains(owner));
    assert(set.map(|k: DeclaredKey| owner_of(k)).contains(owner));
    let k = choose|k: DeclaredKey| set.contains(k) && owner_of(k) == owner;
    lemma_keys_are_prefixes(effects, pick);
    assert(k is Prefix);
    let l = k->local;
    assert(k == DeclaredKey::Prefix { owner, local: l });
    assert(keys.to_set().contains(k));
}

/// A publish excludes others from its package's cell and its payer's vault and
/// from nothing else, under its publisher alone; it shares, provisions, pins and
/// binds nothing.
pub proof fn law_a_publish_touches_two_cells(
    d: VmDerived,
    publisher: [u8; 16],
    cell: SubstateKey,
    vault: SubstateKey,
    key: DeclaredKey,
)
    requires
        publishes(d, publisher, cell, vault),
    ensures
        d.routing.write_keys@.contains(key) <==> key == (DeclaredKey::Prefix {
            owner: cell.owner,
            local: Some(cell.local),
        }) || key == (DeclaredKey::Prefix { owner: vault.owner, local: Some(vault.local) }),
        d.routing.write_prefixes@.len() == 1 && d.routing.write_prefixes@[0] == publisher,
        d.routing.read_keys@.len() == 0 && d.routing.read_prefixes@.len() == 0,
        d.routing.provision_keys@.len() == 0 && d.routing.provision_prefixes@.len() == 0,
        d.subintent_hashes@.len() == 0 && d.snapshot_targets@.len() == 0,
        d.fee_vault_local == vault.local,
{
    assert(d.routing.write_keys@.to_set().contains(key) == d.routing.write_keys@.contains(key));
}

/// A call is accepted exactly where it carries as many signatures as its tree has
/// subintents, and each is of a key whose account is the subintent's signer.
pub proof fn law_every_subintent_is_signed_for(vm: VmTransaction, tree: EnvelopeTree)
    ensures
        call_accepted(vm, tree) <==> vm.subintent_sigs@.len() == tree.subintents@.len() && forall|
            i: int,
        |
            #![trigger vm.subintent_sigs@[i]]
            #![trigger tree.subintents@[i]]
            0 <= i < tree.subintents@.len() ==> account_of(vm.subintent_sigs@[i].public_key@)
                == tree.subintents@[i].signer@,
{
    if call_accepted(vm, tree) {
        assert forall|i: int|
            #![trigger vm.subintent_sigs@[i]]
            #![trigger tree.subintents@[i]]
            0 <= i < tree.subintents@.len() implies account_of(vm.subintent_sigs@[i].public_key@)
            == tree.subintents@[i].signer@ by {
            assert(signer_matches(vm, tree, i));
        }
    }
    if vm.subintent_sigs@.len() == tree.subintents@.len() && forall|i: int|
        #![trigger vm.subintent_sigs@[i]]
        #![trigger tree.subintents@[i]]
        0 <= i < tree.subintents@.len() ==> account_of(vm.subintent_sigs@[i].public_key@)
            == tree.subintents@[i].signer@ {
        assert forall|j: int| 0 <= j < tree.subintents@.len() implies #[trigger] signer_matches(
            vm,
            tree,
            j,
        ) by {
            assert(account_of(vm.subintent_sigs@[j].public_key@) == tree.subintents@[j].signer@);
        }
    }
}

/// Why a call is refused, in the order of the questions: its bytes read as no
/// tree, its tree has another number of subintents than it carries signatures,
/// or a subintent's signer is not the account of the key that signs for it, and
/// then the first such.
pub proof fn law_a_call_is_refused_for_the_first_reason(
    vm: VmTransaction,
    bytes: Seq<u8>,
    e: VmStaticsError,
)
    requires
        call_refused_as(vm, bytes, e),
    ensures
        e is TreeMalformed <==> forall|x: EnvelopeTree| !#[trigger] is_read_as(bytes, x),
        e is TreeMalformed || e is SubintentCount || e is SubintentSigner,
        e is SubintentCount ==> exists|tree: EnvelopeTree| #[trigger]
            is_read_as(bytes, tree) && e->bound == tree.subintents@.len() && e->carried
                == vm.subintent_sigs@.len() && e->bound != e->carried,
        e is SubintentSigner ==> exists|tree: EnvelopeTree| #[trigger]
            is_read_as(bytes, tree) && vm.subintent_sigs@.len() == tree.subintents@.len() && e->index
                < tree.subintents@.len() && account_of(
                vm.subintent_sigs@[e->index as int].public_key@,
            ) != tree.subintents@[e->index as int].signer@ && forall|j: int|
                #![trigger tree.subintents@[j]]
                0 <= j < e->index ==> account_of(vm.subintent_sigs@[j].public_key@)
                    == tree.subintents@[j].signer@,
{
    if exists|x: EnvelopeTree| #[trigger] is_read_as(bytes, x) {
        let tree = choose|tree: EnvelopeTree| #[trigger]
            is_read_as(bytes, tree) && if vm.subintent_sigs@.len() != tree.subintents@.len() {
                e is SubintentCount && e->bound == tree.subintents@.len() && e->carried
                    == vm.subintent_sigs@.len()
            } else {
                &&& e is SubintentSigner
                &&& e->index < tree.subintents@.len()
                &&& !signer_matches(vm, tree, e->index as int)
                &&& forall|j: int| 0 <= j < e->index ==> #[trigger] signer_matches(vm, tree, j)
            };
        assert(is_read_as(bytes, tree));
        if e is SubintentSigner {
            assert forall|j: int|
                #![trigger tree.subintents@[j]]
                0 <= j < e->index implies account_of(vm.subintent_sigs@[j].public_key@)
                == tree.subintents@[j].signer@ by {
                assert(signer_matches(vm, tree, j));
            }
        }
    }
}

/// A call's snapshot obligations are all cells, or there is a first that is none.
pub proof fn law_obligations_are_cells_or_one_is_not(targets: Seq<EffectTarget>)
    ensures
        all_points(targets) <==> targets.filter(|t: EffectTarget| t is Point) == targets,
    decreases targets.len(),
{
    reveal(Seq::filter);
    if targets.len() > 0 {
        let rest = targets.drop_last();
        law_obligations_are_cells_or_one_is_not(rest);
        let kept = rest.filter(|t: EffectTarget| t is Point);
        lemma_filter_len(rest);
        if all_points(targets) {
            assert forall|i: int| 0 <= i < rest.len() implies (#[trigger] rest[i]) is Point by {
                assert(targets[i] == rest[i]);
            }
            assert(targets[targets.len() - 1] is Point);
            assert(kept.push(targets.last()) =~= targets);
        }
        if targets.filter(|t: EffectTarget| t is Point) == targets {
            if targets.last() is Point {
                assert(kept.push(targets.last()).drop_last() =~= kept);
                assert(kept =~= rest);
                assert forall|i: int| 0 <= i < targets.len() implies (#[trigger] targets[i])
                    is Point by {
                    if i < rest.len() {
                        assert(rest[i] is Point);
                    }
                }
            } else {
                assert(kept.len() == targets.len());
            }
        }
    }
}

proof fn lemma_filter_len(targets: Seq<EffectTarget>)
    ensures
        targets.filter(|t: EffectTarget| t is Point).len() <= targets.len(),
    decreases targets.len(),
{
    reveal(Seq::filter);
    if targets.len() > 0 {
        lemma_filter_len(targets.drop_last());
    }
}

} // verus!
