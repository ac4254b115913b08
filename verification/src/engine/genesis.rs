//! Genesis: the world that every node starts from.
use vstd::prelude::*;

use crate::bridge::account::VM_XRD;
use crate::bridge::artifact::{attach_metadata, attach_refused_as, declared, section};
use crate::bridge::checks::MetadataLimits;
use crate::bridge::error::{FramingFault, VmStaticsError};
use crate::bridge::metadata::{section_of, PackageMetadata};
use crate::bridge::package::{admit_package, backs, package_refused_as};
use crate::bridge::roles::{derive_key, derives, key_by, package_key, vault_key, CellRole};
use crate::bridge::sbor_value::sbor_payload;
use crate::bridge::staking::{
    InstanceMeta, InstanceRegistry, PackageHash, PoolRegistry, StakePoolId,
};
use crate::bridge::value::Value;
use crate::bridge::wire::Wire;
use crate::bytes::{le_value, lemma_le_round_trip, lemma_widths};
use crate::crypto::role::ConsensusPublicKey;
use crate::engine::commit::{is_content_of, writes_to_updates};
use crate::engine::fold::{amount_cell, encode_amount, Cells};
use crate::list::{last_at, lemma_last_at, some_at};
use crate::sorted::{strictly_sorted, SortedMap};
use crate::storage::canonical::copy_bytes;
use crate::storage::updates::DatabaseUpdates;
use crate::storage::writes::StateWrites;
use crate::types::SubstateKey;

verus! {

/// The prefix that genesis publishes under. No key derives it, so nothing can
/// publish beside it or spend from it.
pub const GENESIS_PUBLISHER: [u8; 16] = [0, 0, 0, 0, 0, 0, 0, 0, 0, 0, 0, 0, 0, 0, 0, 0];

/// A stake pool that genesis seats.
#[derive(Debug, PartialEq, Eq)]
pub struct StakePoolSeat {
    /// The pool's address.
    pub address: [u8; 16],
    /// The identifier that the beacon folds it under.
    pub id: StakePoolId,
    /// The account that its operator surface admits.
    pub operator: [u8; 16],
    /// The validators that it operates from the start.
    pub founding: Vec<(u64, ConsensusPublicKey)>,
}

/// What genesis is made from.
#[derive(Debug)]
pub struct GenesisConfig {
    /// The funded accounts and their balances.
    pub accounts: Vec<([u8; 16], u128)>,
    /// The seated pools.
    pub pools: Vec<StakePoolSeat>,
}

impl Default for GenesisConfig {
    fn default() -> (c: Self)
        ensures
            c.accounts@.len() == 0,
            c.pools@.len() == 0,
    {
        GenesisConfig { accounts: Vec::new(), pools: Vec::new() }
    }
}

/// A package of the standard library: its artifact and the content address
/// that covers it.
#[derive(Clone, Copy, Debug)]
pub struct StdlibPackage<'a> {
    /// The content address.
    pub hash: PackageHash,
    /// The artifact, metadata section and all.
    pub artifact: &'a [u8],
}

/// The account package as a publishable artifact: the committed component with
/// its metadata attached.
pub fn account_artifact(
    component: &[u8],
    metadata: &PackageMetadata,
    lim: &MetadataLimits,
) -> (r: Result<Vec<u8>, VmStaticsError>)
    requires
        lim.wf(),
        metadata.wf(),
    ensures
        match r {
            Ok(out) => {
                &&& declared(component@) == Ok::<Option<(int, int)>, FramingFault>(None)
                &&& section_of(sbor_payload(metadata.tree()), *metadata, *lim)
                &&& out@ == component@ + section(sbor_payload(metadata.tree()))
            },
            Err(e) => attach_refused_as(component@, *metadata, *lim, e),
        },
{
    attach_metadata(component, metadata, lim)
}

/// The stake pool package as a publishable artifact, made the same way.
pub fn staking_artifact(
    component: &[u8],
    metadata: &PackageMetadata,
    lim: &MetadataLimits,
) -> (r: Result<Vec<u8>, VmStaticsError>)
    requires
        lim.wf(),
        metadata.wf(),
    ensures
        match r {
            Ok(out) => {
                &&& declared(component@) == Ok::<Option<(int, int)>, FramingFault>(None)
                &&& section_of(sbor_payload(metadata.tree()), *metadata, *lim)
                &&& out@ == component@ + section(sbor_payload(metadata.tree()))
            },
            Err(e) => attach_refused_as(component@, *metadata, *lim, e),
        },
{
    attach_metadata(component, metadata, lim)
}

/// The resource that a pool issues against delegations: derived from the pool,
/// so that a holder's units name the pool that owes them.
pub open spec fn unit_of<K: Fn(CellRole) -> SubstateKey>(pool: [u8; 16], f: K) -> [u8; 16] {
    key_by(f, CellRole::Vault { owner: pool, resource: VM_XRD }).local
}

/// The resource that a pool issues against delegations.
#[must_use]
pub fn stake_unit<K: Fn(CellRole) -> SubstateKey>(pool: [u8; 16], cell_key: &K) -> (unit: [u8; 16])
    requires
        derives(*cell_key),
    ensures
        unit == unit_of(pool, *cell_key),
{
    vault_key(cell_key, pool, VM_XRD).local
}

/// The world at genesis.
pub struct VmWorld {
    /// The published packages, by content address.
    pub cache: SortedMap<[u8; 32], PackageMetadata>,
    /// The instances.
    pub instances: InstanceRegistry,
    /// The account package.
    pub account_package: PackageHash,
    /// The stake pool package.
    pub staking_package: PackageHash,
    /// The pools that the beacon folds for.
    pub pools: PoolRegistry,
}

/// An instance runs a package with a configuration.
pub open spec fn runs_package(meta: InstanceMeta, package: PackageHash, config: Seq<Value>) -> bool {
    meta.package == package && meta.config@ == config
}

/// An account is funded.
pub open spec fn is_funded(accounts: Seq<([u8; 16], u128)>, address: [u8; 16]) -> bool {
    exists|i: int| 0 <= i < accounts.len() && (#[trigger] accounts[i]).0 == address
}

/// The seat at an address; of two, the later one.
pub open spec fn seat_at(pools: Seq<StakePoolSeat>, address: [u8; 16]) -> Option<StakePoolSeat>
    decreases pools.len(),
{
    if pools.len() == 0 {
        None
    } else if pools.last().address == address {
        Some(pools.last())
    } else {
        seat_at(pools.drop_last(), address)
    }
}

/// The configuration of a pool: what it stakes, what it issues, and who
/// operates it.
pub open spec fn pool_config<K: Fn(CellRole) -> SubstateKey>(seat: StakePoolSeat, f: K) -> Seq<
    Value,
> {
    seq![
        Value::Address(VM_XRD),
        Value::Address(unit_of(seat.address, f)),
        Value::Address(seat.operator),
    ]
}

/// Every funded address is an account and every seated one a pool; a seat
/// takes precedence. Nothing else is an instance.
pub open spec fn binds<K: Fn(CellRole) -> SubstateKey>(
    instances: Map<[u8; 16], InstanceMeta>,
    accounts: Seq<([u8; 16], u128)>,
    pools: Seq<StakePoolSeat>,
    account_package: PackageHash,
    staking_package: PackageHash,
    f: K,
) -> bool {
    forall|a: [u8; 16]|
        match seat_at(pools, a) {
            Some(seat) => #[trigger] instances.contains_key(a) && runs_package(
                instances[a],
                staking_package,
                pool_config(seat, f),
            ),
            None => if is_funded(accounts, a) {
                instances.contains_key(a) && runs_package(
                    instances[a],
                    account_package,
                    Seq::empty(),
                )
            } else {
                !instances.contains_key(a)
            },
        }
}

/// Exactly the seated pools are recognised, each under its own identifier.
pub open spec fn recognises(
    registry: Map<[u8; 16], StakePoolId>,
    pools: Seq<StakePoolSeat>,
) -> bool {
    forall|a: [u8; 16]|
        match seat_at(pools, a) {
            Some(seat) => #[trigger] registry.contains_key(a) && registry[a] == seat.id,
            None => !registry.contains_key(a),
        }
}

/// The world for funded accounts and seated pools: both packages published as
/// their artifacts admit them, one instance for each address. An artifact that
/// would not be admitted makes no world.
pub fn genesis_world_with_pools<K: Fn(CellRole) -> SubstateKey>(
    account: &StdlibPackage,
    staking: &StdlibPackage,
    lim: &MetadataLimits,
    accounts: &[([u8; 16], u128)],
    pools: &[StakePoolSeat],
    cell_key: &K,
) -> (r: Result<VmWorld, VmStaticsError>)
    requires
        lim.wf(),
        derives(*cell_key),
    ensures
        match r {
            Ok(world) => {
                &&& world.account_package == account.hash
                &&& world.staking_package == staking.hash
                &&& world.cache@.contains_key(staking.hash.0)
                &&& backs(staking.artifact@, world.cache@[staking.hash.0], *lim)
                &&& world.cache@.contains_key(account.hash.0)
                &&& account.hash != staking.hash ==> backs(
                    account.artifact@,
                    world.cache@[account.hash.0],
                    *lim,
                )
                &&& forall|h: [u8; 32]| #[trigger]
                    world.cache@.contains_key(h) ==> h == account.hash.0 || h == staking.hash.0
                &&& binds(
                    world.instances@,
                    accounts@,
                    pools@,
                    account.hash,
                    staking.hash,
                    *cell_key,
                )
                &&& recognises(world.pools@, pools@)
            },
            Err(e) => package_refused_as(account.artifact@, *lim, e) || package_refused_as(
                staking.artifact@,
                *lim,
                e,
            ),
        },
{
    let mut cache: SortedMap<[u8; 32], PackageMetadata> = SortedMap::new();
    let metadata = match admit_package(account.artifact, lim) {
        Ok(m) => m,
        Err(e) => return Err(e),
    };
    let issued = match admit_package(staking.artifact, lim) {
        Ok(m) => m,
        Err(e) => return Err(e),
    };
    cache.insert(account.hash.0, metadata);
    cache.insert(staking.hash.0, issued);
    proof {
        if account.hash != staking.hash {
            assert(account.hash.0 != staking.hash.0);
        }
    }
    let mut instances = InstanceRegistry::new();
    let mut i: usize = 0;
    while i < accounts.len()
        invariant
            i <= accounts@.len(),
            forall|a: [u8; 16]| #[trigger]
                instances@.contains_key(a) <==> is_funded(accounts@.take(i as int), a),
            forall|a: [u8; 16]| #[trigger]
                instances@.contains_key(a) ==> runs_package(
                    instances@[a],
                    account.hash,
                    Seq::empty(),
                ),
        decreases accounts@.len() - i,
    {
        let ghost before = instances@;
        let address = accounts[i].0;
        let config: Vec<Value> = Vec::new();
        assert(config@ =~= Seq::<Value>::empty());
        instances.register(address, InstanceMeta { package: account.hash, config });
        proof {
            let now = accounts@.take(i as int);
            let next = accounts@.take(i + 1);
            assert forall|a: [u8; 16]| #[trigger]
                instances@.contains_key(a) <==> is_funded(next, a) by {
                if is_funded(now, a) {
                    let j = choose|j: int| 0 <= j < now.len() && (#[trigger] now[j]).0 == a;
                    assert(next[j].0 == a);
                }
                if a == address {
                    assert(next[i as int].0 == a);
                }
                if is_funded(next, a) && a != address {
                    let j = choose|j: int| 0 <= j < next.len() && (#[trigger] next[j]).0 == a;
                    assert(now[j].0 == a);
                }
                assert(before.contains_key(a) <==> is_funded(now, a));
            }
        }
        i = i + 1;
    }
    assert(accounts@.take(accounts@.len() as int) =~= accounts@);
    let mut registry = PoolRegistry::new();
    let mut j: usize = 0;
    assert(pools@.take(0) =~= Seq::empty());
    assert(binds(
        instances@,
        accounts@,
        pools@.take(0),
        account.hash,
        staking.hash,
        *cell_key,
    ));
    while j < pools.len()
        invariant
            j <= pools@.len(),
            derives(*cell_key),
            binds(
                instances@,
                accounts@,
                pools@.take(j as int),
                account.hash,
                staking.hash,
                *cell_key,
            ),
            recognises(registry@, pools@.take(j as int)),
        decreases pools@.len() - j,
    {
        let seat = &pools[j];
        let ghost before = instances@;
        let ghost known = registry@;
        let mut config: Vec<Value> = Vec::new();
        config.push(Value::Address(VM_XRD));
        config.push(Value::Address(stake_unit(seat.address, cell_key)));
        config.push(Value::Address(seat.operator));
        assert(config@ =~= pool_config(*seat, *cell_key));
        instances.register(seat.address, InstanceMeta { package: staking.hash, config });
        registry.register(seat.address, seat.id);
        proof {
            let now = pools@.take(j as int);
            let next = pools@.take(j + 1);
            assert(next.drop_last() =~= now);
            assert forall|a: [u8; 16]|
                match seat_at(next, a) {
                    Some(s) => #[trigger] instances@.contains_key(a) && runs_package(
                        instances@[a],
                        staking.hash,
                        pool_config(s, *cell_key),
                    ),
                    None => if is_funded(accounts@, a) {
                        instances@.contains_key(a) && runs_package(
                            instances@[a],
                            account.hash,
                            Seq::empty(),
                        )
                    } else {
                        !instances@.contains_key(a)
                    },
                } by {
                assert(before.contains_key(a) || !before.contains_key(a));
            }
            assert forall|a: [u8; 16]|
                match seat_at(next, a) {
                    Some(s) => #[trigger] registry@.contains_key(a) && registry@[a] == s.id,
                    None => !registry@.contains_key(a),
                } by {
                assert(known.contains_key(a) || !known.contains_key(a));
            }
        }
        j = j + 1;
    }
    assert(pools@.take(pools@.len() as int) =~= pools@);
    Ok(
        VmWorld {
            cache,
            instances,
            account_package: account.hash,
            staking_package: staking.hash,
            pools: registry,
        },
    )
}

/// The world for funded accounts, with no pool seated.
pub fn genesis_world<K: Fn(CellRole) -> SubstateKey>(
    account: &StdlibPackage,
    staking: &StdlibPackage,
    lim: &MetadataLimits,
    accounts: &[([u8; 16], u128)],
    cell_key: &K,
) -> (r: Result<VmWorld, VmStaticsError>)
    requires
        lim.wf(),
        derives(*cell_key),
    ensures
        match r {
            Ok(world) => {
                &&& world.account_package == account.hash
                &&& world.staking_package == staking.hash
                &&& world.cache@.contains_key(account.hash.0)
                &&& account.hash != staking.hash ==> backs(
                    account.artifact@,
                    world.cache@[account.hash.0],
                    *lim,
                )
                &&& forall|a: [u8; 16]|
                    #![trigger world.instances@.contains_key(a)]
                    world.instances@.contains_key(a) == is_funded(accounts@, a) && (is_funded(
                        accounts@,
                        a,
                    ) ==> runs_package(world.instances@[a], account.hash, Seq::empty()))
                &&& world.pools@ == Map::<[u8; 16], StakePoolId>::empty()
            },
            Err(e) => package_refused_as(account.artifact@, *lim, e) || package_refused_as(
                staking.artifact@,
                *lim,
                e,
            ),
        },
{
    let pools: Vec<StakePoolSeat> = Vec::new();
    let r = genesis_world_with_pools(account, staking, lim, accounts, pools.as_slice(), cell_key);
    proof {
        if r is Ok {
            let world = r->Ok_0;
            assert(forall|a: [u8; 16]| seat_at(pools@, a) is None);
            assert(world.pools@ =~= Map::<[u8; 16], StakePoolId>::empty());
        }
    }
    r
}

/// The cells of each owner.
pub type Plots = Map<[u8; 16], Map<[u8; 16], Seq<u8>>>;

/// The cells that plots hold.
pub open spec fn cells_of(plots: Plots) -> Cells {
    Map::new(
        |k: SubstateKey| plots.contains_key(k.owner) && plots[k.owner].contains_key(k.local),
        |k: SubstateKey| Some(plots[k.owner][k.local]),
    )
}

/// A pool's record of validators: each one's key under its record cell.
pub open spec fn founding_cells<K: Fn(CellRole) -> SubstateKey>(
    pool: [u8; 16],
    founding: Seq<(u64, ConsensusPublicKey)>,
    f: K,
) -> Map<[u8; 16], Seq<u8>>
    decreases founding.len(),
{
    if founding.len() == 0 {
        Map::empty()
    } else {
        founding_cells(pool, founding.drop_last(), f).insert(
            key_by(f, CellRole::Validator { owner: pool, id: founding.last().0 }).local,
            founding.last().1.bytes(),
        )
    }
}

/// Plots with the records of seated pools: each replaces what stood under the
/// pool's address. A pool that operates nobody has no record.
pub open spec fn with_seats<K: Fn(CellRole) -> SubstateKey>(
    plots: Plots,
    pools: Seq<StakePoolSeat>,
    f: K,
) -> Plots
    decreases pools.len(),
{
    if pools.len() == 0 {
        plots
    } else {
        let before = with_seats(plots, pools.drop_last(), f);
        let seat = pools.last();
        if seat.founding@.len() == 0 {
            before
        } else {
            before.insert(seat.address, founding_cells(seat.address, seat.founding@, f))
        }
    }
}

/// Plots with the vaults of funded accounts: each replaces what stood under
/// the account's address.
pub open spec fn with_accounts<K: Fn(CellRole) -> SubstateKey>(
    plots: Plots,
    accounts: Seq<([u8; 16], u128)>,
    f: K,
) -> Plots
    decreases accounts.len(),
{
    if accounts.len() == 0 {
        plots
    } else {
        let before = with_accounts(plots, accounts.drop_last(), f);
        let vault = key_by(f, CellRole::Vault { owner: accounts.last().0, resource: VM_XRD });
        before.insert(
            vault.owner,
            Map::empty().insert(vault.local, amount_cell(accounts.last().1 as nat)),
        )
    }
}

/// The published package as a cell under the genesis publisher.
pub open spec fn with_package<K: Fn(CellRole) -> SubstateKey>(
    package: Option<StdlibPackage>,
    f: K,
) -> Plots {
    match package {
        Some(p) => {
            let cell = key_by(
                f,
                CellRole::Package { owner: GENESIS_PUBLISHER, package: p.hash.0 },
            );
            Map::empty().insert(cell.owner, Map::empty().insert(cell.local, p.artifact@))
        },
        None => Map::empty(),
    }
}

/// The plots of genesis: the published package, then the seated pools' records,
/// then the funded accounts' vaults.
pub open spec fn genesis_plots<K: Fn(CellRole) -> SubstateKey>(
    package: Option<StdlibPackage>,
    accounts: Seq<([u8; 16], u128)>,
    pools: Seq<StakePoolSeat>,
    f: K,
) -> Plots {
    with_accounts(with_seats(with_package(package, f), pools, f), accounts, f)
}

/// What plots hold, as they read.
spec fn plots_view(m: Map<[u8; 16], SortedMap<[u8; 16], Vec<u8>>>) -> Plots {
    m.map_values(|cells: SortedMap<[u8; 16], Vec<u8>>| plot_view(cells@))
}

spec fn plot_view(m: Map<[u8; 16], Vec<u8>>) -> Map<[u8; 16], Seq<u8>> {
    m.map_values(|v: Vec<u8>| v@)
}

fn found<K: Fn(CellRole) -> SubstateKey>(seat: &StakePoolSeat, cell_key: &K) -> (cells: SortedMap<
    [u8; 16],
    Vec<u8>,
>)
    requires
        derives(*cell_key),
    ensures
        plot_view(cells@) == founding_cells(seat.address, seat.founding@, *cell_key),
{
    let mut cells: SortedMap<[u8; 16], Vec<u8>> = SortedMap::new();
    let mut i: usize = 0;
    assert(seat.founding@.take(0) =~= Seq::empty());
    assert(plot_view(cells@) =~= founding_cells(seat.address, seat.founding@.take(0), *cell_key));
    while i < seat.founding.len()
        invariant
            i <= seat.founding@.len(),
            derives(*cell_key),
            plot_view(cells@) == founding_cells(
                seat.address,
                seat.founding@.take(i as int),
                *cell_key,
            ),
        decreases seat.founding@.len() - i,
    {
        let ghost before = cells@;
        let key = derive_key(
            cell_key,
            CellRole::Validator { owner: seat.address, id: seat.founding[i].0 },
        );
        let mut bytes: Vec<u8> = Vec::new();
        bytes.extend_from_slice(seat.founding[i].1.as_bytes().as_slice());
        assert(bytes@ =~= seat.founding@[i as int].1.bytes());
        cells.insert(key.local, bytes);
        assert(plot_view(cells@) =~= plot_view(before).insert(key.local, bytes@));
        assert(seat.founding@.take(i + 1).drop_last() =~= seat.founding@.take(i as int));
        i = i + 1;
    }
    assert(seat.founding@.take(seat.founding@.len() as int) =~= seat.founding@);
    cells
}

fn single(local: [u8; 16], bytes: Vec<u8>) -> (cells: SortedMap<[u8; 16], Vec<u8>>)
    ensures
        plot_view(cells@) == Map::<[u8; 16], Seq<u8>>::empty().insert(local, bytes@),
{
    let mut cells: SortedMap<[u8; 16], Vec<u8>> = SortedMap::new();
    cells.insert(local, bytes);
    assert(plot_view(cells@) =~= Map::<[u8; 16], Seq<u8>>::empty().insert(local, bytes@));
    cells
}

fn plant(
    plots: &mut SortedMap<[u8; 16], SortedMap<[u8; 16], Vec<u8>>>,
    owner: [u8; 16],
    cells: SortedMap<[u8; 16], Vec<u8>>,
)
    ensures
        plots_view(final(plots)@) == plots_view(old(plots)@).insert(owner, plot_view(cells@)),
{
    let ghost before = plots@;
    plots.insert(owner, cells);
    assert(plots_view(plots@) =~= plots_view(before).insert(owner, plot_view(cells@)));
}

/// The cells of the first `n` owners, and the first `m` of the next one.
spec fn gathered(
    plots: Plots,
    owners: Seq<[u8; 16]>,
    n: int,
    locals: Seq<[u8; 16]>,
    m: int,
) -> Cells {
    Map::new(
        |k: SubstateKey|
            plots.contains_key(k.owner) && plots[k.owner].contains_key(k.local) && (
            owners.take(n).contains(k.owner) || (k.owner == owners[n] && locals.take(m).contains(
                k.local,
            ))),
        |k: SubstateKey| Some(plots[k.owner][k.local]),
    )
}

fn gather(plots: &SortedMap<[u8; 16], SortedMap<[u8; 16], Vec<u8>>>) -> (writes: StateWrites)
    ensures
        writes@ == cells_of(plots_view(plots@)),
{
    let ghost view = plots_view(plots@);
    let count: usize = plots.len();
    let ghost owners = plots.order();
    let mut writes = StateWrites::new();
    let mut i: usize = 0;
    assert(owners.take(0) =~= Seq::empty());
    assert(writes@ =~= gathered(view, owners, 0, Seq::empty(), 0)) by {
        assert(Seq::<[u8; 16]>::empty().take(0) =~= Seq::empty());
    }
    while i < count
        invariant
            i <= count,
            count == owners.len(),
            owners == plots.order(),
            view == plots_view(plots@),
            plots@.dom() == owners.to_set(),
            strictly_sorted(owners),
            writes@ == gathered(view, owners, i as int, Seq::empty(), 0),
        decreases count - i,
    {
        let owner = plots.key_at(i);
        let cells = plots.value_at(i);
        let size: usize = cells.len();
        let ghost locals = cells.order();
        let mut j: usize = 0;
        proof {
            assert(locals.take(0) =~= Seq::empty());
            assert(Seq::<[u8; 16]>::empty().take(0) =~= Seq::empty());
            assert(writes@ =~= gathered(view, owners, i as int, locals, 0));
            assert(view[owner] == plot_view(cells@));
        }
        while j < size
            invariant
                i < count,
                count == owners.len(),
                owners == plots.order(),
                view == plots_view(plots@),
                view.contains_key(owner),
                owner == owners[i as int],
                view[owner] == plot_view(cells@),
                j <= size,
                size == locals.len(),
                locals == cells.order(),
                cells@.dom() == locals.to_set(),
                writes@ == gathered(view, owners, i as int, locals, j as int),
            decreases size - j,
        {
            let local = cells.key_at(j);
            let ghost before = writes@;
            let key = SubstateKey { owner, local };
            writes.insert(key, Some(copy_bytes(cells.value_at(j))));
            proof {
                crate::sorted::lemma_take_next(locals, j as int);
                assert(view[owner].contains_key(local));
                assert(writes@ =~= gathered(view, owners, i as int, locals, j + 1));
            }
            j = j + 1;
        }
        proof {
            assert(locals.take(size as int) =~= locals);
            crate::sorted::lemma_take_next(owners, i as int);
            assert(Seq::<[u8; 16]>::empty().take(0) =~= Seq::empty());
            assert forall|l: [u8; 16]| view[owner].contains_key(l) == locals.contains(l) by {
                assert(locals.to_set().contains(l) == locals.contains(l));
            }
            assert(writes@ =~= gathered(view, owners, i + 1, Seq::empty(), 0));
        }
        i = i + 1;
    }
    proof {
        assert(owners.take(count as int) =~= owners);
        assert(Seq::<[u8; 16]>::empty().take(0) =~= Seq::empty());
        assert forall|o: [u8; 16]| view.contains_key(o) == owners.contains(o) by {
            assert(owners.to_set().contains(o) == owners.contains(o));
        }
        assert(writes@ =~= cells_of(view));
    }
    writes
}

/// What genesis writes: the published package under the publisher that no key
/// derives, each pool's record of the validators it operates, and each funded
/// account's vault. A later write under an address replaces an earlier one.
#[must_use]
pub fn vm_genesis_updates<K: Fn(CellRole) -> SubstateKey>(
    package: Option<StdlibPackage>,
    accounts: &[([u8; 16], u128)],
    pools: &[StakePoolSeat],
    cell_key: &K,
) -> (updates: DatabaseUpdates)
    requires
        derives(*cell_key),
    ensures
        updates.wf(),
        updates.sorted(),
        updates.delta_only(),
        is_content_of(
            updates.content(),
            cells_of(genesis_plots(package, accounts@, pools@, *cell_key)),
        ),
{
    let mut plots: SortedMap<[u8; 16], SortedMap<[u8; 16], Vec<u8>>> = SortedMap::new();
    assert(plots_view(plots@) =~= Map::<[u8; 16], Map<[u8; 16], Seq<u8>>>::empty());
    match package {
        Some(p) => {
            let cell = package_key(cell_key, GENESIS_PUBLISHER, p.hash.0);
            let mut bytes: Vec<u8> = Vec::new();
            bytes.extend_from_slice(p.artifact);
            assert(bytes@ =~= p.artifact@);
            plant(&mut plots, cell.owner, single(cell.local, bytes));
        },
        None => {},
    }
    let ghost start = with_package(package, *cell_key);
    assert(plots_view(plots@) == start);
    let mut i: usize = 0;
    assert(pools@.take(0) =~= Seq::empty());
    while i < pools.len()
        invariant
            i <= pools@.len(),
            derives(*cell_key),
            plots_view(plots@) == with_seats(start, pools@.take(i as int), *cell_key),
        decreases pools@.len() - i,
    {
        let seat = &pools[i];
        if seat.founding.len() > 0 {
            plant(&mut plots, seat.address, found(seat, cell_key));
        }
        assert(pools@.take(i + 1).drop_last() =~= pools@.take(i as int));
        i = i + 1;
    }
    assert(pools@.take(pools@.len() as int) =~= pools@);
    let ghost seated = plots_view(plots@);
    let mut j: usize = 0;
    assert(accounts@.take(0) =~= Seq::empty());
    while j < accounts.len()
        invariant
            j <= accounts@.len(),
            derives(*cell_key),
            plots_view(plots@) == with_accounts(seated, accounts@.take(j as int), *cell_key),
        decreases accounts@.len() - j,
    {
        let vault = vault_key(cell_key, accounts[j].0, VM_XRD);
        plant(&mut plots, vault.owner, single(vault.local, encode_amount(accounts[j].1)));
        assert(accounts@.take(j + 1).drop_last() =~= accounts@.take(j as int));
        j = j + 1;
    }
    assert(accounts@.take(accounts@.len() as int) =~= accounts@);
    let writes = gather(&plots);
    writes_to_updates(&writes)
}

/// Every funded account starts with its balance: its vault, and nothing else,
/// stands under its address, unless a later entry funds the same address.
pub proof fn law_funded_accounts_hold_their_balance<K: Fn(CellRole) -> SubstateKey>(
    plots: Plots,
    accounts: Seq<([u8; 16], u128)>,
    f: K,
    i: int,
)
    requires
        0 <= i < accounts.len(),
        forall|j: int|
            i < j < accounts.len() ==> key_by(
                f,
                CellRole::Vault { owner: (#[trigger] accounts[j]).0, resource: VM_XRD },
            ).owner != key_by(
                f,
                CellRole::Vault { owner: accounts[i].0, resource: VM_XRD },
            ).owner,
    ensures
        ({
            let vault = key_by(f, CellRole::Vault { owner: accounts[i].0, resource: VM_XRD });
            let done = with_accounts(plots, accounts, f);
            &&& done.contains_key(vault.owner)
            &&& done[vault.owner] == Map::<[u8; 16], Seq<u8>>::empty().insert(
                vault.local,
                amount_cell(accounts[i].1 as nat),
            )
        }),
    decreases accounts.len(),
{
    if i < accounts.len() - 1 {
        let rest = accounts.drop_last();
        assert(rest[i] == accounts[i]);
        assert forall|j: int| i < j < rest.len() implies key_by(
            f,
            CellRole::Vault { owner: (#[trigger] rest[j]).0, resource: VM_XRD },
        ).owner != key_by(f, CellRole::Vault { owner: rest[i].0, resource: VM_XRD }).owner by {
            assert(rest[j] == accounts[j]);
        }
        law_funded_accounts_hold_their_balance(plots, rest, f, i);
        assert(accounts[accounts.len() - 1] == accounts.last());
    }
}

/// Only a seated pool speaks to the beacon: running the stake pool package
/// recognises nobody.
pub proof fn law_only_seated_pools_are_recognised(
    registry: Map<[u8; 16], StakePoolId>,
    pools: Seq<StakePoolSeat>,
    address: [u8; 16],
)
    requires
        recognises(registry, pools),
        forall|i: int| 0 <= i < pools.len() ==> (#[trigger] pools[i]).address != address,
    ensures
        !registry.contains_key(address),
{
    lemma_no_seat(pools, address);
}

proof fn lemma_no_seat(pools: Seq<StakePoolSeat>, address: [u8; 16])
    requires
        forall|i: int| 0 <= i < pools.len() ==> (#[trigger] pools[i]).address != address,
    ensures
        seat_at(pools, address) is None,
    decreases pools.len(),
{
    if pools.len() > 0 {
        assert(pools[pools.len() - 1].address != address);
        let rest = pools.drop_last();
        assert forall|i: int| 0 <= i < rest.len() implies (#[trigger] rest[i]).address
            != address by {
            assert(rest[i] == pools[i]);
        }
        lemma_no_seat(rest, address);
    }
}

/// The last seat at an address is the one that counts, and an address without a
/// seat has none: its identifier is what the beacon recognises, and its
/// instance runs the stake pool's code for the staked resource, the unit that
/// the pool issues and its operator, in that order. Any other funded address is
/// an account that is configured by nothing, and no other address is anything.
pub proof fn law_the_last_seat_counts<K: Fn(CellRole) -> SubstateKey>(
    instances: Map<[u8; 16], InstanceMeta>,
    registry: Map<[u8; 16], StakePoolId>,
    accounts: Seq<([u8; 16], u128)>,
    pools: Seq<StakePoolSeat>,
    account_package: PackageHash,
    staking_package: PackageHash,
    f: K,
    a: [u8; 16],
)
    requires
        binds(instances, accounts, pools, account_package, staking_package, f),
        recognises(registry, pools),
    ensures
        ({
            let sits = |s: StakePoolSeat| s.address == a;
            &&& registry.contains_key(a) <==> some_at(pools, sits)
            &&& instances.contains_key(a) <==> some_at(pools, sits) || exists|i: int|
                0 <= i < accounts.len() && (#[trigger] accounts[i]).0 == a
            &&& instances.contains_key(a) && !some_at(pools, sits) ==> instances[a].package
                == account_package && instances[a].config@.len() == 0
        }),
        ({
            let sits = |s: StakePoolSeat| s.address == a;
            forall|i: int| #[trigger]
                last_at(pools, sits, i) ==> {
                    let config = instances[a].config@;
                    &&& registry[a] == pools[i].id
                    &&& instances[a].package == staking_package
                    &&& config.len() == 3
                    &&& config[0] == Value::Address(VM_XRD)
                    &&& config[1] == Value::Address(
                        key_by(f, CellRole::Vault { owner: a, resource: VM_XRD }).local,
                    )
                    &&& config[2] == Value::Address(pools[i].operator)
                }
        }),
{
    lemma_seat_at(pools, a);
    let sits = |s: StakePoolSeat| s.address == a;
    assert forall|i: int| #[trigger] last_at(pools, sits, i) implies {
        let config = instances[a].config@;
        &&& registry[a] == pools[i].id
        &&& instances[a].package == staking_package
        &&& config.len() == 3
        &&& config[0] == Value::Address(VM_XRD)
        &&& config[1] == Value::Address(
            key_by(f, CellRole::Vault { owner: a, resource: VM_XRD }).local,
        )
        &&& config[2] == Value::Address(pools[i].operator)
    } by {
        assert(seat_at(pools, a) == Some(pools[i]));
        assert(instances.contains_key(a) && registry.contains_key(a));
        assert(instances[a].config@ == pool_config(pools[i], f));
    }
}

proof fn lemma_seat_at(pools: Seq<StakePoolSeat>, a: [u8; 16])
    ensures
        ({
            let sits = |s: StakePoolSeat| s.address == a;
            &&& seat_at(pools, a) is Some <==> some_at(pools, sits)
            &&& forall|i: int| #[trigger]
                last_at(pools, sits, i) ==> seat_at(pools, a) == Some(pools[i])
            &&& seat_at(pools, a) is Some ==> seat_at(pools, a)->0.address == a
        }),
    decreases pools.len(),
{
    lemma_last_at(pools, |s: StakePoolSeat| s.address == a);
    if pools.len() > 0 {
        lemma_seat_at(pools.drop_last(), a);
    }
}

/// A pool's record holds every validator that it operates from the start, each
/// one's key under its own cell, and nothing else; where two share a cell the
/// later one's key stands.
pub proof fn law_a_pool_records_every_validator<K: Fn(CellRole) -> SubstateKey>(
    pool: [u8; 16],
    founding: Seq<(u64, ConsensusPublicKey)>,
    f: K,
    local: [u8; 16],
)
    ensures
        ({
            let here = |v: (u64, ConsensusPublicKey)|
                key_by(f, CellRole::Validator { owner: pool, id: v.0 }).local == local;
            &&& founding_cells(pool, founding, f).contains_key(local) <==> some_at(founding, here)
            &&& forall|i: int| #[trigger]
                last_at(founding, here, i) ==> founding_cells(pool, founding, f)[local]
                    == founding[i].1.bytes()
        }),
    decreases founding.len(),
{
    lemma_last_at(
        founding,
        |v: (u64, ConsensusPublicKey)|
            key_by(f, CellRole::Validator { owner: pool, id: v.0 }).local == local,
    );
    if founding.len() > 0 {
        law_a_pool_records_every_validator(pool, founding.drop_last(), f, local);
    }
}

/// Under an address stands the record of the last seat there that operates
/// somebody; where no such seat is, what stood there before.
pub proof fn law_every_pool_has_its_record<K: Fn(CellRole) -> SubstateKey>(
    plots: Plots,
    pools: Seq<StakePoolSeat>,
    f: K,
    a: [u8; 16],
)
    ensures
        ({
            let operates = |s: StakePoolSeat| s.address == a && s.founding@.len() > 0;
            let done = with_seats(plots, pools, f);
            &&& !some_at(pools, operates) ==> done.contains_key(a) == plots.contains_key(a) && (
            plots.contains_key(a) ==> done[a] == plots[a])
            &&& forall|i: int| #[trigger]
                last_at(pools, operates, i) ==> done.contains_key(a) && done[a] == founding_cells(
                    a,
                    pools[i].founding@,
                    f,
                )
        }),
    decreases pools.len(),
{
    lemma_last_at(pools, |s: StakePoolSeat| s.address == a && s.founding@.len() > 0);
    if pools.len() > 0 {
        law_every_pool_has_its_record(plots, pools.drop_last(), f, a);
    }
}

/// Funding writes every account's vault and touches nothing else: under a vault's
/// owner stands that vault alone, with sixteen bytes that read as the last
/// balance funded there, and under any other address what stood there before.
pub proof fn law_every_account_is_funded<K: Fn(CellRole) -> SubstateKey>(
    plots: Plots,
    accounts: Seq<([u8; 16], u128)>,
    f: K,
    a: [u8; 16],
)
    ensures
        ({
            let funds = |x: ([u8; 16], u128)|
                key_by(f, CellRole::Vault { owner: x.0, resource: VM_XRD }).owner == a;
            let done = with_accounts(plots, accounts, f);
            &&& !some_at(accounts, funds) ==> done.contains_key(a) == plots.contains_key(a) && (
            plots.contains_key(a) ==> done[a] == plots[a])
            &&& forall|i: int| #[trigger]
                last_at(accounts, funds, i) ==> {
                    let vault = key_by(f, CellRole::Vault { owner: accounts[i].0, resource: VM_XRD });
                    &&& done.contains_key(a)
                    &&& forall|l: [u8; 16]| #[trigger]
                        done[a].contains_key(l) <==> l == vault.local
                    &&& done[a][vault.local].len() == 16
                    &&& le_value(done[a][vault.local]) == accounts[i].1
                }
        }),
    decreases accounts.len(),
{
    lemma_last_at(
        accounts,
        |x: ([u8; 16], u128)|
            key_by(f, CellRole::Vault { owner: x.0, resource: VM_XRD }).owner == a,
    );
    if accounts.len() > 0 {
        law_every_account_is_funded(plots, accounts.drop_last(), f, a);
        lemma_widths();
        lemma_le_round_trip(accounts.last().1 as nat, 16);
    }
}

/// Genesis publishes one package at most, whole, in the cell that its content
/// address builds under the publisher that no key derives.
pub proof fn law_genesis_publishes_its_package<K: Fn(CellRole) -> SubstateKey>(
    package: Option<StdlibPackage>,
    f: K,
    key: SubstateKey,
)
    ensures
        ({
            let cells = cells_of(with_package(package, f));
            &&& cells.contains_key(key) <==> package is Some && key == key_by(
                f,
                CellRole::Package { owner: GENESIS_PUBLISHER, package: package->0.hash.0 },
            )
            &&& cells.contains_key(key) ==> cells[key] == Some(package->0.artifact@)
        }),
{
    if package is Some {
        let cell = key_by(
            f,
            CellRole::Package { owner: GENESIS_PUBLISHER, package: package->0.hash.0 },
        );
        if key.owner == cell.owner && key.local == cell.local {
            assert(key == cell);
        }
    }
}

/// What genesis writes to a cell is what the plots hold there.
pub proof fn law_genesis_writes_every_plot(plots: Plots, owner: [u8; 16], local: [u8; 16])
    ensures
        cells_of(plots).contains_key(SubstateKey { owner, local }) <==> plots.contains_key(owner)
            && plots[owner].contains_key(local),
        plots.contains_key(owner) && plots[owner].contains_key(local) ==> cells_of(
            plots,
        )[SubstateKey { owner, local }] == Some(plots[owner][local]),
{
}

/// What stands under an address at genesis: the vault with the balance last funded
/// there; where none is, the record of every validator of the last seat there that
/// operates somebody; where none is either, the published package, whole, if its
/// cell lies there. Nothing stands under any other address.
pub proof fn law_what_stands_under_an_address_at_genesis<K: Fn(CellRole) -> SubstateKey>(
    package: Option<StdlibPackage>,
    accounts: Seq<([u8; 16], u128)>,
    pools: Seq<StakePoolSeat>,
    f: K,
    a: [u8; 16],
)
    ensures
        ({
            let plots = genesis_plots(package, accounts, pools, f);
            let funds = |x: ([u8; 16], u128)|
                key_by(f, CellRole::Vault { owner: x.0, resource: VM_XRD }).owner == a;
            let operates = |s: StakePoolSeat| s.address == a && s.founding@.len() > 0;
            let cell = key_by(
                f,
                CellRole::Package { owner: GENESIS_PUBLISHER, package: package->0.hash.0 },
            );
            &&& forall|i: int| #[trigger]
                last_at(accounts, funds, i) ==> {
                    let vault = key_by(f, CellRole::Vault { owner: accounts[i].0, resource: VM_XRD });
                    &&& plots.contains_key(a)
                    &&& plots[a].contains_key(vault.local)
                    &&& plots[a][vault.local].len() == 16
                    &&& le_value(plots[a][vault.local]) == accounts[i].1
                }
            &&& forall|i: int| #[trigger]
                last_at(pools, operates, i) && !some_at(accounts, funds) ==> plots.contains_key(a)
                    && plots[a] == founding_cells(a, pools[i].founding@, f)
            &&& !some_at(accounts, funds) && !some_at(pools, operates) ==> {
                &&& plots.contains_key(a) <==> package is Some && cell.owner == a
                &&& plots.contains_key(a) ==> plots[a].contains_key(cell.local)
                    && plots[a][cell.local] == package->0.artifact@
            }
        }),
{
    let start = with_package(package, f);
    let seated = with_seats(start, pools, f);
    law_every_pool_has_its_record(start, pools, f, a);
    law_every_account_is_funded(seated, accounts, f, a);
}

} // verus!
