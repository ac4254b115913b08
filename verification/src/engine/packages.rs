//! The packages that routing reads, grown by what blocks commit.
use vstd::prelude::*;

use crate::bridge::checks::MetadataLimits;
use crate::bridge::metadata::PackageMetadata;
use crate::bridge::package::{admit_package, backs, package_admits};
use crate::bridge::roles::{derives, key_by, package_key, CellRole};
use crate::engine::executed::cell_left;
use crate::engine::receipt::{ConsensusReceipt, ExecutedTx};
use crate::order::same_key;
use crate::sorted::SortedMap;
use crate::storage::canonical::copy_bytes;
use crate::storage::state_key::{vm_db_node_key_owner, VM_PARTITION};
use crate::storage::updates::{
    lemma_table_at, nodes_view, parts_view, DatabaseUpdate, DatabaseUpdates, NodeDatabaseUpdates,
    PartitionDatabaseUpdates,
};
use crate::types::SubstateKey;

verus! {

/// A hash that every artifact has, and that its bytes alone decide.
pub open spec fn hashes_bytes<H: Fn(&Vec<u8>) -> [u8; 32]>(h: H) -> bool {
    &&& forall|v: Vec<u8>| call_requires(h, (&v,))
    &&& forall|a: Vec<u8>, b: Vec<u8>, x: [u8; 32], y: [u8; 32]|
        call_ensures(h, (&a,), x) && call_ensures(h, (&b,), y) && a@ == b@ ==> x == y
}

/// The content address that a hash gives bytes.
pub open spec fn address_by<H: Fn(&Vec<u8>) -> [u8; 32]>(h: H, bytes: Seq<u8>) -> [u8; 32] {
    choose|x: [u8; 32]| is_address(h, bytes, x)
}

/// The hash may give these bytes this address.
pub open spec fn is_address<H: Fn(&Vec<u8>) -> [u8; 32]>(
    h: H,
    bytes: Seq<u8>,
    x: [u8; 32],
) -> bool {
    exists|v: Vec<u8>| v@ == bytes && #[trigger] call_ensures(h, (&v,), x)
}

fn address_of<H: Fn(&Vec<u8>) -> [u8; 32]>(h: &H, artifact: &Vec<u8>) -> (x: [u8; 32])
    requires
        hashes_bytes(*h),
    ensures
        x == address_by(*h, artifact@),
{
    let x = (*h)(artifact);
    proof {
        assert(call_ensures(*h, (artifact,), x));
        assert(is_address(*h, artifact@, x));
        let y = address_by(*h, artifact@);
        assert(is_address(*h, artifact@, y));
        let v = choose|v: Vec<u8>| v@ == artifact@ && #[trigger] call_ensures(*h, (&v,), y);
        assert(call_ensures(*h, (&v,), y));
    }
    x
}

/// The cell is a package: its bytes are an artifact that a publish admits, and
/// its key is the one that their own content address builds.
pub open spec fn addresses_itself<
    K: Fn(CellRole) -> SubstateKey,
    H: Fn(&Vec<u8>) -> [u8; 32],
>(key: SubstateKey, bytes: Seq<u8>, lim: MetadataLimits, cell_key: K, h: H) -> bool {
    &&& key == key_by(
        cell_key,
        CellRole::Package { owner: key.owner, package: address_by(h, bytes) },
    )
    &&& package_admits(bytes, lim)
}

/// The published packages, by content address.
pub type Packages = Map<[u8; 32], PackageMetadata>;

/// The packages after a committed cell: one more, where the cell is a package,
/// with the metadata that its artifact declares; as before, where it is not.
pub open spec fn absorbs<K: Fn(CellRole) -> SubstateKey, H: Fn(&Vec<u8>) -> [u8; 32]>(
    before: Packages,
    after: Packages,
    key: SubstateKey,
    bytes: Seq<u8>,
    lim: MetadataLimits,
    cell_key: K,
    h: H,
) -> bool {
    let package = address_by(h, bytes);
    if addresses_itself(key, bytes, lim, cell_key, h) {
        &&& after.contains_key(package)
        &&& backs(bytes, after[package], lim)
        &&& after == before.insert(package, after[package])
    } else {
        after == before
    }
}

/// Takes in a committed cell. Only one that addresses its own contents publishes
/// a package, whoever wrote it.
pub fn absorb_cell<K: Fn(CellRole) -> SubstateKey, H: Fn(&Vec<u8>) -> [u8; 32]>(
    cache: &mut SortedMap<[u8; 32], PackageMetadata>,
    key: SubstateKey,
    value: &Vec<u8>,
    lim: &MetadataLimits,
    cell_key: &K,
    package_hash: &H,
)
    requires
        lim.wf(),
        derives(*cell_key),
        hashes_bytes(*package_hash),
    ensures
        absorbs(old(cache)@, final(cache)@, key, value@, *lim, *cell_key, *package_hash),
{
    let package = address_of(package_hash, value);
    let own = package_key(cell_key, key.owner, package);
    if !same_key(&own, &key) {
        return;
    }
    match admit_package(value.as_slice(), lim) {
        Err(_) => {},
        Ok(metadata) => {
            assert(backs(value@, metadata, *lim));
            cache.insert(package, metadata);
        },
    }
}

/// The updates set a cell, at this entry of this partition of this entity.
pub open spec fn set_at(
    updates: DatabaseUpdates,
    n: int,
    p: int,
    e: int,
    key: SubstateKey,
    value: Seq<u8>,
) -> bool {
    &&& 0 <= n < updates.node_updates@.len()
    &&& updates.node_updates@[n].0@ == key.owner@
    &&& set_in(updates.node_updates@[n].1, p, e, key.local@, value)
}

/// The entity's updates set the cell of a local half.
pub open spec fn set_in(
    node: NodeDatabaseUpdates,
    p: int,
    e: int,
    local: Seq<u8>,
    value: Seq<u8>,
) -> bool {
    &&& 0 <= p < node.partition_updates@.len()
    &&& node.partition_updates@[p].0 == VM_PARTITION
    &&& 0 <= e < node.partition_updates@[p].1.entries().len()
    &&& node.partition_updates@[p].1.entries()[e] == (local, Some(value))
}

/// The updates set a cell to a value.
pub open spec fn sets(updates: DatabaseUpdates, key: SubstateKey, value: Seq<u8>) -> bool {
    exists|n: int, p: int, e: int| set_at(updates, n, p, e, key, value)
}

/// A list of cells holds one with this value.
pub open spec fn lists(cells: Seq<(SubstateKey, Vec<u8>)>, key: SubstateKey, value: Seq<u8>) -> bool {
    exists|i: int| 0 <= i < cells.len() && (#[trigger] cells[i]).0 == key && cells[i].1@ == value
}

/// A list is another with more behind it.
pub open spec fn extends(
    before: Seq<(SubstateKey, Vec<u8>)>,
    after: Seq<(SubstateKey, Vec<u8>)>,
) -> bool {
    before.len() <= after.len() && forall|i: int|
        0 <= i < before.len() ==> #[trigger] after[i] == before[i]
}

/// A partition sets the cell of a local half to a value.
pub open spec fn part_sets(part: PartitionDatabaseUpdates, local: Seq<u8>, value: Seq<u8>) -> bool {
    exists|e: int| 0 <= e < part.entries().len() && #[trigger] part.entries()[e] == (
        local,
        Some(value),
    )
}

/// An entity's updates set the cell of a local half to a value.
pub open spec fn node_sets(node: NodeDatabaseUpdates, local: Seq<u8>, value: Seq<u8>) -> bool {
    exists|p: int, e: int| set_in(node, p, e, local, value)
}

/// The value that an entry of a partition sets, if it sets one.
fn entry_value(part: &PartitionDatabaseUpdates, e: usize) -> (r: Option<Vec<u8>>)
    requires
        e < part.entries().len(),
    ensures
        match r {
            Some(v) => part.entries()[e as int].1 == Some(v@),
            None => part.entries()[e as int].1 is None,
        },
{
    match part {
        PartitionDatabaseUpdates::Delta { substate_updates } => match &substate_updates[e].1 {
            DatabaseUpdate::Put(value) => Some(copy_bytes(value)),
            DatabaseUpdate::Delete => None,
        },
        PartitionDatabaseUpdates::Reset { new_substate_values } => Some(
            copy_bytes(&new_substate_values[e].1),
        ),
    }
}

/// The local half that an entry's sort key is, if it is one.
fn entry_local(part: &PartitionDatabaseUpdates, e: usize) -> (r: Option<[u8; 16]>)
    requires
        e < part.entries().len(),
    ensures
        match r {
            Some(local) => part.entries()[e as int].0 == local@,
            None => part.entries()[e as int].0.len() != 16,
        },
{
    match part {
        PartitionDatabaseUpdates::Delta { substate_updates } => vm_db_node_key_owner(
            &substate_updates[e].0,
        ),
        PartitionDatabaseUpdates::Reset { new_substate_values } => vm_db_node_key_owner(
            &new_substate_values[e].0,
        ),
    }
}

fn entry_count(part: &PartitionDatabaseUpdates) -> (n: usize)
    ensures
        n == part.entries().len(),
{
    match part {
        PartitionDatabaseUpdates::Delta { substate_updates } => substate_updates.len(),
        PartitionDatabaseUpdates::Reset { new_substate_values } => new_substate_values.len(),
    }
}

/// Adds the cells that a partition sets.
fn list_partition(
    owner: [u8; 16],
    part: &PartitionDatabaseUpdates,
    cells: &mut Vec<(SubstateKey, Vec<u8>)>,
)
    ensures
        extends(old(cells)@, final(cells)@),
        forall|i: int|
            old(cells)@.len() <= i < final(cells)@.len() ==> (#[trigger] final(cells)@[i]).0.owner
                == owner && part_sets(*part, final(cells)@[i].0.local@, final(cells)@[i].1@),
        forall|local: [u8; 16], value: Seq<u8>, e: int|
            0 <= e < part.entries().len() && #[trigger] part.entries()[e] == (local@, Some(value))
                ==> #[trigger] lists(final(cells)@, SubstateKey { owner, local }, value),
{
    let ghost start = cells@;
    let count: usize = entry_count(part);
    let mut i: usize = 0;
    while i < count
        invariant
            i <= count,
            count == part.entries().len(),
            extends(start, cells@),
            forall|k: int|
                start.len() <= k < cells@.len() ==> (#[trigger] cells@[k]).0.owner == owner
                    && part_sets(*part, cells@[k].0.local@, cells@[k].1@),
            forall|local: [u8; 16], value: Seq<u8>, e: int|
                0 <= e < i && #[trigger] part.entries()[e] == (local@, Some(value))
                    ==> #[trigger] lists(cells@, SubstateKey { owner, local }, value),
        decreases count - i,
    {
        let ghost before = cells@;
        match (entry_local(part, i), entry_value(part, i)) {
            (Some(local), Some(value)) => {
                cells.push((SubstateKey { owner, local }, value));
                proof {
                    let at = before.len() as int;
                    assert(part.entries()[i as int] == (cells@[at].0.local@, Some(cells@[at].1@)));
                    assert(part_sets(*part, cells@[at].0.local@, cells@[at].1@));
                    assert forall|l: [u8; 16], v: Seq<u8>, e: int|
                        0 <= e < i + 1 && #[trigger] part.entries()[e] == (
                            l@,
                            Some(v),
                        ) implies #[trigger] lists(cells@, SubstateKey { owner, local: l }, v) by {
                        if e == i {
                            assert(l =~= local);
                            assert(cells@[at].0 == (SubstateKey { owner, local: l }));
                        } else {
                            lemma_lists_grow(before, cells@, SubstateKey { owner, local: l }, v);
                        }
                    }
                }
            },
            _ => {},
        }
        i = i + 1;
    }
}

/// A longer list holds what a shorter one did.
proof fn lemma_lists_grow(
    before: Seq<(SubstateKey, Vec<u8>)>,
    after: Seq<(SubstateKey, Vec<u8>)>,
    key: SubstateKey,
    value: Seq<u8>,
)
    requires
        lists(before, key, value),
        extends(before, after),
    ensures
        lists(after, key, value),
{
    let i = choose|i: int|
        0 <= i < before.len() && (#[trigger] before[i]).0 == key && before[i].1@ == value;
    assert(after[i] == before[i]);
}

/// Adds the cells that an entity's updates set.
fn list_node(
    owner: [u8; 16],
    node: &NodeDatabaseUpdates,
    cells: &mut Vec<(SubstateKey, Vec<u8>)>,
)
    ensures
        extends(old(cells)@, final(cells)@),
        forall|i: int|
            old(cells)@.len() <= i < final(cells)@.len() ==> (#[trigger] final(cells)@[i]).0.owner
                == owner && node_sets(*node, final(cells)@[i].0.local@, final(cells)@[i].1@),
        forall|local: [u8; 16], value: Seq<u8>, p: int, e: int|
            #[trigger] set_in(*node, p, e, local@, value) ==> lists(
                final(cells)@,
                SubstateKey { owner, local },
                value,
            ),
{
    let ghost start = cells@;
    let mut i: usize = 0;
    while i < node.partition_updates.len()
        invariant
            i <= node.partition_updates@.len(),
            extends(start, cells@),
            forall|k: int|
                start.len() <= k < cells@.len() ==> (#[trigger] cells@[k]).0.owner == owner
                    && node_sets(*node, cells@[k].0.local@, cells@[k].1@),
            forall|local: [u8; 16], value: Seq<u8>, p: int, e: int|
                p < i && #[trigger] set_in(*node, p, e, local@, value) ==> lists(
                    cells@,
                    SubstateKey { owner, local },
                    value,
                ),
        decreases node.partition_updates@.len() - i,
    {
        let ghost before = cells@;
        if node.partition_updates[i].0 == VM_PARTITION {
            list_partition(owner, &node.partition_updates[i].1, cells);
            proof {
                let part = node.partition_updates@[i as int].1;
                assert forall|k: int| start.len() <= k < cells@.len() implies (
                #[trigger] cells@[k]).0.owner == owner && node_sets(
                    *node,
                    cells@[k].0.local@,
                    cells@[k].1@,
                ) by {
                    if k < before.len() {
                        assert(cells@[k] == before[k]);
                    } else {
                        let e = choose|e: int|
                            0 <= e < part.entries().len() && #[trigger] part.entries()[e] == (
                                cells@[k].0.local@,
                                Some(cells@[k].1@),
                            );
                        assert(set_in(*node, i as int, e, cells@[k].0.local@, cells@[k].1@));
                    }
                }
            }
        }
        proof {
            assert forall|local: [u8; 16], value: Seq<u8>, p: int, e: int|
                p < i + 1 && #[trigger] set_in(*node, p, e, local@, value) implies lists(
                cells@,
                SubstateKey { owner, local },
                value,
            ) by {
                if p < i {
                    lemma_lists_grow(before, cells@, SubstateKey { owner, local }, value);
                } else {
                    assert(node.partition_updates@[i as int].1.entries()[e] == (
                        local@,
                        Some(value),
                    ));
                }
            }
        }
        i = i + 1;
    }
}

/// The cells that updates set, with what they set them to.
pub fn set_cells(updates: &DatabaseUpdates) -> (cells: Vec<(SubstateKey, Vec<u8>)>)
    ensures
        forall|key: SubstateKey, value: Seq<u8>| #[trigger]
            lists(cells@, key, value) == sets(*updates, key, value),
{
    let mut cells: Vec<(SubstateKey, Vec<u8>)> = Vec::new();
    let mut i: usize = 0;
    while i < updates.node_updates.len()
        invariant
            i <= updates.node_updates@.len(),
            forall|k: int|
                0 <= k < cells@.len() ==> sets(*updates, (#[trigger] cells@[k]).0, cells@[k].1@),
            forall|key: SubstateKey, value: Seq<u8>, n: int, p: int, e: int|
                n < i && #[trigger] set_at(*updates, n, p, e, key, value) ==> lists(
                    cells@,
                    key,
                    value,
                ),
        decreases updates.node_updates@.len() - i,
    {
        let ghost before = cells@;
        let named = vm_db_node_key_owner(&updates.node_updates[i].0);
        if let Some(owner) = named {
            list_node(owner, &updates.node_updates[i].1, &mut cells);
            proof {
                let node = updates.node_updates@[i as int].1;
                assert forall|k: int| 0 <= k < cells@.len() implies sets(
                    *updates,
                    (#[trigger] cells@[k]).0,
                    cells@[k].1@,
                ) by {
                    if k < before.len() {
                        assert(cells@[k] == before[k]);
                    } else {
                        let (p, e) = choose|p: int, e: int|
                            set_in(node, p, e, cells@[k].0.local@, cells@[k].1@);
                        assert(set_at(*updates, i as int, p, e, cells@[k].0, cells@[k].1@));
                    }
                }
            }
        }
        proof {
            assert forall|key: SubstateKey, value: Seq<u8>, n: int, p: int, e: int|
                n < i + 1 && #[trigger] set_at(*updates, n, p, e, key, value) implies lists(
                cells@,
                key,
                value,
            ) by {
                if n < i {
                    lemma_lists_grow(before, cells@, key, value);
                } else {
                    assert(key.owner@.len() == 16);
                    assert(named is Some && named->0@ == key.owner@);
                    assert(named->0 =~= key.owner);
                    assert(set_in(
                        updates.node_updates@[i as int].1,
                        p,
                        e,
                        key.local@,
                        value,
                    ));
                    assert(key == (SubstateKey { owner: named->0, local: key.local }));
                }
            }
        }
        i = i + 1;
    }
    proof {
        assert forall|key: SubstateKey, value: Seq<u8>| #[trigger]
            lists(cells@, key, value) == sets(*updates, key, value) by {
            if lists(cells@, key, value) {
                let k = choose|k: int|
                    0 <= k < cells@.len() && (#[trigger] cells@[k]).0 == key && cells@[k].1@
                        == value;
                assert(sets(*updates, cells@[k].0, cells@[k].1@));
            }
            if sets(*updates, key, value) {
                let (n, p, e) = choose|n: int, p: int, e: int|
                    set_at(*updates, n, p, e, key, value);
                assert(set_at(*updates, n, p, e, key, value));
            }
        }
    }
    cells
}

/// The updates set a cell that is this package.
pub open spec fn publishes_as<K: Fn(CellRole) -> SubstateKey, H: Fn(&Vec<u8>) -> [u8; 32]>(
    updates: DatabaseUpdates,
    key: SubstateKey,
    bytes: Seq<u8>,
    package: [u8; 32],
    lim: MetadataLimits,
    cell_key: K,
    h: H,
) -> bool {
    sets(updates, key, bytes) && addresses_itself(key, bytes, lim, cell_key, h) && address_by(
        h,
        bytes,
    ) == package
}

/// The packages after a block's committed cells: those before, and every one
/// that a cell is, with the metadata that such a cell's artifact declares.
pub open spec fn grows<K: Fn(CellRole) -> SubstateKey, H: Fn(&Vec<u8>) -> [u8; 32]>(
    before: Packages,
    after: Packages,
    updates: DatabaseUpdates,
    lim: MetadataLimits,
    cell_key: K,
    h: H,
) -> bool {
    forall|package: [u8; 32]|
        #![trigger after.contains_key(package)]
        if exists|key: SubstateKey, bytes: Seq<u8>|
            publishes_as(updates, key, bytes, package, lim, cell_key, h) {
            after.contains_key(package) && exists|key: SubstateKey, bytes: Seq<u8>|
                #[trigger] publishes_as(updates, key, bytes, package, lim, cell_key, h) && backs(
                    bytes,
                    after[package],
                    lim,
                )
        } else {
            after.contains_key(package) == before.contains_key(package) && (before.contains_key(
                package,
            ) ==> after[package] == before[package])
        }
}

/// Takes in the cells that a committed receipt sets. An aborted one sets none.
pub fn absorb_committed_cells<K: Fn(CellRole) -> SubstateKey, H: Fn(&Vec<u8>) -> [u8; 32]>(
    cache: &mut SortedMap<[u8; 32], PackageMetadata>,
    receipt: &ConsensusReceipt,
    lim: &MetadataLimits,
    cell_key: &K,
    package_hash: &H,
)
    requires
        lim.wf(),
        derives(*cell_key),
        hashes_bytes(*package_hash),
    ensures
        match receipt {
            ConsensusReceipt::Failed => final(cache)@ == old(cache)@,
            ConsensusReceipt::Succeeded { database_updates, .. } => grows(
                old(cache)@,
                final(cache)@,
                *database_updates,
                *lim,
                *cell_key,
                *package_hash,
            ),
        },
{
    let updates = match receipt {
        ConsensusReceipt::Failed => return,
        ConsensusReceipt::Succeeded { database_updates, .. } => database_updates,
    };
    let ghost before = cache@;
    let cells = set_cells(updates);
    assert forall|k: int| 0 <= k < cells@.len() implies sets(
        *updates,
        (#[trigger] cells@[k]).0,
        cells@[k].1@,
    ) by {
        assert(lists(cells@, cells@[k].0, cells@[k].1@));
    }
    let mut i: usize = 0;
    while i < cells.len()
        invariant
            i <= cells@.len(),
            lim.wf(),
            derives(*cell_key),
            hashes_bytes(*package_hash),
            forall|k: int|
                0 <= k < cells@.len() ==> sets(*updates, (#[trigger] cells@[k]).0, cells@[k].1@),
            forall|package: [u8; 32]|
                #![trigger cache@.contains_key(package)]
                grown_among(
                    before,
                    cache@,
                    cells@,
                    i as int,
                    package,
                    *lim,
                    *cell_key,
                    *package_hash,
                ),
        decreases cells@.len() - i,
    {
        let ghost now = cache@;
        absorb_cell(cache, cells[i].0, &cells[i].1, lim, cell_key, package_hash);
        proof {
            assert forall|package: [u8; 32]|
                #![trigger cache@.contains_key(package)]
                grown_among(
                    before,
                    cache@,
                    cells@,
                    i + 1,
                    package,
                    *lim,
                    *cell_key,
                    *package_hash,
                ) by {
                assert(now.contains_key(package) || !now.contains_key(package));
                assert(grown_among(
                    before,
                    now,
                    cells@,
                    i as int,
                    package,
                    *lim,
                    *cell_key,
                    *package_hash,
                ));
                let hit = is_at(cells@, i as int, package, *lim, *cell_key, *package_hash);
                if !hit {
                    assert(cache@.contains_key(package) == now.contains_key(package));
                    if exists|k: int|
                        0 <= k < i + 1 && #[trigger] is_at(
                            cells@,
                            k,
                            package,
                            *lim,
                            *cell_key,
                            *package_hash,
                        ) {
                        let k = choose|k: int|
                            0 <= k < i + 1 && #[trigger] is_at(
                                cells@,
                                k,
                                package,
                                *lim,
                                *cell_key,
                                *package_hash,
                            );
                        assert(0 <= k < i);
                    }
                }
            }
        }
        i = i + 1;
    }
    proof {
        let after = cache@;
        assert forall|package: [u8; 32]|
            #![trigger after.contains_key(package)]
            if exists|key: SubstateKey, bytes: Seq<u8>|
                publishes_as(*updates, key, bytes, package, *lim, *cell_key, *package_hash) {
                after.contains_key(package) && exists|key: SubstateKey, bytes: Seq<u8>|
                    #[trigger] publishes_as(
                        *updates,
                        key,
                        bytes,
                        package,
                        *lim,
                        *cell_key,
                        *package_hash,
                    ) && backs(bytes, after[package], *lim)
            } else {
                after.contains_key(package) == before.contains_key(package)
                    && (before.contains_key(package) ==> after[package] == before[package])
            } by {
            assert(grown_among(
                before,
                after,
                cells@,
                cells@.len() as int,
                package,
                *lim,
                *cell_key,
                *package_hash,
            ));
            if exists|key: SubstateKey, bytes: Seq<u8>|
                publishes_as(*updates, key, bytes, package, *lim, *cell_key, *package_hash) {
                let (key, bytes) = choose|key: SubstateKey, bytes: Seq<u8>|
                    publishes_as(*updates, key, bytes, package, *lim, *cell_key, *package_hash);
                assert(lists(cells@, key, bytes));
                let j = choose|j: int|
                    0 <= j < cells@.len() && (#[trigger] cells@[j]).0 == key && cells@[j].1@
                        == bytes;
                assert(is_at(cells@, j, package, *lim, *cell_key, *package_hash));
            }
            if exists|k: int|
                0 <= k < cells@.len() && #[trigger] is_at(
                    cells@,
                    k,
                    package,
                    *lim,
                    *cell_key,
                    *package_hash,
                ) {
                let k = choose|k: int|
                    0 <= k < cells@.len() && #[trigger] is_at(
                        cells@,
                        k,
                        package,
                        *lim,
                        *cell_key,
                        *package_hash,
                    ) && backs(cells@[k].1@, after[package], *lim);
                assert(sets(*updates, cells@[k].0, cells@[k].1@));
                assert(publishes_as(
                    *updates,
                    cells@[k].0,
                    cells@[k].1@,
                    package,
                    *lim,
                    *cell_key,
                    *package_hash,
                ));
            }
        }
    }
}

/// What a receipt left a cell with, its updates set.
proof fn lemma_left_is_set(tx: ExecutedTx, key: SubstateKey, value: Seq<u8>)
    requires
        cell_left(tx, key) == Some(Some(value)),
        tx.consensus->database_updates.wf(),
    ensures
        sets(tx.consensus->database_updates, key, value),
{
    let updates = tx.consensus->database_updates;
    let nodes = nodes_view(updates.node_updates@);
    let owner = key.owner@;
    let n = choose|n: int| 0 <= n < nodes.len() && (#[trigger] nodes[n]).0 == owner;
    lemma_table_at(nodes, n);
    let node = updates.node_updates@[n].1;
    let parts = parts_view(node.partition_updates@);
    let p = choose|p: int| 0 <= p < parts.len() && (#[trigger] parts[p]).0 == VM_PARTITION;
    lemma_table_at(parts, p);
    let entries = node.partition_updates@[p].1.entries();
    let e = choose|e: int| 0 <= e < entries.len() && (#[trigger] entries[e]).0 == key.local@;
    lemma_table_at(entries, e);
    assert(entries[e] == (key.local@, Some(value)));
    assert(set_at(updates, n, p, e, key, value));
}

/// A committed publish grows the packages that routing reads: once the receipt
/// is taken in, the package is known under its content address.
pub proof fn law_a_committed_publish_is_known<
    K: Fn(CellRole) -> SubstateKey,
    H: Fn(&Vec<u8>) -> [u8; 32],
>(
    tx: ExecutedTx,
    cell: SubstateKey,
    artifact: Seq<u8>,
    before: Packages,
    after: Packages,
    lim: MetadataLimits,
    cell_key: K,
    h: H,
)
    requires
        cell_left(tx, cell) == Some(Some(artifact)),
        tx.consensus->database_updates.wf(),
        addresses_itself(cell, artifact, lim, cell_key, h),
        grows(before, after, tx.consensus->database_updates, lim, cell_key, h),
    ensures
        after.contains_key(address_by(h, artifact)),
        forall|package: [u8; 32]| #[trigger]
            before.contains_key(package) ==> after.contains_key(package),
{
    lemma_left_is_set(tx, cell, artifact);
    let updates = tx.consensus->database_updates;
    assert(publishes_as(updates, cell, artifact, address_by(h, artifact), lim, cell_key, h));
    assert(after.contains_key(address_by(h, artifact)) || !after.contains_key(
        address_by(h, artifact),
    ));
    assert forall|package: [u8; 32]| #[trigger] before.contains_key(package) implies after.contains_key(
        package,
    ) by {
        assert(after.contains_key(package) || !after.contains_key(package));
    }
}

/// The cell at a position is this package.
spec fn is_at<K: Fn(CellRole) -> SubstateKey, H: Fn(&Vec<u8>) -> [u8; 32]>(
    cells: Seq<(SubstateKey, Vec<u8>)>,
    k: int,
    package: [u8; 32],
    lim: MetadataLimits,
    cell_key: K,
    h: H,
) -> bool {
    addresses_itself(cells[k].0, cells[k].1@, lim, cell_key, h) && address_by(h, cells[k].1@)
        == package
}

/// What the first `n` cells made of a package.
spec fn grown_among<K: Fn(CellRole) -> SubstateKey, H: Fn(&Vec<u8>) -> [u8; 32]>(
    before: Packages,
    after: Packages,
    cells: Seq<(SubstateKey, Vec<u8>)>,
    n: int,
    package: [u8; 32],
    lim: MetadataLimits,
    cell_key: K,
    h: H,
) -> bool {
    if exists|k: int| 0 <= k < n && #[trigger] is_at(cells, k, package, lim, cell_key, h) {
        after.contains_key(package) && exists|k: int|
            0 <= k < n && #[trigger] is_at(cells, k, package, lim, cell_key, h) && backs(
                cells[k].1@,
                after[package],
                lim,
            )
    } else {
        after.contains_key(package) == before.contains_key(package) && (before.contains_key(package)
            ==> after[package] == before[package])
    }
}

/// Updates set a cell to a value exactly where that is what they come to: under
/// the owner, in the one partition there is, by the local half.
pub proof fn law_what_updates_set_is_what_they_come_to(
    updates: DatabaseUpdates,
    key: SubstateKey,
    value: Seq<u8>,
)
    requires
        updates.wf(),
    ensures
        ({
            let content = updates.content();
            sets(updates, key, value) <==> content.contains_key(key.owner@)
                && content[key.owner@].contains_key(VM_PARTITION)
                && content[key.owner@][VM_PARTITION].1.contains_key(key.local@)
                && content[key.owner@][VM_PARTITION].1[key.local@] == Some(value)
        }),
{
    let content = updates.content();
    let nodes = nodes_view(updates.node_updates@);
    if sets(updates, key, value) {
        let (n, p, e) = choose|n: int, p: int, e: int| set_at(updates, n, p, e, key, value);
        let node = updates.node_updates@[n].1;
        let parts = parts_view(node.partition_updates@);
        let entries = node.partition_updates@[p].1.entries();
        assert(nodes[n].0 == key.owner@);
        lemma_table_at(nodes, n);
        assert(parts[p].0 == VM_PARTITION);
        lemma_table_at(parts, p);
        lemma_table_at(entries, e);
    }
    if content.contains_key(key.owner@) && content[key.owner@].contains_key(VM_PARTITION)
        && content[key.owner@][VM_PARTITION].1.contains_key(key.local@)
        && content[key.owner@][VM_PARTITION].1[key.local@] == Some(value) {
        let owner = key.owner@;
        let n = choose|n: int| 0 <= n < nodes.len() && (#[trigger] nodes[n]).0 == owner;
        lemma_table_at(nodes, n);
        let node = updates.node_updates@[n].1;
        let parts = parts_view(node.partition_updates@);
        let p = choose|p: int| 0 <= p < parts.len() && (#[trigger] parts[p]).0 == VM_PARTITION;
        lemma_table_at(parts, p);
        let entries = node.partition_updates@[p].1.entries();
        let e = choose|e: int| 0 <= e < entries.len() && (#[trigger] entries[e]).0 == key.local@;
        lemma_table_at(entries, e);
        assert(entries[e] == (key.local@, Some(value)));
        assert(set_at(updates, n, p, e, key, value));
    }
}

/// A package becomes known by a block in one way only: the block sets a cell to
/// its artifact, which a publish would admit, under the key that the artifact's
/// own content address builds. What was known stays known, and keeps its
/// metadata where no cell of the block is that package.
pub proof fn law_only_a_cell_that_addresses_itself_publishes<
    K: Fn(CellRole) -> SubstateKey,
    H: Fn(&Vec<u8>) -> [u8; 32],
>(
    before: Packages,
    after: Packages,
    updates: DatabaseUpdates,
    lim: MetadataLimits,
    cell_key: K,
    h: H,
    package: [u8; 32],
)
    requires
        grows(before, after, updates, lim, cell_key, h),
    ensures
        before.contains_key(package) ==> after.contains_key(package),
        after.contains_key(package) && !(before.contains_key(package) && after[package]
            == before[package]) ==> exists|key: SubstateKey, bytes: Seq<u8>|
            #![trigger sets(updates, key, bytes)]
            sets(updates, key, bytes) && key == key_by(
                cell_key,
                CellRole::Package { owner: key.owner, package },
            ) && address_by(h, bytes) == package && package_admits(bytes, lim) && backs(
                bytes,
                after[package],
                lim,
            ),
        forall|key: SubstateKey, bytes: Seq<u8>|
            #![trigger sets(updates, key, bytes)]
            sets(updates, key, bytes) && key == key_by(
                cell_key,
                CellRole::Package { owner: key.owner, package },
            ) && address_by(h, bytes) == package && package_admits(bytes, lim)
                ==> after.contains_key(package),
{
    let known = after.contains_key(package);
    assert forall|key: SubstateKey, bytes: Seq<u8>|
        #![trigger sets(updates, key, bytes)]
        sets(updates, key, bytes) && key == key_by(
            cell_key,
            CellRole::Package { owner: key.owner, package },
        ) && address_by(h, bytes) == package && package_admits(bytes, lim) implies after.contains_key(
        package,
    ) by {
        assert(publishes_as(updates, key, bytes, package, lim, cell_key, h));
    }
    if after.contains_key(package) && !(before.contains_key(package) && after[package]
        == before[package]) {
        let (key, bytes) = choose|key: SubstateKey, bytes: Seq<u8>|
            publishes_as(updates, key, bytes, package, lim, cell_key, h) && backs(
                bytes,
                after[package],
                lim,
            );
        assert(sets(updates, key, bytes));
    }
}

/// A cell is taken in as a package exactly where it is one: its bytes are an
/// artifact that a publish admits, under the key that their own content address
/// builds. It is then known under that address, with what its artifact declares,
/// and nothing else changes.
pub proof fn law_a_cell_is_taken_in_under_its_own_address<
    K: Fn(CellRole) -> SubstateKey,
    H: Fn(&Vec<u8>) -> [u8; 32],
>(
    before: Packages,
    after: Packages,
    key: SubstateKey,
    bytes: Seq<u8>,
    lim: MetadataLimits,
    cell_key: K,
    h: H,
    other: [u8; 32],
)
    requires
        absorbs(before, after, key, bytes, lim, cell_key, h),
    ensures
        ({
            let package = address_by(h, bytes);
            let is_package = package_admits(bytes, lim) && key == key_by(
                cell_key,
                CellRole::Package { owner: key.owner, package },
            );
            &&& is_package ==> after.contains_key(package) && backs(bytes, after[package], lim)
            &&& !(is_package && other == package) ==> after.contains_key(other)
                == before.contains_key(other) && (before.contains_key(other) ==> after[other]
                == before[other])
        }),
{
}

} // verus!
