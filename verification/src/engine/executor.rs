//! Running a batch one transaction at a time against shared outputs, and
//! reading the state that other shards are provisioned with.
use radix_common::types::NodeId;
use radix_substate_store_interface::db_key_mapper::{DatabaseKeyMapper, SpreadPrefixKeyMapper};
use vstd::prelude::*;

use crate::engine::baseline::SubstateEntry;
use crate::engine::receipt::{
    is_projection, project_to_shard, projects, CachedOutput, CachedOutputBody, ExecutedTx,
    ExecutionMetadata,
};
use crate::list::reversed;
use crate::shard::{ShardId, ShardTrie};
use crate::types::TxHash;

verus! {

/// The database key of a node.
pub uninterp spec fn spread_node_key(node: Seq<u8>) -> Seq<u8>;

/// Calls `SpreadPrefixKeyMapper::to_db_node_key`. Claims that the key is a
/// function of the node: a hash prefix of twenty bytes, then the node itself.
/// Which hash the prefix is of is left unsaid.
#[verifier::external_body]
fn node_key(node: &[u8; 30]) -> (key: Vec<u8>)
    ensures
        key@ == spread_node_key(node@),
        key@.len() == 50,
        key@.skip(20) == node@,
{
    SpreadPrefixKeyMapper::to_db_node_key(&NodeId(*node))
}

/// A substate as a store lists it: its partition, sort key and value.
pub type Listed = (u8, Vec<u8>, Vec<u8>);

/// The key that a node's substate is stored under: the node key, the partition,
/// the sort key.
pub open spec fn storage_key(node_key: Seq<u8>, partition: u8, sort_key: Seq<u8>) -> Seq<u8> {
    node_key + seq![partition] + sort_key
}

/// An entry as it reads.
pub open spec fn entry_view(e: SubstateEntry) -> (Seq<u8>, Option<Seq<u8>>) {
    (
        e.storage_key@,
        match e.value {
            Some(v) => Some(v@),
            None => None,
        },
    )
}

/// Entries as they read.
pub open spec fn entry_views(s: Seq<SubstateEntry>) -> Seq<(Seq<u8>, Option<Seq<u8>>)> {
    s.map_values(|e: SubstateEntry| entry_view(e))
}

/// The entries of one node's substates.
pub open spec fn node_entries(node: Seq<u8>, listed: Seq<Listed>) -> Seq<
    (Seq<u8>, Option<Seq<u8>>),
> {
    listed.map_values(
        |l: Listed| (storage_key(spread_node_key(node), l.0, l.1@), Some(l.2@)),
    )
}

/// The entries of every node, in the order given; nothing, where a node's
/// substates cannot be listed at the height asked for.
pub open spec fn all_entries(nodes: Seq<[u8; 30]>, listings: Seq<Option<Vec<Listed>>>, n: nat) -> Option<
    Seq<(Seq<u8>, Option<Seq<u8>>)>,
>
    decreases n,
{
    if n == 0 {
        Some(Seq::empty())
    } else {
        match (all_entries(nodes, listings, (n - 1) as nat), listings[n - 1]) {
            (Some(before), Some(listed)) => Some(before + node_entries(nodes[n - 1]@, listed@)),
            _ => None,
        }
    }
}

/// The state entries of nodes, with the keys that they are stored under, from
/// what the store lists of each node at one height.
pub fn fetch_state_entries(nodes: &[[u8; 30]], listings: &Vec<Option<Vec<Listed>>>) -> (r: Option<
    Vec<SubstateEntry>,
>)
    requires
        listings@.len() == nodes@.len(),
    ensures
        match r {
            Some(entries) => all_entries(nodes@, listings@, nodes@.len()) == Some(
                entry_views(entries@),
            ),
            None => all_entries(nodes@, listings@, nodes@.len()) is None,
        },
{
    let mut entries: Vec<SubstateEntry> = Vec::new();
    let mut i: usize = 0;
    assert(entry_views(entries@) =~= Seq::empty());
    while i < nodes.len()
        invariant
            i <= nodes@.len(),
            listings@.len() == nodes@.len(),
            all_entries(nodes@, listings@, i as nat) == Some(entry_views(entries@)),
        decreases nodes@.len() - i,
    {
        let key = node_key(&nodes[i]);
        let ghost before = entry_views(entries@);
        match &listings[i] {
            Some(listed) => {
                let mut j: usize = 0;
                let ghost all = node_entries(nodes@[i as int]@, listed@);
                assert(before + all.take(0) =~= before);
                while j < listed.len()
                    invariant
                        j <= listed@.len(),
                        key@ == spread_node_key(nodes@[i as int]@),
                        all == node_entries(nodes@[i as int]@, listed@),
                        entry_views(entries@) == before + all.take(j as int),
                    decreases listed@.len() - j,
                {
                    let (partition, sort_key, value) = &listed[j];
                    let mut storage: Vec<u8> = Vec::new();
                    storage.extend_from_slice(key.as_slice());
                    storage.push(*partition);
                    storage.extend_from_slice(sort_key.as_slice());
                    assert(storage@ =~= storage_key(key@, *partition, sort_key@));
                    let mut held: Vec<u8> = Vec::new();
                    held.extend_from_slice(value.as_slice());
                    assert(held@ =~= value@);
                    let ghost had = entries@;
                    let entry = SubstateEntry { storage_key: storage, value: Some(held) };
                    assert(entry_view(entry) == all[j as int]);
                    entries.push(entry);
                    assert(entry_views(entries@) =~= entry_views(had).push(all[j as int]));
                    assert(all.take(j + 1) =~= all.take(j as int).push(all[j as int]));
                    assert(before + all.take(j + 1) =~= (before + all.take(j as int)).push(
                        all[j as int],
                    ));
                    j = j + 1;
                }
                assert(all.take(listed@.len() as int) =~= all);
            },
            None => {
                proof {
                    lemma_stays_none(nodes@, listings@, (i + 1) as nat, nodes@.len());
                }
                return None;
            },
        }
        i = i + 1;
    }
    Some(entries)
}

proof fn lemma_stays_none(nodes: Seq<[u8; 30]>, listings: Seq<Option<Vec<Listed>>>, i: nat, n: nat)
    requires
        i <= n,
        all_entries(nodes, listings, i) is None,
    ensures
        all_entries(nodes, listings, n) is None,
    decreases n,
{
    if i < n {
        lemma_stays_none(nodes, listings, i, (n - 1) as nat);
    }
}

/// The shards that a transaction touches: those of what it reads, then those of
/// what it writes.
pub fn participating_shards<R: Fn([u8; 30]) -> ShardId>(
    declared_reads: &[[u8; 30]],
    declared_writes: &[[u8; 30]],
    route: &R,
) -> (shards: Vec<ShardId>)
    requires
        forall|node: [u8; 30]| call_requires(*route, (node,)),
    ensures
        shards@.len() == declared_reads@.len() + declared_writes@.len(),
        forall|i: int|
            0 <= i < shards@.len() ==> call_ensures(
                *route,
                ((declared_reads@ + declared_writes@)[i],),
                #[trigger] shards@[i],
            ),
{
    let ghost all = declared_reads@ + declared_writes@;
    let mut shards: Vec<ShardId> = Vec::new();
    let mut i: usize = 0;
    while i < declared_reads.len()
        invariant
            i <= declared_reads@.len(),
            all == declared_reads@ + declared_writes@,
            shards@.len() == i,
            forall|node: [u8; 30]| call_requires(*route, (node,)),
            forall|j: int|
                0 <= j < i ==> call_ensures(*route, (all[j],), #[trigger] shards@[j]),
        decreases declared_reads@.len() - i,
    {
        assert(all[i as int] == declared_reads@[i as int]);
        shards.push((*route)(declared_reads[i]));
        i = i + 1;
    }
    let mut k: usize = 0;
    while k < declared_writes.len()
        invariant
            k <= declared_writes@.len(),
            all == declared_reads@ + declared_writes@,
            shards@.len() == declared_reads@.len() + k,
            forall|node: [u8; 30]| call_requires(*route, (node,)),
            forall|j: int|
                0 <= j < shards@.len() ==> call_ensures(*route, (all[j],), #[trigger] shards@[j]),
        decreases declared_writes@.len() - k,
    {
        assert(all[declared_reads@.len() + k] == declared_writes@[k as int]);
        shards.push((*route)(declared_writes[k]));
        k = k + 1;
    }
    shards
}

/// What a shared output's slot holds when a batch comes to it.
#[derive(Debug, PartialEq, Eq)]
pub enum SlotStatus<V> {
    /// The output is there.
    Completed(V),
    /// The batch has claimed it and must compute it.
    Claimed,
    /// Another worker has claimed it: what it left there, or nothing, where it
    /// gave the slot up.
    Pending(Option<V>),
}

/// The output for a position, and whether this batch computed it: an output
/// that is there is taken as it is, and what is not is computed.
pub open spec fn taken<V>(filled: (V, bool), status: SlotStatus<V>, computed: bool) -> bool {
    match status {
        SlotStatus::Completed(v) => filled == (v, false),
        SlotStatus::Pending(Some(v)) => filled == (v, false),
        SlotStatus::Claimed => filled.1 && computed,
        SlotStatus::Pending(None) => filled.1 && computed,
    }
}

/// The output for a position, computed by a function where nobody has it.
pub open spec fn fills<V, F: Fn(usize) -> V>(
    filled: (V, bool),
    status: SlotStatus<V>,
    i: usize,
    compute: F,
) -> bool {
    taken(filled, status, call_ensures(compute, (i,), filled.0))
}

/// Fills every slot of a batch, in order, and computes only what nobody has.
pub fn batch_compute_cached<V, F: Fn(usize) -> V>(
    statuses: Vec<SlotStatus<V>>,
    compute: &F,
) -> (out: Vec<(V, bool)>)
    requires
        forall|i: usize| i < statuses@.len() ==> #[trigger] call_requires(*compute, (i,)),
    ensures
        out@.len() == statuses@.len(),
        forall|i: int|
            0 <= i < out@.len() ==> fills(
                #[trigger] out@[i],
                statuses@[i],
                i as usize,
                *compute,
            ),
{
    let ghost all = statuses@;
    let count: usize = statuses.len();
    let mut back = reversed(statuses);
    let mut out: Vec<(V, bool)> = Vec::new();
    let mut i: usize = 0;
    while i < count
        invariant
            i <= count,
            count == all.len(),
            out@.len() == i,
            back@.len() == count - i,
            forall|j: int|
                0 <= j < back@.len() ==> #[trigger] back@[j] == all[all.len() - 1 - j],
            forall|i: usize| i < all.len() ==> #[trigger] call_requires(*compute, (i,)),
            forall|j: int|
                0 <= j < i ==> fills(#[trigger] out@[j], all[j], j as usize, *compute),
        decreases count - i,
    {
        match back.pop() {
            Some(status) => {
                assert(status == all[i as int]);
                assert(call_requires(*compute, (i,)));
                let filled: (V, bool) = match status {
                    SlotStatus::Completed(v) => (v, false),
                    SlotStatus::Pending(Some(v)) => (v, false),
                    SlotStatus::Claimed => ((*compute)(i), true),
                    SlotStatus::Pending(None) => ((*compute)(i), true),
                };
                out.push(filled);
            },
            None => {},
        }
        i = i + 1;
    }
    out
}

/// A batch may run a body: it is no envelope where that would have to be
/// routed elsewhere, and it validates. What may not run fails the same way on
/// every node.
pub fn may_run(cross_shard: bool, is_vm: bool, validated: bool) -> (r: bool)
    ensures
        r == (validated && (cross_shard || !is_vm)),
{
    validated && (cross_shard || !is_vm)
}

/// What running a transaction comes to: where its vaults are claimed on both
/// sides it fails, so that every committee says the same.
pub open spec fn ran<F: Fn(usize) -> CachedOutput>(
    output: CachedOutput,
    conflict: bool,
    refusal: &ExecutionMetadata,
    i: int,
    compute: &F,
) -> bool {
    if conflict {
        output == (CachedOutput { metadata: *refusal, body: CachedOutputBody::Failed })
    } else {
        call_ensures(*compute, (i as usize,), output)
    }
}

/// A transaction may be run.
pub open spec fn runnable<F: Fn(usize) -> CachedOutput>(i: usize, compute: &F) -> bool {
    call_requires(*compute, (i,))
}

/// The transaction is the projection of its slot's output, which was there or
/// was run for.
pub open spec fn answered<F: Fn(usize) -> CachedOutput>(
    tx: ExecutedTx,
    hash: TxHash,
    conflict: bool,
    refusal: ExecutionMetadata,
    status: SlotStatus<CachedOutput>,
    i: int,
    compute: F,
    shard: ShardId,
    trie: ShardTrie,
) -> bool {
    exists|filled: (CachedOutput, bool)| #[trigger]
        taken(filled, status, ran(filled.0, conflict, &refusal, i, &compute)) && is_projection(
            tx,
            filled.0,
            hash,
            shard,
            trie,
        )
}

/// The batch's answer: one transaction for each input, in order.
pub open spec fn is_answer<F: Fn(usize) -> CachedOutput>(
    list: Seq<ExecutedTx>,
    txs: Seq<TxHash>,
    conflicts: Seq<bool>,
    refusal: ExecutionMetadata,
    statuses: Seq<SlotStatus<CachedOutput>>,
    compute: F,
    shard: ShardId,
    trie: ShardTrie,
) -> bool {
    &&& list.len() == txs.len()
    &&& forall|i: int|
        0 <= i < list.len() ==> answered(
            #[trigger] list[i],
            txs[i],
            conflicts[i],
            refusal,
            statuses[i],
            i,
            compute,
            shard,
            trie,
        )
}

/// An output that is there projects onto the shard.
pub open spec fn holds_projectable(
    status: SlotStatus<CachedOutput>,
    shard: ShardId,
    trie: ShardTrie,
) -> bool {
    match status {
        SlotStatus::Completed(v) => projects(v, shard, trie),
        SlotStatus::Pending(Some(v)) => projects(v, shard, trie),
        _ => true,
    }
}

/// Runs a batch over shared outputs, one transaction at a time, and projects
/// each onto the shard. A transaction whose vaults are claimed on both sides
/// is refused rather than run.
pub fn execute_cross_shard_batch<F: Fn(usize) -> CachedOutput>(
    txs: &Vec<TxHash>,
    conflicts: &Vec<bool>,
    refusal: &ExecutionMetadata,
    statuses: Vec<SlotStatus<CachedOutput>>,
    compute: &F,
    local_shard: ShardId,
    shard_trie: &ShardTrie,
) -> (list: Vec<ExecutedTx>)
    requires
        shard_trie.wf(),
        conflicts@.len() == txs@.len(),
        statuses@.len() == txs@.len(),
        forall|i: usize| i < txs@.len() ==> #[trigger] call_requires(*compute, (i,)),
        forall|i: usize, out: CachedOutput| #[trigger]
            call_ensures(*compute, (i,), out) ==> projects(out, local_shard, *shard_trie),
        forall|i: int|
            0 <= i < statuses@.len() ==> holds_projectable(
                #[trigger] statuses@[i],
                local_shard,
                *shard_trie,
            ),
    ensures
        is_answer(
            list@,
            txs@,
            conflicts@,
            *refusal,
            statuses@,
            *compute,
            local_shard,
            *shard_trie,
        ),
{
    let ghost all = statuses@;
    let run = |i: usize| -> (out: CachedOutput)
        requires
            i < conflicts@.len(),
            runnable(i, compute),
        ensures
            ran(out, conflicts@[i as int], refusal, i as int, compute),
        {
            if conflicts[i] {
                CachedOutput::failed(refusal.copy())
            } else {
                (*compute)(i)
            }
        };
    proof {
        assert forall|i: usize| i < all.len() implies #[trigger] call_requires(run, (i,)) by {
            assert(call_requires(*compute, (i,)));
            assert(runnable(i, compute));
        }
    }
    let filled = batch_compute_cached(statuses, &run);
    let mut list: Vec<ExecutedTx> = Vec::new();
    let mut i: usize = 0;
    while i < txs.len()
        invariant
            i <= txs@.len(),
            shard_trie.wf(),
            conflicts@.len() == txs@.len(),
            all.len() == txs@.len(),
            filled@.len() == txs@.len(),
            list@.len() == i,
            forall|j: int|
                0 <= j < filled@.len() ==> fills(#[trigger] filled@[j], all[j], j as usize, run),
            forall|j: usize, out: CachedOutput|
                call_ensures(run, (j,), out) ==> ran(
                    out,
                    conflicts@[j as int],
                    refusal,
                    j as int,
                    compute,
                ),
            forall|i: usize, out: CachedOutput| #[trigger]
                call_ensures(*compute, (i,), out) ==> projects(out, local_shard, *shard_trie),
            forall|j: int|
                0 <= j < all.len() ==> holds_projectable(
                    #[trigger] all[j],
                    local_shard,
                    *shard_trie,
                ),
            forall|j: int|
                0 <= j < i ==> answered(
                    #[trigger] list@[j],
                    txs@[j],
                    conflicts@[j],
                    *refusal,
                    all[j],
                    j,
                    *compute,
                    local_shard,
                    *shard_trie,
                ),
        decreases txs@.len() - i,
    {
        proof {
            assert(fills(filled@[i as int], all[i as int], i, run));
            assert(holds_projectable(all[i as int], local_shard, *shard_trie));
            assert(taken(
                filled@[i as int],
                all[i as int],
                ran(filled@[i as int].0, conflicts@[i as int], refusal, i as int, compute),
            ));
        }
        let tx = project_to_shard(&filled[i].0, txs[i], local_shard, shard_trie);
        list.push(tx);
        i = i + 1;
    }
    list
}

/// Runs a batch that stays on one shard over shared outputs.
pub fn execute_wave_batch<F: Fn(usize) -> CachedOutput>(
    txs: &Vec<TxHash>,
    statuses: Vec<SlotStatus<CachedOutput>>,
    compute: &F,
    local_shard: ShardId,
    shard_trie: &ShardTrie,
) -> (list: Vec<ExecutedTx>)
    requires
        shard_trie.wf(),
        statuses@.len() == txs@.len(),
        forall|i: usize| i < txs@.len() ==> #[trigger] call_requires(*compute, (i,)),
        forall|i: usize, out: CachedOutput| #[trigger]
            call_ensures(*compute, (i,), out) ==> projects(out, local_shard, *shard_trie),
        forall|i: int|
            0 <= i < statuses@.len() ==> holds_projectable(
                #[trigger] statuses@[i],
                local_shard,
                *shard_trie,
            ),
    ensures
        is_answer(
            list@,
            txs@,
            Seq::new(txs@.len(), |i: int| false),
            (ExecutionMetadata { total_execution_cost: None, error: None }),
            statuses@,
            *compute,
            local_shard,
            *shard_trie,
        ),
{
    let mut conflicts: Vec<bool> = Vec::new();
    let mut i: usize = 0;
    while i < txs.len()
        invariant
            i <= txs@.len(),
            conflicts@ == Seq::new(i as nat, |i: int| false),
        decreases txs@.len() - i,
    {
        conflicts.push(false);
        assert(conflicts@ =~= Seq::new((i + 1) as nat, |i: int| false));
        i = i + 1;
    }
    let refusal = ExecutionMetadata { total_execution_cost: None, error: None };
    execute_cross_shard_batch(
        txs,
        &conflicts,
        &refusal,
        statuses,
        compute,
        local_shard,
        shard_trie,
    )
}

/// A stored key says which node it belongs to.
pub proof fn law_storage_key_names_its_node(
    a: Seq<u8>,
    b: Seq<u8>,
    p: u8,
    q: u8,
    s: Seq<u8>,
    t: Seq<u8>,
)
    requires
        a.len() == 50,
        b.len() == 50,
        storage_key(a, p, s) == storage_key(b, q, t),
    ensures
        a == b,
        p == q,
        s == t,
{
    let x = storage_key(a, p, s);
    let y = storage_key(b, q, t);
    assert(a =~= x.take(50));
    assert(b =~= y.take(50));
    assert(p == x[50] && q == y[50]);
    assert(s =~= x.skip(51));
    assert(t =~= y.skip(51));
}

/// Entries are fetched whole or not at all: they are there exactly where every
/// node's substates could be listed, and are then those of every node, one
/// node's behind the last one's, each under its node's key, its partition and
/// its sort key, with its value.
pub proof fn law_every_node_is_fetched(nodes: Seq<[u8; 30]>, listings: Seq<Option<Vec<Listed>>>, n: nat)
    requires
        n <= listings.len(),
    ensures
        all_entries(nodes, listings, n) is Some <==> forall|i: int|
            0 <= i < n ==> (#[trigger] listings[i]) is Some,
        all_entries(nodes, listings, n) is Some ==> all_entries(nodes, listings, n)->0 == Seq::new(
            n,
            |i: int|
                listings[i]->0@.map_values(
                    |l: Listed| (spread_node_key(nodes[i]@) + seq![l.0] + l.1@, Some(l.2@)),
                ),
        ).flatten(),
    decreases n,
{
    let lists = Seq::new(
        n,
        |i: int|
            listings[i]->0@.map_values(
                |l: Listed| (spread_node_key(nodes[i]@) + seq![l.0] + l.1@, Some(l.2@)),
            ),
    );
    lists.lemma_flatten_and_flatten_alt_are_equivalent();
    if n > 0 {
        let p = (n - 1) as nat;
        law_every_node_is_fetched(nodes, listings, p);
        let before = Seq::new(
            p,
            |i: int|
                listings[i]->0@.map_values(
                    |l: Listed| (spread_node_key(nodes[i]@) + seq![l.0] + l.1@, Some(l.2@)),
                ),
        );
        before.lemma_flatten_and_flatten_alt_are_equivalent();
        assert(lists.drop_last() =~= before);
        if all_entries(nodes, listings, n) is Some {
            assert(lists.last() =~= node_entries(nodes[p as int]@, listings[p as int]->0@));
        }
    }
}

/// A slot's output is taken where it is there, whoever left it, and is computed
/// exactly where nobody has it; the mark says which.
pub proof fn law_only_what_nobody_has_is_computed<V>(
    filled: (V, bool),
    status: SlotStatus<V>,
    computed: bool,
)
    requires
        taken(filled, status, computed),
    ensures
        filled.1 <==> status is Claimed || (status is Pending && status->Pending_0 is None),
        filled.1 ==> computed,
        status is Completed ==> filled.0 == status->Completed_0,
        status is Pending && status->Pending_0 is Some ==> filled.0 == status->Pending_0->0,
{
}

/// A batch answers for each transaction under its own hash with its own slot's
/// output: what is there as it is, a refusal where its vaults are claimed on
/// both sides and nobody has its output, and else what running it came to.
pub proof fn law_each_transaction_gets_its_own_output<F: Fn(usize) -> CachedOutput>(
    list: Seq<ExecutedTx>,
    txs: Seq<TxHash>,
    conflicts: Seq<bool>,
    refusal: ExecutionMetadata,
    statuses: Seq<SlotStatus<CachedOutput>>,
    compute: F,
    shard: ShardId,
    trie: ShardTrie,
    i: int,
)
    requires
        is_answer(list, txs, conflicts, refusal, statuses, compute, shard, trie),
        0 <= i < txs.len(),
    ensures
        list.len() == txs.len(),
        list[i].tx_hash == txs[i],
        list[i].fee_receipt is None,
        statuses[i] is Completed ==> is_projection(
            list[i],
            statuses[i]->Completed_0,
            txs[i],
            shard,
            trie,
        ),
        statuses[i] is Pending && statuses[i]->Pending_0 is Some ==> is_projection(
            list[i],
            statuses[i]->Pending_0->0,
            txs[i],
            shard,
            trie,
        ),
        (statuses[i] is Claimed || (statuses[i] is Pending && statuses[i]->Pending_0 is None))
            && conflicts[i] ==> list[i].consensus is Failed && list[i].metadata == refusal
            && list[i].attested_work == 0,
        (statuses[i] is Claimed || (statuses[i] is Pending && statuses[i]->Pending_0 is None))
            && !conflicts[i] ==> exists|out: CachedOutput|
            call_ensures(compute, (i as usize,), out) && #[trigger] is_projection(
                list[i],
                out,
                txs[i],
                shard,
                trie,
            ),
{
    assert(answered(
        list[i],
        txs[i],
        conflicts[i],
        refusal,
        statuses[i],
        i,
        compute,
        shard,
        trie,
    ));
}

/// An entry reads as its key's bytes and its value's, and a list of entries as each
/// of them, in order.
pub proof fn law_entries_read_as_they_stand(list: Seq<SubstateEntry>, i: int)
    requires
        0 <= i < list.len(),
    ensures
        entry_views(list).len() == list.len(),
        entry_views(list)[i].0 == list[i].storage_key@,
        entry_views(list)[i].1 is Some <==> list[i].value is Some,
        list[i].value is Some ==> entry_views(list)[i].1->0 == list[i].value->0@,
{
}

} // verus!
