//! Serving another shard's request for provisions.
use vstd::prelude::*;

use crate::list::lemma_filter_holds;
use crate::node::provisions::{
    build_provisions, key_views, keys_of, staged_for, staged_view, steady, CellRead,
    ProvisionsRequest, StagedProvisions,
};
use crate::shard::{ShardId, ShardTrie};
use crate::types::{DeclaredKey, SubstateKey, TxHash};

verus! {

/// What serving needs to know of a committed transaction.
#[derive(Debug, PartialEq, Eq)]
pub struct BlockTx {
    /// The transaction.
    pub tx_hash: TxHash,
    /// The keys whose values a counterpart needs.
    pub provision_keys: Vec<DeclaredKey>,
    /// Every owner it touches.
    pub prefixes: Vec<[u8; 16]>,
    /// The account that pays.
    pub fee_payer: [u8; 16],
}

/// The cells among declared keys that a shard owns, in order.
pub open spec fn cells_owned(keys: Seq<DeclaredKey>, shard: ShardId, trie: ShardTrie) -> Seq<
    SubstateKey,
>
    decreases keys.len(),
{
    if keys.len() == 0 {
        Seq::empty()
    } else {
        let before = cells_owned(keys.drop_last(), shard, trie);
        match keys.last() {
            DeclaredKey::Prefix { owner, local: Some(local) } => if trie.shard_of(owner@)
                == shard {
                before.push(SubstateKey { owner, local })
            } else {
                before
            },
            _ => before,
        }
    }
}

/// A transaction touches an owner of a shard.
pub open spec fn touches(prefixes: Seq<[u8; 16]>, shard: ShardId, trie: ShardTrie) -> bool {
    exists|i: int| 0 <= i < prefixes.len() && trie.shard_of((#[trigger] prefixes[i])@) == shard
}

/// A shard serves a transaction to another: a shard that owns cells of its read
/// set, or its payer, serves every shard that it touches; any other shard
/// serves its empty echo to the payer's shard alone.
pub open spec fn serves(tx: BlockTx, local: ShardId, target: ShardId, trie: ShardTrie) -> bool {
    let payer = trie.shard_of(tx.fee_payer@);
    if cells_owned(tx.provision_keys@, local, trie).len() == 0 && payer != local {
        payer == target
    } else {
        touches(tx.prefixes@, target, trie)
    }
}

/// The request that serving a transaction comes to.
pub open spec fn is_request(
    r: ProvisionsRequest,
    tx: BlockTx,
    local: ShardId,
    target: ShardId,
    trie: ShardTrie,
) -> bool {
    r.tx_hash == tx.tx_hash && r.targets@ == seq![target] && r.local_keys@ == cells_owned(
        tx.provision_keys@,
        local,
        trie,
    )
}

/// The requests that a block comes to: one for each transaction that is served,
/// in order.
pub open spec fn are_requests(
    requests: Seq<ProvisionsRequest>,
    txs: Seq<BlockTx>,
    local: ShardId,
    target: ShardId,
    trie: ShardTrie,
) -> bool
    decreases txs.len(),
{
    if txs.len() == 0 {
        requests.len() == 0
    } else if serves(txs.last(), local, target, trie) {
        requests.len() > 0 && is_request(requests.last(), txs.last(), local, target, trie)
            && are_requests(requests.drop_last(), txs.drop_last(), local, target, trie)
    } else {
        are_requests(requests, txs.drop_last(), local, target, trie)
    }
}

fn owned_cells(keys: &Vec<DeclaredKey>, shard: ShardId, trie: &ShardTrie) -> (cells: Vec<
    SubstateKey,
>)
    requires
        trie.wf(),
    ensures
        cells@ == cells_owned(keys@, shard, *trie),
        forall|owner: [u8; 16], local: [u8; 16]|
            #![trigger cells@.contains(SubstateKey { owner, local })]
            cells@.contains(SubstateKey { owner, local }) == (trie.shard_of(owner@) == shard
                && keys@.contains(DeclaredKey::Prefix { owner, local: Some(local) })),
{
    let mut cells: Vec<SubstateKey> = Vec::new();
    let mut i: usize = 0;
    assert(keys@.take(0) =~= Seq::empty());
    while i < keys.len()
        invariant
            i <= keys@.len(),
            trie.wf(),
            cells@ == cells_owned(keys@.take(i as int), shard, *trie),
        decreases keys@.len() - i,
    {
        match keys[i] {
            DeclaredKey::Prefix { owner, local: Some(local) } => {
                if trie.shard_for_prefix(&owner) == shard {
                    cells.push(SubstateKey { owner, local });
                }
            },
            _ => {},
        }
        assert(keys@.take(i + 1).drop_last() =~= keys@.take(i as int));
        i = i + 1;
    }
    assert(keys@.take(keys@.len() as int) =~= keys@);
    proof {
        law_owned_cells_are_the_declared_ones(keys@, shard, *trie);
    }
    cells
}

fn touches_shard(prefixes: &Vec<[u8; 16]>, shard: ShardId, trie: &ShardTrie) -> (r: bool)
    requires
        trie.wf(),
    ensures
        r == touches(prefixes@, shard, *trie),
{
    let mut i: usize = 0;
    while i < prefixes.len()
        invariant
            i <= prefixes@.len(),
            trie.wf(),
            forall|j: int|
                0 <= j < i ==> trie.shard_of((#[trigger] prefixes@[j])@) != shard,
        decreases prefixes@.len() - i,
    {
        if trie.shard_for_prefix(&prefixes[i]) == shard {
            assert(trie.shard_of(prefixes@[i as int]@) == shard);
            return true;
        }
        i = i + 1;
    }
    false
}

/// What a block's transactions come to when another shard asks for provisions.
pub fn requests_for(
    txs: &Vec<BlockTx>,
    local_shard: ShardId,
    target_shard: ShardId,
    trie: &ShardTrie,
) -> (requests: Vec<ProvisionsRequest>)
    requires
        trie.wf(),
    ensures
        are_requests(requests@, txs@, local_shard, target_shard, *trie),
{
    let mut requests: Vec<ProvisionsRequest> = Vec::new();
    let mut i: usize = 0;
    assert(txs@.take(0) =~= Seq::empty());
    while i < txs.len()
        invariant
            i <= txs@.len(),
            trie.wf(),
            are_requests(requests@, txs@.take(i as int), local_shard, target_shard, *trie),
        decreases txs@.len() - i,
    {
        let tx = &txs[i];
        let local_keys = owned_cells(&tx.provision_keys, local_shard, trie);
        let payer = trie.shard_for_prefix(&tx.fee_payer);
        let served = if local_keys.len() == 0 && payer != local_shard {
            payer == target_shard
        } else {
            touches_shard(&tx.prefixes, target_shard, trie)
        };
        assert(txs@.take(i + 1).drop_last() =~= txs@.take(i as int));
        assert(served == serves(*tx, local_shard, target_shard, *trie));
        if served {
            let ghost before = requests@;
            let mut targets: Vec<ShardId> = Vec::new();
            targets.push(target_shard);
            assert(targets@ =~= seq![target_shard]);
            requests.push(ProvisionsRequest { tx_hash: tx.tx_hash, targets, local_keys });
            assert(requests@.drop_last() =~= before);
        }
        i = i + 1;
    }
    assert(txs@.take(txs@.len() as int) =~= txs@);
    requests
}

/// Serves another shard's request for provisions at a block: nothing for a
/// block that is not there; otherwise what the same block's transactions have
/// every node stage.
pub fn serve_provision_request<R: Fn(SubstateKey) -> CellRead>(
    block: &Option<Vec<BlockTx>>,
    local_shard: ShardId,
    shard_trie: &ShardTrie,
    target_shard: ShardId,
    read: &R,
) -> (r: Option<StagedProvisions>)
    requires
        shard_trie.wf(),
        steady(*read),
    ensures
        match block {
            None => r is None,
            Some(txs) => exists|requests: Seq<ProvisionsRequest>| #[trigger]
                are_requests(requests, txs@, local_shard, target_shard, *shard_trie) && match r {
                    Some(staged) => staged_for(requests, target_shard, *read) == Some(
                        staged_view(staged.transactions@),
                    ) && key_views(staged.storage_keys@) == keys_of(
                        staged_view(staged.transactions@),
                    ),
                    None => staged_for(requests, target_shard, *read) is None,
                },
        },
{
    match block {
        None => None,
        Some(txs) => {
            let requests = requests_for(txs, local_shard, target_shard, shard_trie);
            assert(are_requests(requests@, txs@, local_shard, target_shard, *shard_trie));
            build_provisions(target_shard, &requests, read)
        },
    }
}

/// What a request says: its transaction, its targets and its cells.
pub open spec fn request_view(r: ProvisionsRequest) -> (TxHash, Seq<ShardId>, Seq<SubstateKey>) {
    (r.tx_hash, r.targets@, r.local_keys@)
}

/// Two nodes that serve the same block ask for the same cells, so a receiver
/// gets the same bundle whichever of them answers.
pub proof fn law_requests_are_determined(
    a: Seq<ProvisionsRequest>,
    b: Seq<ProvisionsRequest>,
    txs: Seq<BlockTx>,
    local: ShardId,
    target: ShardId,
    trie: ShardTrie,
)
    requires
        are_requests(a, txs, local, target, trie),
        are_requests(b, txs, local, target, trie),
    ensures
        a.map_values(|r: ProvisionsRequest| request_view(r)) == b.map_values(
            |r: ProvisionsRequest| request_view(r),
        ),
    decreases txs.len(),
{
    let view = |r: ProvisionsRequest| request_view(r);
    if txs.len() == 0 {
        assert(a.map_values(view) =~= b.map_values(view));
    } else if serves(txs.last(), local, target, trie) {
        law_requests_are_determined(
            a.drop_last(),
            b.drop_last(),
            txs.drop_last(),
            local,
            target,
            trie,
        );
        assert(a.map_values(view) =~= a.drop_last().map_values(view).push(
            request_view(a.last()),
        ));
        assert(b.map_values(view) =~= b.drop_last().map_values(view).push(
            request_view(b.last()),
        ));
    } else {
        law_requests_are_determined(a, b, txs.drop_last(), local, target, trie);
    }
}

/// A payer's shard always answers a shard that its transaction touches, even
/// with nothing owned: the bundle is the evidence that the payer committed.
pub proof fn law_payer_serves_everyone_touched(
    tx: BlockTx,
    target: ShardId,
    trie: ShardTrie,
)
    ensures
        serves(tx, trie.shard_of(tx.fee_payer@), target, trie) == touches(
            tx.prefixes@,
            target,
            trie,
        ),
{
}

/// The cells that a shard serves of a declaration are those of its keys that
/// name a cell of an owner on that shard: all of them, in their order, as often
/// as they are declared, and nothing else.
pub proof fn law_owned_cells_are_the_declared_ones(
    keys: Seq<DeclaredKey>,
    shard: ShardId,
    trie: ShardTrie,
)
    ensures
        cells_owned(keys, shard, trie) == keys.filter(
            |k: DeclaredKey|
                match k {
                    DeclaredKey::Prefix { owner, local } => local is Some && trie.shard_of(owner@)
                        == shard,
                    DeclaredKey::Node { .. } => false,
                },
        ).map_values(
            |k: DeclaredKey| SubstateKey { owner: k->Prefix_owner, local: k->Prefix_local->0 },
        ),
        forall|owner: [u8; 16], local: [u8; 16]|
            #![trigger cells_owned(keys, shard, trie).contains(SubstateKey { owner, local })]
            cells_owned(keys, shard, trie).contains(SubstateKey { owner, local }) == (
            trie.shard_of(owner@) == shard && keys.contains(
                DeclaredKey::Prefix { owner, local: Some(local) },
            )),
    decreases keys.len(),
{
    reveal(Seq::filter);
    let keep = |k: DeclaredKey|
        match k {
            DeclaredKey::Prefix { owner, local } => local is Some && trie.shard_of(owner@) == shard,
            DeclaredKey::Node { .. } => false,
        };
    let cell = |k: DeclaredKey|
        SubstateKey { owner: k->Prefix_owner, local: k->Prefix_local->0 };
    let all = cells_owned(keys, shard, trie);
    if keys.len() > 0 {
        law_owned_cells_are_the_declared_ones(keys.drop_last(), shard, trie);
        let before = keys.drop_last().filter(keep);
        assert(before.push(keys.last()).map_values(cell) =~= before.map_values(cell).push(
            cell(keys.last()),
        ));
    }
    assert(all =~= keys.filter(keep).map_values(cell));
    lemma_filter_holds(keys, keep);
    assert forall|owner: [u8; 16], local: [u8; 16]|
        #![trigger all.contains(SubstateKey { owner, local })]
        all.contains(SubstateKey { owner, local }) == (trie.shard_of(owner@) == shard
            && keys.contains(DeclaredKey::Prefix { owner, local: Some(local) })) by {
        let key = SubstateKey { owner, local };
        let declared = DeclaredKey::Prefix { owner, local: Some(local) };
        let kept = keys.filter(keep);
        if all.contains(key) {
            let i = choose|i: int| 0 <= i < all.len() && all[i] == key;
            assert(keep(kept[i]) && keys.contains(kept[i]));
            assert(kept[i] == declared);
        }
        if trie.shard_of(owner@) == shard && keys.contains(declared) {
            assert(keep(declared));
            assert(kept.contains(declared));
            let i = choose|i: int| 0 <= i < kept.len() && kept[i] == declared;
            assert(all[i] == key);
        }
    }
}

/// A shard answers with every transaction that it owes an answer for, in order,
/// and with no other: the payer's shard, and one that owns a cell of the read
/// set, owe it to every shard with an owner that the transaction touches; any
/// other shard owes its echo to the payer's shard alone. The request names the
/// transaction, the asking shard and the owned cells of the read set.
pub proof fn law_a_block_is_served_whole(
    requests: Seq<ProvisionsRequest>,
    txs: Seq<BlockTx>,
    local: ShardId,
    target: ShardId,
    trie: ShardTrie,
)
    requires
        are_requests(requests, txs, local, target, trie),
    ensures
        ({
            let owed = txs.filter(
                |tx: BlockTx|
                    if trie.shard_of(tx.fee_payer@) == local || exists|k: int|
                        0 <= k < tx.provision_keys@.len() && (
                        #[trigger] tx.provision_keys@[k]) is Prefix
                            && tx.provision_keys@[k]->Prefix_local is Some && trie.shard_of(
                            tx.provision_keys@[k]->Prefix_owner@,
                        ) == local {
                        exists|p: int|
                            0 <= p < tx.prefixes@.len() && trie.shard_of(
                                (#[trigger] tx.prefixes@[p])@,
                            ) == target
                    } else {
                        trie.shard_of(tx.fee_payer@) == target
                    },
            );
            &&& requests.len() == owed.len()
            &&& forall|i: int|
                0 <= i < owed.len() ==> {
                    &&& (#[trigger] requests[i]).tx_hash == owed[i].tx_hash
                    &&& requests[i].targets@ == seq![target]
                    &&& requests[i].local_keys@ == owed[i].provision_keys@.filter(
                        |k: DeclaredKey|
                            match k {
                                DeclaredKey::Prefix { owner, local: half } => half is Some
                                    && trie.shard_of(owner@) == local,
                                DeclaredKey::Node { .. } => false,
                            },
                    ).map_values(
                        |k: DeclaredKey|
                            SubstateKey { owner: k->Prefix_owner, local: k->Prefix_local->0 },
                    )
                }
        }),
    decreases txs.len(),
{
    reveal(Seq::filter);
    let owes = |tx: BlockTx|
        if trie.shard_of(tx.fee_payer@) == local || exists|k: int|
            0 <= k < tx.provision_keys@.len() && (#[trigger] tx.provision_keys@[k]) is Prefix
                && tx.provision_keys@[k]->Prefix_local is Some && trie.shard_of(
                tx.provision_keys@[k]->Prefix_owner@,
            ) == local {
            exists|p: int|
                0 <= p < tx.prefixes@.len() && trie.shard_of((#[trigger] tx.prefixes@[p])@)
                    == target
        } else {
            trie.shard_of(tx.fee_payer@) == target
        };
    if txs.len() > 0 {
        let tx = txs.last();
        law_owned_cells_are_the_declared_ones(tx.provision_keys@, local, trie);
        lemma_owns_some(tx.provision_keys@, local, trie);
        assert(serves(tx, local, target, trie) == owes(tx));
        if owes(tx) {
            law_a_block_is_served_whole(requests.drop_last(), txs.drop_last(), local, target, trie);
            let owed = txs.drop_last().filter(owes);
            assert(txs.filter(owes) == owed.push(tx));
            assert forall|i: int| 0 <= i < owed.len() implies (#[trigger] requests[i])
                == requests.drop_last()[i] by {}
        } else {
            law_a_block_is_served_whole(requests, txs.drop_last(), local, target, trie);
        }
    }
}

/// A shard owns cells of a declaration exactly where some key names one.
proof fn lemma_owns_some(keys: Seq<DeclaredKey>, shard: ShardId, trie: ShardTrie)
    ensures
        (cells_owned(keys, shard, trie).len() > 0) == exists|k: int|
            0 <= k < keys.len() && (#[trigger] keys[k]) is Prefix && keys[k]->Prefix_local is Some
                && trie.shard_of(keys[k]->Prefix_owner@) == shard,
    decreases keys.len(),
{
    if keys.len() > 0 {
        let before = keys.drop_last();
        lemma_owns_some(before, shard, trie);
        if cells_owned(before, shard, trie).len() > 0 {
            let k = choose|k: int|
                0 <= k < before.len() && (#[trigger] before[k]) is Prefix
                    && before[k]->Prefix_local is Some && trie.shard_of(before[k]->Prefix_owner@)
                    == shard;
            assert(keys[k] == before[k]);
        } else if exists|k: int|
            0 <= k < keys.len() && (#[trigger] keys[k]) is Prefix && keys[k]->Prefix_local is Some
                && trie.shard_of(keys[k]->Prefix_owner@) == shard {
            let k = choose|k: int|
                0 <= k < keys.len() && (#[trigger] keys[k]) is Prefix && keys[k]->Prefix_local is Some
                    && trie.shard_of(keys[k]->Prefix_owner@) == shard;
            if k < before.len() {
                assert(before[k] == keys[k]);
            }
        }
        if cells_owned(keys, shard, trie).len() > cells_owned(before, shard, trie).len() {
            assert(keys[keys.len() - 1] is Prefix);
        }
    }
}

} // verus!
