//! Building a bundle of provisions for one pair of shards.
use vstd::prelude::*;

use crate::engine::baseline::SubstateEntry;
use crate::engine::executor::entry_views;
use crate::execution::provisioning::EntryList;
use crate::hash::Hash32;
use crate::shard::ShardId;
use crate::storage::canonical::copy_bytes;
use crate::storage::state_key::{flat, vm_flat_key, VM_PARTITION};
use crate::time::WeightedTimestamp;
use crate::types::{SubstateKey, TxHash};

verus! {

/// What a shard is asked to provision for a transaction.
#[derive(Debug, PartialEq, Eq)]
pub struct ProvisionsRequest {
    /// The transaction.
    pub tx_hash: TxHash,
    /// The shards that are to be provisioned.
    pub targets: Vec<ShardId>,
    /// The cells of its read set that this shard owns.
    pub local_keys: Vec<SubstateKey>,
}

/// What reading a cell at a height gives.
#[derive(Debug, PartialEq, Eq)]
pub enum CellRead {
    /// The height is not available.
    Unavailable,
    /// The cell holds nothing.
    Absent,
    /// The cell holds a value.
    Present(Vec<u8>),
}

/// What a read says: nothing, where the height is not available.
pub open spec fn read_view(r: CellRead) -> Option<Option<Seq<u8>>> {
    match r {
        CellRead::Unavailable => None,
        CellRead::Absent => Some(None),
        CellRead::Present(v) => Some(Some(v@)),
    }
}

/// A reader that answers for every cell, and always says the same of it.
pub open spec fn steady<R: Fn(SubstateKey) -> CellRead>(f: R) -> bool {
    &&& forall|key: SubstateKey| call_requires(f, (key,))
    &&& forall|key: SubstateKey, a: CellRead, b: CellRead|
        call_ensures(f, (key,), a) && call_ensures(f, (key,), b) ==> read_view(a) == read_view(b)
}

/// What a reader says of a cell.
pub open spec fn reads<R: Fn(SubstateKey) -> CellRead>(f: R, key: SubstateKey) -> Option<
    Option<Seq<u8>>,
> {
    read_view(choose|r: CellRead| call_ensures(f, (key,), r))
}

/// The entries of the cells that hold a value, under their flat keys; nothing,
/// where a cell cannot be read.
pub open spec fn read_entries<R: Fn(SubstateKey) -> CellRead>(keys: Seq<SubstateKey>, f: R) -> Option<
    EntryList,
>
    decreases keys.len(),
{
    if keys.len() == 0 {
        Some(Seq::empty())
    } else {
        match (read_entries(keys.drop_last(), f), reads(f, keys.last())) {
            (Some(before), Some(Some(v))) => Some(before.push((flat(keys.last()), Some(v)))),
            (Some(before), Some(None)) => Some(before),
            _ => None,
        }
    }
}

/// What is staged for a shard, by transaction: the requests that name it, in
/// order, each with its entries. A request without cells stages its
/// transaction all the same.
pub open spec fn staged_for<R: Fn(SubstateKey) -> CellRead>(
    requests: Seq<ProvisionsRequest>,
    target: ShardId,
    f: R,
) -> Option<Seq<(TxHash, EntryList)>>
    decreases requests.len(),
{
    if requests.len() == 0 {
        Some(Seq::empty())
    } else {
        let last = requests.last();
        match staged_for(requests.drop_last(), target, f) {
            None => None,
            Some(before) => if last.targets@.contains(target) {
                match read_entries(last.local_keys@, f) {
                    Some(entries) => Some(before.push((last.tx_hash, entries))),
                    None => None,
                }
            } else {
                Some(before)
            },
        }
    }
}

/// The keys that a bundle's proof has to cover.
pub open spec fn keys_of(staged: Seq<(TxHash, EntryList)>) -> Seq<Seq<u8>>
    decreases staged.len(),
{
    if staged.len() == 0 {
        Seq::empty()
    } else {
        keys_of(staged.drop_last()) + staged.last().1.map_values(
            |e: (Seq<u8>, Option<Seq<u8>>)| e.0,
        )
    }
}

/// A bundle before it has a proof.
#[derive(Debug, PartialEq, Eq)]
pub struct StagedProvisions {
    /// The entries of each transaction.
    pub transactions: Vec<(TxHash, Vec<SubstateEntry>)>,
    /// The keys that its proof has to cover.
    pub storage_keys: Vec<Vec<u8>>,
}

/// Staged entries as they read.
pub open spec fn staged_view(s: Seq<(TxHash, Vec<SubstateEntry>)>) -> Seq<(TxHash, EntryList)> {
    s.map_values(|t: (TxHash, Vec<SubstateEntry>)| (t.0, entry_views(t.1@)))
}

/// Byte strings as they read.
pub open spec fn key_views(s: Seq<Vec<u8>>) -> Seq<Seq<u8>> {
    s.map_values(|k: Vec<u8>| k@)
}

fn holds_shard(list: &Vec<ShardId>, shard: ShardId) -> (r: bool)
    ensures
        r == list@.contains(shard),
{
    let mut i: usize = 0;
    while i < list.len()
        invariant
            i <= list@.len(),
            forall|j: int| 0 <= j < i ==> #[trigger] list@[j] != shard,
        decreases list@.len() - i,
    {
        if list[i] == shard {
            assert(list@[i as int] == shard);
            return true;
        }
        i = i + 1;
    }
    false
}

proof fn lemma_unread<R: Fn(SubstateKey) -> CellRead>(keys: Seq<SubstateKey>, f: R, i: int)
    requires
        0 <= i <= keys.len(),
        read_entries(keys.take(i), f) is None,
    ensures
        read_entries(keys, f) is None,
    decreases keys.len() - i,
{
    if i == keys.len() {
        assert(keys.take(i) =~= keys);
    } else {
        assert(keys.take(i + 1).drop_last() =~= keys.take(i));
        lemma_unread(keys, f, i + 1);
    }
}

proof fn lemma_unstaged<R: Fn(SubstateKey) -> CellRead>(
    requests: Seq<ProvisionsRequest>,
    target: ShardId,
    f: R,
    i: int,
)
    requires
        0 <= i <= requests.len(),
        staged_for(requests.take(i), target, f) is None,
    ensures
        staged_for(requests, target, f) is None,
    decreases requests.len() - i,
{
    if i == requests.len() {
        assert(requests.take(i) =~= requests);
    } else {
        assert(requests.take(i + 1).drop_last() =~= requests.take(i));
        lemma_unstaged(requests, target, f, i + 1);
    }
}

fn stage<R: Fn(SubstateKey) -> CellRead>(keys: &Vec<SubstateKey>, read: &R) -> (r: Option<
    Vec<SubstateEntry>,
>)
    requires
        steady(*read),
    ensures
        match r {
            Some(entries) => read_entries(keys@, *read) == Some(entry_views(entries@)),
            None => read_entries(keys@, *read) is None,
        },
{
    let mut entries: Vec<SubstateEntry> = Vec::new();
    let mut i: usize = 0;
    assert(keys@.take(0) =~= Seq::empty());
    assert(entry_views(entries@) =~= Seq::empty());
    while i < keys.len()
        invariant
            i <= keys@.len(),
            steady(*read),
            read_entries(keys@.take(i as int), *read) == Some(entry_views(entries@)),
        decreases keys@.len() - i,
    {
        let key = keys[i];
        let value = (*read)(key);
        proof {
            assert(call_ensures(*read, (key,), value));
            assert(reads(*read, key) == read_view(value));
            assert(keys@.take(i + 1).drop_last() =~= keys@.take(i as int));
        }
        match value {
            CellRead::Unavailable => {
                proof {
                    lemma_unread(keys@, *read, i + 1);
                }
                return None;
            },
            CellRead::Absent => {},
            CellRead::Present(v) => {
                let ghost before = entries@;
                let entry = SubstateEntry { storage_key: vm_flat_key(&key), value: Some(v) };
                entries.push(entry);
                assert(entry_views(entries@) =~= entry_views(before).push(
                    (flat(key), Some(v@)),
                ));
            },
        }
        i = i + 1;
    }
    assert(keys@.take(keys@.len() as int) =~= keys@);
    Some(entries)
}

fn add_keys(keys: &mut Vec<Vec<u8>>, entries: &Vec<SubstateEntry>)
    ensures
        key_views(final(keys)@) == key_views(old(keys)@) + entry_views(entries@).map_values(
            |e: (Seq<u8>, Option<Seq<u8>>)| e.0,
        ),
{
    let ghost start = keys@;
    let ghost all = entry_views(entries@).map_values(|e: (Seq<u8>, Option<Seq<u8>>)| e.0);
    let mut i: usize = 0;
    assert(key_views(start) + all.take(0) =~= key_views(start));
    while i < entries.len()
        invariant
            i <= entries@.len(),
            start == old(keys)@,
            all == entry_views(entries@).map_values(|e: (Seq<u8>, Option<Seq<u8>>)| e.0),
            key_views(keys@) == key_views(start) + all.take(i as int),
        decreases entries@.len() - i,
    {
        let ghost before = keys@;
        let key = copy_bytes(&entries[i].storage_key);
        keys.push(key);
        proof {
            assert(all[i as int] == entries@[i as int].storage_key@);
            assert(key_views(keys@) =~= key_views(before).push(all[i as int]));
            assert(key_views(start) + all.take(i + 1) =~= (key_views(start) + all.take(
                i as int,
            )).push(all[i as int]));
        }
        i = i + 1;
    }
    assert(all.take(entries@.len() as int) =~= all);
}

/// Reads what a bundle for a shard holds at the source height: the exact cells
/// of each transaction's local read set. Nothing, where the height is not
/// available.
pub fn build_provisions<R: Fn(SubstateKey) -> CellRead>(
    target_shard: ShardId,
    requests: &Vec<ProvisionsRequest>,
    read: &R,
) -> (r: Option<StagedProvisions>)
    requires
        steady(*read),
    ensures
        match r {
            Some(staged) => {
                &&& staged_for(requests@, target_shard, *read) == Some(
                    staged_view(staged.transactions@),
                )
                &&& key_views(staged.storage_keys@) == keys_of(staged_view(staged.transactions@))
            },
            None => staged_for(requests@, target_shard, *read) is None,
        },
{
    let mut transactions: Vec<(TxHash, Vec<SubstateEntry>)> = Vec::new();
    let mut storage_keys: Vec<Vec<u8>> = Vec::new();
    let mut i: usize = 0;
    proof {
        assert(requests@.take(0) =~= Seq::empty());
        assert(staged_view(transactions@) =~= Seq::empty());
        assert(key_views(storage_keys@) =~= Seq::empty());
    }
    while i < requests.len()
        invariant
            i <= requests@.len(),
            steady(*read),
            staged_for(requests@.take(i as int), target_shard, *read) == Some(
                staged_view(transactions@),
            ),
            key_views(storage_keys@) == keys_of(staged_view(transactions@)),
        decreases requests@.len() - i,
    {
        assert(requests@.take(i + 1).drop_last() =~= requests@.take(i as int));
        if holds_shard(&requests[i].targets, target_shard) {
            match stage(&requests[i].local_keys, read) {
                None => {
                    proof {
                        lemma_unstaged(requests@, target_shard, *read, i + 1);
                    }
                    return None;
                },
                Some(entries) => {
                    let ghost before = transactions@;
                    add_keys(&mut storage_keys, &entries);
                    let tx_hash = requests[i].tx_hash;
                    transactions.push((tx_hash, entries));
                    proof {
                        let view = staged_view(transactions@);
                        assert(view =~= staged_view(before).push(
                            (tx_hash, entry_views(entries@)),
                        ));
                        assert(view.drop_last() =~= staged_view(before));
                    }
                },
            }
        }
        i = i + 1;
    }
    assert(requests@.take(requests@.len() as int) =~= requests@);
    Some(StagedProvisions { transactions, storage_keys })
}

/// A bundle of provisions for one pair of shards.
#[derive(Debug, PartialEq, Eq)]
pub struct ProvisionsBundle<P> {
    /// The shard it comes from.
    pub source_shard: ShardId,
    /// The shard it is for.
    pub target_shard: ShardId,
    /// The height it was read at.
    pub source_block_height: u64,
    /// The attested clock of that block.
    pub source_block_ts: WeightedTimestamp,
    /// The reveal chain of that block.
    pub source_block_reveal: Hash32,
    /// The proof that its entries are part of that block's state.
    pub proof: P,
    /// The entries of each transaction.
    pub transactions: Vec<(TxHash, Vec<SubstateEntry>)>,
}

/// Completes a bundle with its proof. One that holds no entry needs none and
/// takes the empty proof; another comes to nothing where no proof could be
/// made.
pub fn seal_provisions<P>(
    source_shard: ShardId,
    target_shard: ShardId,
    source_block_height: u64,
    source_block_ts: WeightedTimestamp,
    source_block_reveal: Hash32,
    staged: StagedProvisions,
    empty: P,
    proof_of_keys: Option<P>,
) -> (r: Option<ProvisionsBundle<P>>)
    ensures
        r is Some <==> staged.storage_keys@.len() == 0 || proof_of_keys is Some,
        r is Some ==> r->0 == (ProvisionsBundle {
            source_shard,
            target_shard,
            source_block_height,
            source_block_ts,
            source_block_reveal,
            proof: if staged.storage_keys@.len() == 0 {
                empty
            } else {
                proof_of_keys->0
            },
            transactions: staged.transactions,
        }),
{
    let chosen = if staged.storage_keys.len() == 0 {
        empty
    } else {
        match proof_of_keys {
            Some(p) => p,
            None => return None,
        }
    };
    Some(
        ProvisionsBundle {
            source_shard,
            target_shard,
            source_block_height,
            source_block_ts,
            source_block_reveal,
            proof: chosen,
            transactions: staged.transactions,
        },
    )
}

/// A request's entries are the values that were read of its cells: they come to
/// nothing exactly where some cell cannot be read, and otherwise there is an
/// entry for each cell that holds a value, in order, under the owner, the
/// partition and the local half of its key.
pub proof fn law_entries_are_what_was_read<R: Fn(SubstateKey) -> CellRead>(
    keys: Seq<SubstateKey>,
    f: R,
)
    requires
        steady(f),
    ensures
        read_entries(keys, f) is None <==> exists|i: int|
            0 <= i < keys.len() && reads(f, #[trigger] keys[i]) is None,
        read_entries(keys, f) is Some ==> read_entries(keys, f)->0 == keys.filter(
            |k: SubstateKey| reads(f, k)->0 is Some,
        ).map_values(
            |k: SubstateKey|
                (k.owner@ + seq![VM_PARTITION] + k.local@, Some(reads(f, k)->0->0)),
        ),
    decreases keys.len(),
{
    reveal(Seq::filter);
    let full = |k: SubstateKey| reads(f, k)->0 is Some;
    let entry = |k: SubstateKey|
        (k.owner@ + seq![VM_PARTITION] + k.local@, Some(reads(f, k)->0->0));
    if keys.len() > 0 {
        let before = keys.drop_last();
        law_entries_are_what_was_read(before, f);
        if read_entries(before, f) is None {
            let i = choose|i: int| 0 <= i < before.len() && reads(f, #[trigger] before[i]) is None;
            assert(reads(f, keys[i]) is None);
        } else {
            assert(before.filter(full).push(keys.last()).map_values(entry) =~= before.filter(
                full,
            ).map_values(entry).push(entry(keys.last())));
            if reads(f, keys.last()) is None {
                assert(reads(f, keys[keys.len() - 1]) is None);
            } else {
                assert(read_entries(keys, f)->0 =~= keys.filter(full).map_values(entry));
                assert forall|i: int| 0 <= i < keys.len() implies !(reads(
                    f,
                    #[trigger] keys[i],
                ) is None) by {
                    if i < before.len() {
                        assert(before[i] == keys[i]);
                    }
                }
            }
        }
    } else {
        assert(read_entries(keys, f)->0 =~= keys.filter(full).map_values(entry));
    }
}

/// What a reader says is what any call of it came to: nothing for a height that
/// is not available, and the value where the cell holds one.
pub proof fn law_a_read_is_what_the_reader_says<R: Fn(SubstateKey) -> CellRead>(
    f: R,
    key: SubstateKey,
    r: CellRead,
)
    requires
        steady(f),
        call_ensures(f, (key,), r),
    ensures
        r is Unavailable <==> reads(f, key) is None,
        r is Absent <==> reads(f, key) == Some(None::<Seq<u8>>),
        r is Present ==> reads(f, key) == Some(Some(r->Present_0@)),
{
}

/// A bundle stages every request that names the shard, in order, each with its
/// own entries, and no other; it comes to nothing exactly where some cell of
/// such a request cannot be read.
pub proof fn law_every_request_is_staged<R: Fn(SubstateKey) -> CellRead>(
    requests: Seq<ProvisionsRequest>,
    target: ShardId,
    f: R,
)
    requires
        steady(f),
    ensures
        staged_for(requests, target, f) is None <==> exists|i: int, k: int|
            0 <= i < requests.len() && 0 <= k < requests[i].local_keys@.len()
                && requests[i].targets@.contains(target) && reads(
                f,
                #[trigger] requests[i].local_keys@[k],
            ) is None,
        staged_for(requests, target, f) is Some ==> staged_for(requests, target, f)->0
            == requests.filter(|r: ProvisionsRequest| r.targets@.contains(target)).map_values(
            |r: ProvisionsRequest| (r.tx_hash, read_entries(r.local_keys@, f)->0),
        ),
    decreases requests.len(),
{
    reveal(Seq::filter);
    let asked = |r: ProvisionsRequest| r.targets@.contains(target);
    let staged = |r: ProvisionsRequest| (r.tx_hash, read_entries(r.local_keys@, f)->0);
    if requests.len() > 0 {
        let before = requests.drop_last();
        let last = requests.last();
        law_every_request_is_staged(before, target, f);
        law_entries_are_what_was_read(last.local_keys@, f);
        if staged_for(before, target, f) is None {
            let (i, k) = choose|i: int, k: int|
                0 <= i < before.len() && 0 <= k < before[i].local_keys@.len()
                    && before[i].targets@.contains(target) && reads(
                    f,
                    #[trigger] before[i].local_keys@[k],
                ) is None;
            assert(requests[i] == before[i]);
            assert(reads(f, requests[i].local_keys@[k]) is None);
        } else if staged_for(requests, target, f) is None {
            let k = choose|k: int|
                0 <= k < last.local_keys@.len() && reads(f, #[trigger] last.local_keys@[k]) is None;
            assert(reads(f, requests[requests.len() - 1].local_keys@[k]) is None);
        } else {
            assert(before.filter(asked).push(last).map_values(staged) =~= before.filter(
                asked,
            ).map_values(staged).push(staged(last)));
            assert(staged_for(requests, target, f)->0 =~= requests.filter(asked).map_values(
                staged,
            ));
            assert forall|i: int, k: int|
                0 <= i < requests.len() && 0 <= k < requests[i].local_keys@.len()
                    && requests[i].targets@.contains(target) implies !(reads(
                f,
                #[trigger] requests[i].local_keys@[k],
            ) is None) by {
                if i < before.len() {
                    assert(before[i] == requests[i]);
                    assert(before[i].local_keys@[k] == requests[i].local_keys@[k]);
                } else {
                    assert(requests[i] == last);
                }
            }
        }
    } else {
        assert(staged_for(requests, target, f)->0 =~= requests.filter(asked).map_values(staged));
    }
}

/// A bundle's proof covers every key of its entries, in order, and no other.
pub proof fn law_the_proof_covers_every_entry(staged: Seq<(TxHash, EntryList)>, key: Seq<u8>)
    ensures
        keys_of(staged).contains(key) <==> exists|i: int, e: int|
            0 <= i < staged.len() && 0 <= e < staged[i].1.len() && #[trigger] staged[i].1[e].0
                == key,
    decreases staged.len(),
{
    if staged.len() > 0 {
        let before = staged.drop_last();
        let keys = staged.last().1.map_values(|e: (Seq<u8>, Option<Seq<u8>>)| e.0);
        law_the_proof_covers_every_entry(before, key);
        let all = keys_of(staged);
        if all.contains(key) {
            let n = choose|n: int| 0 <= n < all.len() && all[n] == key;
            if n < keys_of(before).len() {
                assert(keys_of(before)[n] == key);
                assert(keys_of(before).contains(key));
                let (i, e) = choose|i: int, e: int|
                    0 <= i < before.len() && 0 <= e < before[i].1.len()
                        && #[trigger] before[i].1[e].0 == key;
                assert(staged[i].1[e].0 == key);
            } else {
                let e = n - keys_of(before).len();
                assert(staged[staged.len() - 1].1[e].0 == key);
            }
        }
        if exists|i: int, e: int|
            0 <= i < staged.len() && 0 <= e < staged[i].1.len() && #[trigger] staged[i].1[e].0
                == key {
            let (i, e) = choose|i: int, e: int|
                0 <= i < staged.len() && 0 <= e < staged[i].1.len()
                    && #[trigger] staged[i].1[e].0 == key;
            if i < before.len() {
                assert(before[i].1[e].0 == key);
                let n = choose|n: int| 0 <= n < keys_of(before).len() && keys_of(before)[n] == key;
                assert(all[n] == key);
            } else {
                assert(all[keys_of(before).len() + e] == key);
            }
        }
    }
}

/// What is staged reads as each transaction with all its entries, in order, and the
/// keys of a proof as their bytes, in order.
pub proof fn law_what_is_staged_reads_as_it_stands(
    staged: Seq<(TxHash, Vec<SubstateEntry>)>,
    keys: Seq<Vec<u8>>,
    i: int,
    k: int,
)
    requires
        0 <= i < staged.len(),
        0 <= k < keys.len(),
    ensures
        staged_view(staged).len() == staged.len(),
        staged_view(staged)[i].0 == staged[i].0,
        staged_view(staged)[i].1.len() == staged[i].1@.len(),
        staged_view(staged)[i].1 == entry_views(staged[i].1@),
        key_views(keys).len() == keys.len(),
        key_views(keys)[k] == keys[k]@,
{
}

} // verus!
