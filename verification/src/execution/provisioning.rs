//! Which transactions have what they need from other shards.
use vstd::prelude::*;

use crate::engine::baseline::SubstateEntry;
use crate::engine::executor::{entry_view, entry_views};
use crate::shard::ShardId;
use crate::list::{last_at, lemma_last_at, some_at};
use crate::sorted::{lemma_sorted_distinct, lemma_take_next, strictly_sorted, SortedMap, SortedSet};
use crate::storage::canonical::copy_bytes;
use crate::time::{Duration, WeightedTimestamp};
use crate::types::TxHash;

verus! {

/// What a source shard provisions for one transaction.
pub struct ProvisionEntry {
    /// The transaction.
    pub tx_hash: TxHash,
    /// The entries of state.
    pub entries: Vec<SubstateEntry>,
    /// The account that owns each vault, of those the source resolves.
    pub owned_nodes: Vec<([u8; 30], [u8; 30])>,
}

/// A committed bundle of provisions.
pub struct Provisions {
    /// The shard it comes from.
    pub source_shard: ShardId,
    /// The attested clock of the block it was read at.
    pub source_block_ts: WeightedTimestamp,
    /// What it holds for each transaction.
    pub transactions: Vec<ProvisionEntry>,
}

/// Entries as they read.
pub type EntryList = Seq<(Seq<u8>, Option<Seq<u8>>)>;

/// What a tracker knows.
pub ghost struct Provisioning {
    /// The entry lists of each transaction, one for each contribution.
    pub verified: Map<TxHash, Seq<EntryList>>,
    /// The account that owns each vault, by transaction.
    pub ownership: Map<TxHash, Map<[u8; 30], [u8; 30]>>,
    /// The shards that each transaction needs provisions from.
    pub required: Map<TxHash, Set<ShardId>>,
    /// The shards that provisioned, each with its block's clock.
    pub received: Map<TxHash, Map<ShardId, WeightedTimestamp>>,
    /// The remote payer's shard of each transaction.
    pub payers: Map<TxHash, ShardId>,
    /// When each transaction's state may be dropped.
    pub deadlines: Map<TxHash, WeightedTimestamp>,
    /// The latest attested clock.
    pub now: WeightedTimestamp,
}

/// Tracks what cross-shard transactions need and what has landed.
pub struct ProvisioningTracker {
    verified: SortedMap<TxHash, Vec<Vec<SubstateEntry>>>,
    ownership: SortedMap<TxHash, SortedMap<[u8; 30], [u8; 30]>>,
    required: SortedMap<TxHash, SortedSet<ShardId>>,
    received: SortedMap<TxHash, SortedMap<ShardId, WeightedTimestamp>>,
    payers: SortedMap<TxHash, ShardId>,
    deadlines: SortedMap<TxHash, WeightedTimestamp>,
    now: WeightedTimestamp,
    horizon: Duration,
}

/// Entry lists as they read.
pub open spec fn lists_view(lists: Seq<Vec<SubstateEntry>>) -> Seq<EntryList> {
    lists.map_values(|l: Vec<SubstateEntry>| entry_views(l@))
}

impl View for ProvisioningTracker {
    type V = Provisioning;

    closed spec fn view(&self) -> Provisioning {
        Provisioning {
            verified: self.verified@.map_values(|l: Vec<Vec<SubstateEntry>>| lists_view(l@)),
            ownership: self.ownership@.map_values(|m: SortedMap<[u8; 30], [u8; 30]>| m@),
            required: self.required@.map_values(|s: SortedSet<ShardId>| s@),
            received: self.received@.map_values(|m: SortedMap<ShardId, WeightedTimestamp>| m@),
            payers: self.payers@,
            deadlines: self.deadlines@,
            now: self.now,
        }
    }
}

/// A map with an entry that is created empty where it is missing.
pub open spec fn entry_of<V>(m: Map<TxHash, V>, tx: TxHash, none: V) -> V {
    if m.contains_key(tx) {
        m[tx]
    } else {
        none
    }
}

/// Two maps hold the same for a transaction.
pub open spec fn same_at<V>(a: Map<TxHash, V>, b: Map<TxHash, V>, tx: TxHash) -> bool {
    a.contains_key(tx) == b.contains_key(tx) && (a.contains_key(tx) ==> a[tx] == b[tx])
}

impl Provisioning {
    /// Nothing is known.
    pub open spec fn nothing() -> Provisioning {
        Provisioning {
            verified: Map::empty(),
            ownership: Map::empty(),
            required: Map::empty(),
            received: Map::empty(),
            payers: Map::empty(),
            deadlines: Map::empty(),
            now: WeightedTimestamp { millis: 0 },
        }
    }

    /// The clock is moved on; an earlier reading changes nothing.
    pub open spec fn clocked(self, now: WeightedTimestamp) -> Provisioning {
        Provisioning {
            now: if now.millis > self.now.millis {
                now
            } else {
                self.now
            },
            ..self
        }
    }

    /// What a transaction needs is recorded.
    pub open spec fn requiring(
        self,
        tx: TxHash,
        shards: Set<ShardId>,
        horizon: Duration,
    ) -> Provisioning {
        Provisioning { required: self.required.insert(tx, shards), ..self }.stamped(tx, horizon)
    }

    /// Where a transaction is paid from is recorded.
    pub open spec fn paid_from(self, tx: TxHash, shard: ShardId) -> Provisioning {
        Provisioning { payers: self.payers.insert(tx, shard), ..self }
    }

    /// Nothing is known of a transaction.
    pub open spec fn knows_nothing(self, tx: TxHash) -> bool {
        &&& !self.verified.contains_key(tx)
        &&& !self.ownership.contains_key(tx)
        &&& !self.required.contains_key(tx)
        &&& !self.received.contains_key(tx)
        &&& !self.payers.contains_key(tx)
        &&& !self.deadlines.contains_key(tx)
    }

    /// As much is known of a transaction.
    pub open spec fn knows_alike(self, other: Provisioning, tx: TxHash) -> bool {
        &&& same_at(self.verified, other.verified, tx)
        &&& same_at(self.ownership, other.ownership, tx)
        &&& same_at(self.required, other.required, tx)
        &&& same_at(self.received, other.received, tx)
        &&& same_at(self.payers, other.payers, tx)
        &&& same_at(self.deadlines, other.deadlines, tx)
    }

    /// A deadline is set, or moved out. It is never moved in.
    pub open spec fn stamped(self, tx: TxHash, horizon: Duration) -> Provisioning {
        let deadline = self.now.later(horizon);
        let kept = if self.deadlines.contains_key(tx) && self.deadlines[tx].millis
            >= deadline.millis {
            self.deadlines[tx]
        } else {
            deadline
        };
        Provisioning { deadlines: self.deadlines.insert(tx, kept), ..self }
    }

    /// A contribution for one transaction is taken in.
    pub open spec fn with_entry(
        self,
        entry: ProvisionEntry,
        source: ShardId,
        ts: WeightedTimestamp,
        horizon: Duration,
    ) -> Provisioning {
        let tx = entry.tx_hash;
        Provisioning {
            verified: self.verified.insert(
                tx,
                entry_of(self.verified, tx, Seq::empty()).push(entry_views(entry.entries@)),
            ),
            ownership: self.ownership.insert(
                tx,
                owned(entry_of(self.ownership, tx, Map::empty()), entry.owned_nodes@),
            ),
            received: self.received.insert(
                tx,
                entry_of(self.received, tx, Map::empty()).insert(source, ts),
            ),
            ..self
        }.stamped(tx, horizon)
    }

    /// Contributions are taken in, one after the other.
    pub open spec fn with_entries(
        self,
        entries: Seq<ProvisionEntry>,
        source: ShardId,
        ts: WeightedTimestamp,
        horizon: Duration,
    ) -> Provisioning
        decreases entries.len(),
    {
        if entries.len() == 0 {
            self
        } else {
            self.with_entries(entries.drop_last(), source, ts, horizon).with_entry(
                entries.last(),
                source,
                ts,
                horizon,
            )
        }
    }

    /// Everything known of a transaction is dropped.
    pub open spec fn without(self, tx: TxHash) -> Provisioning {
        Provisioning {
            verified: self.verified.remove(tx),
            ownership: self.ownership.remove(tx),
            required: self.required.remove(tx),
            received: self.received.remove(tx),
            payers: self.payers.remove(tx),
            deadlines: self.deadlines.remove(tx),
            ..self
        }
    }

    /// Everything known of some transactions is dropped.
    pub open spec fn without_all(self, txs: Set<TxHash>) -> Provisioning {
        Provisioning {
            verified: self.verified.remove_keys(txs),
            ownership: self.ownership.remove_keys(txs),
            required: self.required.remove_keys(txs),
            received: self.received.remove_keys(txs),
            payers: self.payers.remove_keys(txs),
            deadlines: self.deadlines.remove_keys(txs),
            ..self
        }
    }

    /// The transactions whose deadline has come.
    pub open spec fn stale(self, now: WeightedTimestamp) -> Set<TxHash> {
        Set::new(
            |tx: TxHash|
                self.deadlines.contains_key(tx) && self.deadlines[tx].millis <= now.millis,
        )
    }

    /// Provisions from a shard have landed for a transaction.
    pub open spec fn landed(self, tx: TxHash, shard: ShardId) -> bool {
        self.received.contains_key(tx) && self.received[tx].contains_key(shard)
    }

    /// Every shard that a transaction needs provisions from has provisioned.
    /// Nothing is known to be needed of a transaction that was not recorded.
    pub open spec fn complete(self, tx: TxHash) -> bool {
        self.required.contains_key(tx) && forall|shard: ShardId| #[trigger]
            self.required[tx].contains(shard) ==> self.landed(tx, shard)
    }
}

/// Owners of vaults with further ones laid over, one after the other.
pub open spec fn owned(m: Map<[u8; 30], [u8; 30]>, pairs: Seq<([u8; 30], [u8; 30])>) -> Map<
    [u8; 30],
    [u8; 30],
>
    decreases pairs.len(),
{
    if pairs.len() == 0 {
        m
    } else {
        owned(m, pairs.drop_last()).insert(pairs.last().0, pairs.last().1)
    }
}

fn copy_entries(entries: &Vec<SubstateEntry>) -> (c: Vec<SubstateEntry>)
    ensures
        entry_views(c@) == entry_views(entries@),
{
    let mut c: Vec<SubstateEntry> = Vec::new();
    let mut i: usize = 0;
    while i < entries.len()
        invariant
            i <= entries@.len(),
            entry_views(c@) =~= entry_views(entries@).take(i as int),
        decreases entries@.len() - i,
    {
        let ghost before = c@;
        let value = match &entries[i].value {
            Some(v) => Some(copy_bytes(v)),
            None => None,
        };
        let entry = SubstateEntry { storage_key: copy_bytes(&entries[i].storage_key), value };
        assert(entry_view(entry) == entry_view(entries@[i as int]));
        c.push(entry);
        assert(entry_views(c@) =~= entry_views(before).push(entry_view(entries@[i as int])));
        i = i + 1;
    }
    assert(entry_views(c@) =~= entry_views(entries@));
    c
}

impl ProvisioningTracker {
    /// How long a transaction's state is kept after it was last touched.
    pub closed spec fn horizon(&self) -> Duration {
        self.horizon
    }

    /// A tracker that knows nothing.
    pub fn new(retention_horizon: Duration) -> (t: Self)
        ensures
            t.horizon() == retention_horizon,
            t@ == Provisioning::nothing(),
    {
        let t = ProvisioningTracker {
            verified: SortedMap::new(),
            ownership: SortedMap::new(),
            required: SortedMap::new(),
            received: SortedMap::new(),
            payers: SortedMap::new(),
            deadlines: SortedMap::new(),
            now: WeightedTimestamp::zero(),
            horizon: retention_horizon,
        };
        proof {
            assert(t@.verified =~= Map::<TxHash, Seq<EntryList>>::empty());
            assert(t@.ownership =~= Map::<TxHash, Map<[u8; 30], [u8; 30]>>::empty());
            assert(t@.required =~= Map::<TxHash, Set<ShardId>>::empty());
            assert(t@.received =~= Map::<TxHash, Map<ShardId, WeightedTimestamp>>::empty());
        }
        t
    }

    /// Moves the attested clock on; an earlier reading changes nothing.
    pub fn advance_clock(&mut self, now: WeightedTimestamp)
        ensures
            final(self).horizon() == old(self).horizon(),
            final(self)@ == old(self)@.clocked(now),
    {
        if now.millis > self.now.millis {
            self.now = now;
        }
    }

    fn stamp_deadline(&mut self, tx_hash: TxHash)
        ensures
            final(self).horizon() == old(self).horizon(),
            final(self)@ == old(self)@.stamped(tx_hash, old(self).horizon()),
    {
        let deadline = self.now.plus(self.horizon);
        let kept = match self.deadlines.get(&tx_hash) {
            Some(d) => {
                if deadline.millis > d.millis {
                    deadline
                } else {
                    *d
                }
            },
            None => deadline,
        };
        self.deadlines.insert(tx_hash, kept);
    }

    /// Records the shards that a transaction needs provisions from, in place
    /// of what was recorded before.
    pub fn record_required(&mut self, tx_hash: TxHash, remote_shards: SortedSet<ShardId>)
        ensures
            final(self).horizon() == old(self).horizon(),
            final(self)@ == old(self)@.requiring(tx_hash, remote_shards@, old(self).horizon()),
    {
        let ghost before = self@;
        self.required.insert(tx_hash, remote_shards);
        assert(self@.required =~= before.required.insert(tx_hash, remote_shards@));
        self.stamp_deadline(tx_hash);
    }

    /// Records the shard of a transaction's remote payer.
    pub fn record_payer_shard(&mut self, tx_hash: TxHash, payer_shard: ShardId)
        ensures
            final(self).horizon() == old(self).horizon(),
            final(self)@ == old(self)@.paid_from(tx_hash, payer_shard),
    {
        self.payers.insert(tx_hash, payer_shard);
    }

    /// Whether provisions from a shard have landed for a transaction.
    #[must_use]
    pub fn has_received_from(&self, tx_hash: TxHash, shard: ShardId) -> (r: bool)
        ensures
            r == self@.landed(tx_hash, shard),
    {
        match self.received.get(&tx_hash) {
            Some(received) => received.contains_key(&shard),
            None => false,
        }
    }

    /// The clock that a transaction runs under where its payer is remote: the
    /// clock of the payer's bundle, once it has landed.
    #[must_use]
    pub fn payer_clock(&self, tx_hash: TxHash) -> (r: Option<WeightedTimestamp>)
        ensures
            r == (if self@.payers.contains_key(tx_hash) && self@.landed(
                tx_hash,
                self@.payers[tx_hash],
            ) {
                Some(self@.received[tx_hash][self@.payers[tx_hash]])
            } else {
                None
            }),
    {
        match self.payers.get(&tx_hash) {
            Some(payer) => match self.received.get(&tx_hash) {
                Some(received) => match received.get(payer) {
                    Some(ts) => Some(*ts),
                    None => None,
                },
                None => None,
            },
            None => None,
        }
    }

    /// Whether every shard that a transaction needs provisions from has
    /// provisioned.
    pub fn is_fully_provisioned(&self, tx_hash: TxHash) -> (r: bool)
        ensures
            r == self@.complete(tx_hash),
    {
        match self.required.get(&tx_hash) {
            None => false,
            Some(required) => {
                let count: usize = required.len();
                let ghost order = required.order();
                let mut i: usize = 0;
                while i < count
                    invariant
                        i <= count,
                        count == order.len(),
                        order == required.order(),
                        required@ == order.to_set(),
                        self.required@.contains_key(tx_hash),
                        *required == self.required@[tx_hash],
                        forall|j: int|
                            0 <= j < i ==> self@.landed(tx_hash, #[trigger] order[j]),
                    decreases count - i,
                {
                    let shard = required.at(i);
                    if !self.has_received_from(tx_hash, shard) {
                        proof {
                            assert(order.to_set().contains(shard));
                            assert(self@.required[tx_hash] == required@);
                            assert(self@.required[tx_hash].contains(shard));
                        }
                        return false;
                    }
                    i = i + 1;
                }
                proof {
                    assert(self@.required[tx_hash] == required@);
                    assert forall|shard: ShardId| #[trigger]
                        self@.required[tx_hash].contains(shard) implies self@.landed(
                        tx_hash,
                        shard,
                    ) by {
                        assert(order.to_set().contains(shard));
                        let j = order.index_of(shard);
                        assert(self@.landed(tx_hash, order[j]));
                    }
                }
                true
            },
        }
    }

    fn absorb_entry(&mut self, entry: &ProvisionEntry, source: ShardId, ts: WeightedTimestamp)
        ensures
            final(self).horizon() == old(self).horizon(),
            final(self)@ == old(self)@.with_entry(*entry, source, ts, old(self).horizon()),
    {
        let ghost before = self@;
        let tx = entry.tx_hash;
        let mut lists: Vec<Vec<SubstateEntry>> = match self.verified.remove(&tx) {
            Some(l) => l,
            None => Vec::new(),
        };
        let ghost had = lists@;
        assert(lists_view(had) =~= entry_of(before.verified, tx, Seq::empty()));
        let copied = copy_entries(&entry.entries);
        lists.push(copied);
        assert(lists_view(lists@) =~= lists_view(had).push(entry_views(entry.entries@)));
        self.verified.insert(tx, lists);
        assert(self@.verified =~= before.verified.insert(tx, lists_view(lists@)));
        let mut owners: SortedMap<[u8; 30], [u8; 30]> = match self.ownership.remove(&tx) {
            Some(m) => m,
            None => SortedMap::new(),
        };
        let ghost start = owners@;
        assert(start =~= entry_of(before.ownership, tx, Map::empty()));
        let mut i: usize = 0;
        assert(entry.owned_nodes@.take(0) =~= Seq::empty());
        while i < entry.owned_nodes.len()
            invariant
                i <= entry.owned_nodes@.len(),
                owners@ == owned(start, entry.owned_nodes@.take(i as int)),
            decreases entry.owned_nodes@.len() - i,
        {
            let (vault, owner) = entry.owned_nodes[i];
            owners.insert(vault, owner);
            assert(entry.owned_nodes@.take(i + 1).drop_last() =~= entry.owned_nodes@.take(
                i as int,
            ));
            i = i + 1;
        }
        assert(entry.owned_nodes@.take(entry.owned_nodes@.len() as int) =~= entry.owned_nodes@);
        self.ownership.insert(tx, owners);
        assert(self@.ownership =~= before.ownership.insert(tx, owners@));
        let mut received: SortedMap<ShardId, WeightedTimestamp> = match self.received.remove(&tx) {
            Some(m) => m,
            None => SortedMap::new(),
        };
        assert(received@ =~= entry_of(before.received, tx, Map::empty()));
        received.insert(source, ts);
        self.received.insert(tx, received);
        assert(self@.received =~= before.received.insert(tx, received@));
        self.stamp_deadline(tx);
    }

    /// Takes a committed bundle in. Hands back the transactions it touches, in
    /// the bundle's order.
    pub fn absorb_provisions(&mut self, provisions: &Provisions) -> (touched: Vec<TxHash>)
        ensures
            final(self).horizon() == old(self).horizon(),
            final(self)@ == old(self)@.with_entries(
                provisions.transactions@,
                provisions.source_shard,
                provisions.source_block_ts,
                old(self).horizon(),
            ),
            touched@ == provisions.transactions@.map_values(|e: ProvisionEntry| e.tx_hash),
    {
        let ghost start = self@;
        let ghost span = self.horizon();
        let mut touched: Vec<TxHash> = Vec::new();
        let mut i: usize = 0;
        assert(provisions.transactions@.take(0) =~= Seq::empty());
        while i < provisions.transactions.len()
            invariant
                i <= provisions.transactions@.len(),
                span == old(self).horizon(),
                self.horizon() == span,
                self@ == start.with_entries(
                    provisions.transactions@.take(i as int),
                    provisions.source_shard,
                    provisions.source_block_ts,
                    span,
                ),
                touched@ =~= provisions.transactions@.take(i as int).map_values(
                    |e: ProvisionEntry| e.tx_hash,
                ),
            decreases provisions.transactions@.len() - i,
        {
            let entry = &provisions.transactions[i];
            self.absorb_entry(entry, provisions.source_shard, provisions.source_block_ts);
            touched.push(entry.tx_hash);
            assert(provisions.transactions@.take(i + 1).drop_last()
                =~= provisions.transactions@.take(i as int));
            i = i + 1;
        }
        assert(provisions.transactions@.take(provisions.transactions@.len() as int)
            =~= provisions.transactions@);
        touched
    }

    /// Drops everything known of a transaction.
    pub fn remove_tx(&mut self, tx_hash: TxHash)
        ensures
            final(self).horizon() == old(self).horizon(),
            final(self)@ == old(self)@.without(tx_hash),
    {
        let ghost before = self@;
        self.verified.remove(&tx_hash);
        self.ownership.remove(&tx_hash);
        self.required.remove(&tx_hash);
        self.received.remove(&tx_hash);
        self.payers.remove(&tx_hash);
        self.deadlines.remove(&tx_hash);
        proof {
            assert(self@.verified =~= before.verified.remove(tx_hash));
            assert(self@.ownership =~= before.ownership.remove(tx_hash));
            assert(self@.required =~= before.required.remove(tx_hash));
            assert(self@.received =~= before.received.remove(tx_hash));
        }
    }

    /// Drops everything known of the transactions whose deadline has come, and
    /// counts them.
    pub fn gc_stale_provisions(&mut self, now_ts: WeightedTimestamp) -> (count: usize)
        ensures
            final(self).horizon() == old(self).horizon(),
            final(self)@ == old(self)@.without_all(old(self)@.stale(now_ts)),
            count == old(self)@.stale(now_ts).len(),
    {
        let ghost start = self@;
        let total: usize = self.deadlines.len();
        let ghost order = self.deadlines.order();
        let mut gone: Vec<TxHash> = Vec::new();
        let mut i: usize = 0;
        while i < total
            invariant
                i <= total,
                total == order.len(),
                order == self.deadlines.order(),
                self@ == start,
                start == old(self)@,
                self.horizon() == old(self).horizon(),
                strictly_sorted(order),
                self.deadlines@ == start.deadlines,
                gone@.no_duplicates(),
                forall|t: TxHash| #[trigger]
                    gone@.contains(t) <==> order.take(i as int).contains(t)
                        && start.deadlines[t].millis <= now_ts.millis,
            decreases total - i,
        {
            let tx = self.deadlines.key_at(i);
            let ghost before = gone@;
            proof {
                lemma_sorted_distinct(order);
                lemma_take_next(order, i as int);
                assert(!order.take(i as int).contains(tx)) by {
                    if order.take(i as int).contains(tx) {
                        let j = order.take(i as int).index_of(tx);
                        assert(order[j] == order[i as int]);
                    }
                }
            }
            if self.deadlines.value_at(i).millis <= now_ts.millis {
                gone.push(tx);
                proof {
                    assert forall|t: TxHash| #[trigger]
                        gone@.contains(t) <==> (before.contains(t) || t == tx) by {
                        if before.contains(t) {
                            let j = before.index_of(t);
                            assert(gone@[j] == t);
                        }
                        if t == tx {
                            assert(gone@[before.len() as int] == t);
                        }
                        if gone@.contains(t) && t != tx {
                            let j = gone@.index_of(t);
                            assert(before[j] == t);
                        }
                    }
                    assert(!before.contains(tx));
                }
            }
            i = i + 1;
        }
        proof {
            assert(order.take(total as int) =~= order);
            assert(gone@.to_set() =~= start.stale(now_ts)) by {
                assert forall|t: TxHash| gone@.to_set().contains(t) == start.stale(
                    now_ts,
                ).contains(t) by {
                    assert(gone@.to_set().contains(t) == gone@.contains(t));
                    assert(order.to_set().contains(t) == order.contains(t));
                }
            }
            gone@.unique_seq_to_set();
        }
        let count: usize = gone.len();
        let mut k: usize = 0;
        assert(gone@.take(0).to_set() =~= Set::<TxHash>::empty());
        assert(self@ == start.without_all(gone@.take(0).to_set())) by {
            let none = gone@.take(0).to_set();
            assert(start.verified.remove_keys(none) =~= start.verified);
            assert(start.ownership.remove_keys(none) =~= start.ownership);
            assert(start.required.remove_keys(none) =~= start.required);
            assert(start.received.remove_keys(none) =~= start.received);
            assert(start.payers.remove_keys(none) =~= start.payers);
            assert(start.deadlines.remove_keys(none) =~= start.deadlines);
        }
        while k < count
            invariant
                k <= count,
                count == gone@.len(),
                start == old(self)@,
                self.horizon() == old(self).horizon(),
                self@ == start.without_all(gone@.take(k as int).to_set()),
            decreases count - k,
        {
            let tx = gone[k];
            let ghost before = self@;
            self.remove_tx(tx);
            proof {
                let now = gone@.take(k as int).to_set();
                let next = gone@.take(k + 1).to_set();
                lemma_take_next(gone@, k as int);
                assert forall|t: TxHash| next.contains(t) == (now.contains(t) || t == tx) by {
                    assert(gone@.take(k + 1).contains(t) == (gone@.take(k as int).contains(t) || t
                        == gone@[k as int]));
                }
                assert(start.verified.remove_keys(next) =~= start.verified.remove_keys(
                    now,
                ).remove(tx));
                assert(start.ownership.remove_keys(next) =~= start.ownership.remove_keys(
                    now,
                ).remove(tx));
                assert(start.required.remove_keys(next) =~= start.required.remove_keys(
                    now,
                ).remove(tx));
                assert(start.received.remove_keys(next) =~= start.received.remove_keys(
                    now,
                ).remove(tx));
                assert(start.payers.remove_keys(next) =~= start.payers.remove_keys(now).remove(
                    tx,
                ));
                assert(start.deadlines.remove_keys(next) =~= start.deadlines.remove_keys(
                    now,
                ).remove(tx));
            }
            k = k + 1;
        }
        assert(gone@.take(count as int) =~= gone@);
        count
    }

    /// The entry lists of a transaction, one for each contribution.
    pub fn provisions_for(&self, tx_hash: TxHash) -> (r: Option<&Vec<Vec<SubstateEntry>>>)
        ensures
            match r {
                Some(lists) => self@.verified.contains_key(tx_hash) && lists_view(lists@)
                    == self@.verified[tx_hash],
                None => !self@.verified.contains_key(tx_hash),
            },
    {
        self.verified.get(&tx_hash)
    }

    /// The account that owns each vault of a transaction.
    pub fn ownership_for(&self, tx_hash: TxHash) -> (r: SortedMap<[u8; 30], [u8; 30]>)
        ensures
            r@ == entry_of(self@.ownership, tx_hash, Map::empty()),
    {
        let mut copy: SortedMap<[u8; 30], [u8; 30]> = SortedMap::new();
        match self.ownership.get(&tx_hash) {
            None => copy,
            Some(owners) => {
                let count: usize = owners.len();
                let ghost order = owners.order();
                let mut i: usize = 0;
                assert(order.take(0) =~= Seq::empty());
                assert(copy@ =~= owners@.restrict(order.take(0).to_set()));
                while i < count
                    invariant
                        i <= count,
                        count == order.len(),
                        order == owners.order(),
                        owners@.dom() == order.to_set(),
                        copy@ == owners@.restrict(order.take(i as int).to_set()),
                    decreases count - i,
                {
                    let vault = owners.key_at(i);
                    let owner = *owners.value_at(i);
                    copy.insert(vault, owner);
                    proof {
                        lemma_take_next(order, i as int);
                        assert forall|v: [u8; 30]|
                            order.take(i + 1).to_set().contains(v) == (order.take(
                                i as int,
                            ).to_set().contains(v) || v == vault) by {
                            assert(order.take(i + 1).contains(v) == (order.take(i as int).contains(
                                v,
                            ) || v == order[i as int]));
                        }
                        assert(copy@ =~= owners@.restrict(order.take(i + 1).to_set()));
                    }
                    i = i + 1;
                }
                proof {
                    assert(order.take(count as int) =~= order);
                    assert(copy@ =~= owners@);
                }
                copy
            },
        }
    }

    /// How many shards a transaction needs provisions from.
    pub fn required_shards(&self, tx_hash: TxHash) -> (n: usize)
        ensures
            n == entry_of(self@.required, tx_hash, Set::empty()).len(),
    {
        match self.required.get(&tx_hash) {
            Some(shards) => shards.len(),
            None => 0,
        }
    }

    /// How many shards have provisioned a transaction.
    pub fn received_shards(&self, tx_hash: TxHash) -> (n: usize)
        ensures
            n == entry_of(self@.received, tx_hash, Map::empty()).dom().len(),
    {
        match self.received.get(&tx_hash) {
            Some(shards) => shards.len(),
            None => {
                assert(Map::<ShardId, WeightedTimestamp>::empty().dom() =~= Set::empty());
                0
            },
        }
    }

    /// How many transactions have verified provisions.
    pub fn verified_len(&self) -> (n: usize)
        ensures
            n == self@.verified.dom().len(),
    {
        assert(self@.verified.dom() =~= self.verified@.dom());
        self.verified.len()
    }

    /// How many transactions have recorded requirements.
    pub fn required_len(&self) -> (n: usize)
        ensures
            n == self@.required.dom().len(),
    {
        assert(self@.required.dom() =~= self.required@.dom());
        self.required.len()
    }

    /// How many transactions have received provisions.
    pub fn received_len(&self) -> (n: usize)
        ensures
            n == self@.received.dom().len(),
    {
        assert(self@.received.dom() =~= self.received@.dom());
        self.received.len()
    }
}

/// A bundle holds something for a transaction.
pub open spec fn mentions(entries: Seq<ProvisionEntry>, tx: TxHash) -> bool {
    exists|i: int| 0 <= i < entries.len() && (#[trigger] entries[i]).tx_hash == tx
}

/// A bundle mentions what its last entry or an earlier one is for.
pub proof fn lemma_mentions_last(entries: Seq<ProvisionEntry>, tx: TxHash)
    requires
        entries.len() > 0,
    ensures
        mentions(entries, tx) == (mentions(entries.drop_last(), tx) || entries.last().tx_hash == tx),
{
    let rest = entries.drop_last();
    if mentions(rest, tx) {
        let i = choose|i: int| 0 <= i < rest.len() && (#[trigger] rest[i]).tx_hash == tx;
        assert(entries[i].tx_hash == tx);
    }
    if entries.last().tx_hash == tx {
        assert(entries[entries.len() - 1].tx_hash == tx);
    }
    if mentions(entries, tx) && entries.last().tx_hash != tx {
        let i = choose|i: int| 0 <= i < entries.len() && (#[trigger] entries[i]).tx_hash == tx;
        assert(rest[i].tx_hash == tx);
    }
}

/// What has landed stays: taking further bundles in never makes a transaction
/// incomplete, and lands nothing but the bundle's source.
pub proof fn law_absorbing_keeps_what_landed(
    state: Provisioning,
    entries: Seq<ProvisionEntry>,
    source: ShardId,
    ts: WeightedTimestamp,
    horizon: Duration,
    tx: TxHash,
)
    ensures
        ({
            let next = state.with_entries(entries, source, ts, horizon);
            &&& state.complete(tx) ==> next.complete(tx)
            &&& next.required == state.required
            &&& forall|shard: ShardId| #[trigger]
                next.landed(tx, shard) <==> state.landed(tx, shard) || (shard == source
                    && mentions(entries, tx))
        }),
    decreases entries.len(),
{
    let next = state.with_entries(entries, source, ts, horizon);
    if entries.len() > 0 {
        let rest = entries.drop_last();
        law_absorbing_keeps_what_landed(state, rest, source, ts, horizon, tx);
        lemma_mentions_last(entries, tx);
        let before = state.with_entries(rest, source, ts, horizon);
        assert forall|shard: ShardId| #[trigger]
            next.landed(tx, shard) <==> state.landed(tx, shard) || (shard == source && mentions(
                entries,
                tx,
            )) by {
            assert(next.landed(tx, shard) == (before.landed(tx, shard) || (shard == source
                && entries.last().tx_hash == tx)));
        }
    }
    if state.complete(tx) {
        assert forall|shard: ShardId| #[trigger] next.required[tx].contains(
            shard,
        ) implies next.landed(tx, shard) by {
            assert(state.required[tx].contains(shard));
            assert(state.landed(tx, shard));
        }
    }
}

/// A later touch never brings a deadline forward: what a sweep would keep
/// before it, a sweep keeps after it.
pub proof fn law_deadlines_only_extend(
    state: Provisioning,
    touched: TxHash,
    horizon: Duration,
    now: WeightedTimestamp,
    tx: TxHash,
)
    requires
        state.deadlines.contains_key(tx),
        !state.stale(now).contains(tx),
    ensures
        state.stamped(touched, horizon).deadlines.contains_key(tx),
        state.stamped(touched, horizon).deadlines[tx].millis >= state.deadlines[tx].millis,
        !state.stamped(touched, horizon).stale(now).contains(tx),
{
}

/// A transaction that is removed leaves nothing behind.
pub proof fn law_removed_transactions_leave_nothing(state: Provisioning, tx: TxHash)
    ensures
        !state.without(tx).complete(tx),
        !state.without(tx).verified.contains_key(tx),
        !state.without(tx).ownership.contains_key(tx),
        !state.without(tx).required.contains_key(tx),
        !state.without(tx).received.contains_key(tx),
        !state.without(tx).payers.contains_key(tx),
        !state.without(tx).deadlines.contains_key(tx),
{
}

/// A requirement of nothing is met at once.
pub proof fn law_an_empty_requirement_is_met(state: Provisioning, tx: TxHash)
    requires
        state.required.contains_key(tx),
        state.required[tx] == Set::<ShardId>::empty(),
    ensures
        state.complete(tx),
{
}

/// Taking a bundle in loses nothing and keeps the order: a transaction's lists are
/// those it had, and behind them the entries of every contribution that the
/// bundle holds for it. The bundle's source is recorded with the bundle's clock,
/// every other source as it was.
pub proof fn law_every_contribution_is_kept(
    state: Provisioning,
    entries: Seq<ProvisionEntry>,
    source: ShardId,
    ts: WeightedTimestamp,
    horizon: Duration,
    tx: TxHash,
)
    ensures
        ({
            let next = state.with_entries(entries, source, ts, horizon);
            let mine = entries.filter(|e: ProvisionEntry| e.tx_hash == tx);
            let had = if state.verified.contains_key(tx) {
                state.verified[tx]
            } else {
                Seq::empty()
            };
            &&& next.verified.contains_key(tx) <==> state.verified.contains_key(tx) || mine.len() > 0
            &&& next.verified.contains_key(tx) ==> next.verified[tx] == had + mine.map_values(
                |e: ProvisionEntry| entry_views(e.entries@),
            )
            &&& mine.len() > 0 ==> next.received.contains_key(tx)
                && next.received[tx].contains_key(source) && next.received[tx][source] == ts
            &&& mine.len() == 0 ==> next.received.contains_key(tx) == state.received.contains_key(tx)
                && (state.received.contains_key(tx) ==> next.received[tx] == state.received[tx])
            &&& forall|shard: ShardId|
                #![trigger next.received[tx].contains_key(shard)]
                shard != source && next.received.contains_key(tx) ==> (
                next.received[tx].contains_key(shard) <==> state.received.contains_key(tx)
                    && state.received[tx].contains_key(shard)) && (state.received.contains_key(tx)
                    && state.received[tx].contains_key(shard) ==> next.received[tx][shard]
                    == state.received[tx][shard])
            &&& next.payers == state.payers
            &&& next.required == state.required
            &&& next.now == state.now
        }),
    decreases entries.len(),
{
    reveal(Seq::filter);
    let next = state.with_entries(entries, source, ts, horizon);
    let mine = entries.filter(|e: ProvisionEntry| e.tx_hash == tx);
    let had = if state.verified.contains_key(tx) {
        state.verified[tx]
    } else {
        Seq::empty()
    };
    if entries.len() > 0 {
        law_every_contribution_is_kept(state, entries.drop_last(), source, ts, horizon, tx);
    }
    if next.verified.contains_key(tx) {
        assert(next.verified[tx] =~= had + mine.map_values(
            |e: ProvisionEntry| entry_views(e.entries@),
        ));
    }
}

/// The owner of a vault is the last one told: where the pairs name the vault, the
/// last of them, and else the owner that was known.
pub proof fn law_the_last_owner_told_stands(
    m: Map<[u8; 30], [u8; 30]>,
    pairs: Seq<([u8; 30], [u8; 30])>,
    vault: [u8; 30],
)
    ensures
        ({
            let names = |p: ([u8; 30], [u8; 30])| p.0 == vault;
            let next = owned(m, pairs);
            &&& next.contains_key(vault) <==> m.contains_key(vault) || some_at(pairs, names)
            &&& !some_at(pairs, names) && m.contains_key(vault) ==> next[vault] == m[vault]
            &&& forall|i: int| #[trigger] last_at(pairs, names, i) ==> next[vault] == pairs[i].1
        }),
    decreases pairs.len(),
{
    lemma_last_at(pairs, |p: ([u8; 30], [u8; 30])| p.0 == vault);
    if pairs.len() > 0 {
        law_the_last_owner_told_stands(m, pairs.drop_last(), vault);
    }
}

/// The owners that a bundle tells of a transaction's vaults are laid over those
/// known, contribution by contribution, and no other transaction's change.
pub proof fn law_every_contributions_owners_are_told(
    state: Provisioning,
    entries: Seq<ProvisionEntry>,
    source: ShardId,
    ts: WeightedTimestamp,
    horizon: Duration,
    tx: TxHash,
)
    ensures
        ({
            let next = state.with_entries(entries, source, ts, horizon);
            let pairs = entries.filter(|e: ProvisionEntry| e.tx_hash == tx).map_values(
                |e: ProvisionEntry| e.owned_nodes@,
            ).flatten();
            let had = if state.ownership.contains_key(tx) {
                state.ownership[tx]
            } else {
                Map::empty()
            };
            &&& next.ownership.contains_key(tx) ==> next.ownership[tx] == owned(had, pairs)
            &&& !next.ownership.contains_key(tx) ==> pairs.len() == 0 && had == Map::<
                [u8; 30],
                [u8; 30],
            >::empty()
        }),
    decreases entries.len(),
{
    reveal(Seq::filter);
    let mine = entries.filter(|e: ProvisionEntry| e.tx_hash == tx);
    let lists = mine.map_values(|e: ProvisionEntry| e.owned_nodes@);
    lists.lemma_flatten_and_flatten_alt_are_equivalent();
    let had = if state.ownership.contains_key(tx) {
        state.ownership[tx]
    } else {
        Map::empty()
    };
    if entries.len() > 0 {
        let t = entries.drop_last();
        let before = t.filter(|e: ProvisionEntry| e.tx_hash == tx).map_values(
            |e: ProvisionEntry| e.owned_nodes@,
        );
        before.lemma_flatten_and_flatten_alt_are_equivalent();
        law_every_contributions_owners_are_told(state, t, source, ts, horizon, tx);
        if entries.last().tx_hash == tx {
            assert(lists.drop_last() =~= before);
            assert(lists.last() == entries.last().owned_nodes@);
            lemma_owned_twice(had, before.flatten(), entries.last().owned_nodes@);
        } else {
            assert(lists =~= before);
        }
    } else {
        assert(lists =~= Seq::empty());
    }
}

proof fn lemma_owned_twice(
    m: Map<[u8; 30], [u8; 30]>,
    a: Seq<([u8; 30], [u8; 30])>,
    b: Seq<([u8; 30], [u8; 30])>,
)
    ensures
        owned(owned(m, a), b) == owned(m, a + b),
    decreases b.len(),
{
    if b.len() == 0 {
        assert(a + b =~= a);
    } else {
        lemma_owned_twice(m, a, b.drop_last());
        assert((a + b).drop_last() =~= a + b.drop_last());
    }
}

/// What is recorded of one transaction is recorded of no other: a requirement
/// replaces the last one, a payer's shard the last one, a touch moves the
/// deadline to the horizon past the clock unless it was later already, a removal
/// takes everything known of the transaction, and the clock never runs back.
pub proof fn law_each_record_is_one_transactions(
    state: Provisioning,
    tx: TxHash,
    shards: Set<ShardId>,
    shard: ShardId,
    now: WeightedTimestamp,
    horizon: Duration,
    other: TxHash,
)
    ensures
        ({
            let next = state.requiring(tx, shards, horizon);
            &&& next.required.contains_key(tx) && next.required[tx] == shards
            &&& next.deadlines.contains_key(tx)
            &&& next.deadlines[tx].millis >= state.now.later(horizon).millis
            &&& state.deadlines.contains_key(tx) ==> next.deadlines[tx].millis
                >= state.deadlines[tx].millis
            &&& next.deadlines[tx] == state.now.later(horizon) || (state.deadlines.contains_key(tx)
                && next.deadlines[tx] == state.deadlines[tx])
            &&& next.verified == state.verified && next.ownership == state.ownership
            &&& next.received == state.received && next.payers == state.payers
            &&& next.now == state.now
            &&& other != tx ==> next.knows_alike(state, other)
        }),
        ({
            let next = state.paid_from(tx, shard);
            &&& next.payers.contains_key(tx) && next.payers[tx] == shard
            &&& next.required == state.required && next.received == state.received
            &&& next.verified == state.verified && next.ownership == state.ownership
            &&& next.deadlines == state.deadlines && next.now == state.now
            &&& other != tx ==> next.knows_alike(state, other)
        }),
        ({
            let next = state.clocked(now);
            &&& next.now.millis >= state.now.millis && next.now.millis >= now.millis
            &&& next.now == state.now || next.now == now
            &&& next.knows_alike(state, other)
        }),
        ({
            let next = state.without(tx);
            &&& other != tx ==> next.knows_alike(state, other)
            &&& next.now == state.now
        }),
{
}

/// A transaction's lists read as each list's entries, in order.
pub proof fn law_lists_read_as_they_stand(lists: Seq<Vec<SubstateEntry>>, i: int)
    requires
        0 <= i < lists.len(),
    ensures
        lists_view(lists).len() == lists.len(),
        lists_view(lists)[i] == entry_views(lists[i]@),
{
}

} // verus!
