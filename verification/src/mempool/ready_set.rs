//! Pending-transaction ready and deferred tracking.
//!
//! Every known pending transaction is ready (nothing it declares is blocked),
//! deferred (at least one declared key is locked by an in-flight transaction
//! or claimed by a ready one), or neither (never added, or removed).
use std::sync::Arc;

use vstd::prelude::*;

use crate::index::{linked, row_of, with_link, without_link, Index};
use crate::mempool::lock_tracker::{writes_of, BlockScope, LockTracker, Locks};
use crate::order::{has_key, OrdKey};
use crate::sorted::{lemma_sorted_distinct, strictly_sorted, SortedMap, SortedSet};
use crate::time::{Duration, LocalTimestamp};
use crate::types::{DeclaredKey, TxHash};

verus! {

/// A verified transaction, as admission sees it: its identity and the keys it
/// declares.
#[derive(Debug, PartialEq, Eq)]
pub struct Transaction {
    /// The transaction's identity.
    pub hash: TxHash,
    /// Keys declared as reads.
    pub reads: Vec<DeclaredKey>,
    /// Keys declared as writes.
    pub writes: Vec<DeclaredKey>,
}

impl Transaction {
    /// Every declared key: reads, then writes.
    pub open spec fn keys(self) -> Seq<DeclaredKey> {
        self.reads@ + self.writes@
    }

    /// The transaction declares `k`, in either mode.
    pub open spec fn declares(self, k: DeclaredKey) -> bool {
        self.keys().contains(k)
    }

    /// The transaction declares `k` as a write.
    pub open spec fn writes_key(self, k: DeclaredKey) -> bool {
        self.writes@.contains(k)
    }

    /// The transaction's identity.
    pub fn hash(&self) -> (h: TxHash)
        ensures
            h == self.hash,
    {
        self.hash
    }

    /// Every declared key: reads, then writes.
    pub fn admission_keys(&self) -> (v: Vec<DeclaredKey>)
        ensures
            v@ == self.keys(),
    {
        let mut v: Vec<DeclaredKey> = Vec::new();
        v.extend_from_slice(&self.reads);
        v.extend_from_slice(&self.writes);
        assert(v@ =~= self.keys());
        v
    }

    fn declares_write(&self, key: &DeclaredKey) -> (r: bool)
        ensures
            r == self.writes_key(*key),
    {
        has_key(&self.writes, key)
    }
}

/// A ready transaction and when it entered the pool.
pub struct ReadyEntry {
    /// The transaction.
    pub tx: Arc<Transaction>,
    /// When it was admitted to the pool.
    pub added_at: LocalTimestamp,
}

/// Aggregated deferral statistics.
///
/// A deferral is read-read when every blocking overlap is a declared read
/// held only by declared reads; a write on either side of some overlap makes
/// it write-involved.
#[derive(Clone, Copy, Debug, PartialEq, Eq, Structural)]
pub struct DeferralStats {
    /// Entries into the deferred set.
    pub deferral_events: u64,
    /// Entries whose every blocking overlap was read-read.
    pub read_read_deferrals: u64,
    /// Entries with a write on either side of some blocking overlap.
    pub write_involved_deferrals: u64,
    /// Deferred transactions later promoted to ready.
    pub promotions: u64,
    /// Total deferred-to-ready wait across all promotions.
    pub total_deferral_wait: Duration,
    /// The longest single deferred-to-ready wait.
    pub max_deferral_wait: Duration,
    /// High-water mark of any single key's deferred queue.
    pub peak_deferred_queue_depth: usize,
}

/// The larger of two spans.
pub open spec fn longer(a: Duration, b: Duration) -> Duration {
    if a.millis >= b.millis {
        a
    } else {
        b
    }
}

/// The larger of two depths.
pub open spec fn deeper(a: usize, b: int) -> usize {
    if a >= b {
        a
    } else {
        b as usize
    }
}

impl Default for DeferralStats {
    fn default() -> (s: Self)
        ensures
            s == no_deferrals(),
    {
        DeferralStats {
            deferral_events: 0,
            read_read_deferrals: 0,
            write_involved_deferrals: 0,
            promotions: 0,
            total_deferral_wait: Duration { millis: 0 },
            max_deferral_wait: Duration { millis: 0 },
            peak_deferred_queue_depth: 0,
        }
    }
}

/// Statistics of a set that deferred nothing.
pub open spec fn no_deferrals() -> DeferralStats {
    DeferralStats {
        deferral_events: 0,
        read_read_deferrals: 0,
        write_involved_deferrals: 0,
        promotions: 0,
        total_deferral_wait: Duration { millis: 0 },
        max_deferral_wait: Duration { millis: 0 },
        peak_deferred_queue_depth: 0,
    }
}

impl DeferralStats {
    /// Every deferral is one between readers, or involves a write.
    pub open spec fn balanced(self) -> bool {
        self.deferral_events == self.read_read_deferrals + self.write_involved_deferrals
    }

    /// The two readouts fit in one: no sum of counters overflows.
    pub open spec fn can_absorb(self, other: Self) -> bool {
        &&& self.deferral_events + other.deferral_events <= u64::MAX
        &&& self.read_read_deferrals + other.read_read_deferrals <= u64::MAX
        &&& self.write_involved_deferrals + other.write_involved_deferrals <= u64::MAX
        &&& self.promotions + other.promotions <= u64::MAX
        &&& self.total_deferral_wait.millis + other.total_deferral_wait.millis <= u64::MAX
    }

    /// Sums of the counters, maxima of the extremes.
    pub open spec fn absorbed(self, other: Self) -> Self {
        DeferralStats {
            deferral_events: (self.deferral_events + other.deferral_events) as u64,
            read_read_deferrals: (self.read_read_deferrals + other.read_read_deferrals) as u64,
            write_involved_deferrals: (self.write_involved_deferrals
                + other.write_involved_deferrals) as u64,
            promotions: (self.promotions + other.promotions) as u64,
            total_deferral_wait: Duration {
                millis: (self.total_deferral_wait.millis + other.total_deferral_wait.millis) as u64,
            },
            max_deferral_wait: longer(self.max_deferral_wait, other.max_deferral_wait),
            peak_deferred_queue_depth: deeper(
                self.peak_deferred_queue_depth,
                other.peak_deferred_queue_depth as int,
            ),
        }
    }

    /// Folds `other` into `self`: sums for the counters, maxima for the
    /// extremes.
    pub fn absorb(&mut self, other: &Self)
        requires
            old(self).can_absorb(*other),
        ensures
            *final(self) == old(self).absorbed(*other),
    {
        self.deferral_events = self.deferral_events + other.deferral_events;
        self.read_read_deferrals = self.read_read_deferrals + other.read_read_deferrals;
        self.write_involved_deferrals = self.write_involved_deferrals
            + other.write_involved_deferrals;
        self.promotions = self.promotions + other.promotions;
        self.total_deferral_wait = Duration {
            millis: self.total_deferral_wait.millis + other.total_deferral_wait.millis,
        };
        if other.max_deferral_wait.millis > self.max_deferral_wait.millis {
            self.max_deferral_wait = other.max_deferral_wait;
        }
        if other.peak_deferred_queue_depth > self.peak_deferred_queue_depth {
            self.peak_deferred_queue_depth = other.peak_deferred_queue_depth;
        }
    }

    /// The readout after one more deferral.
    pub open spec fn deferred_once(self, write_involved: bool) -> Self {
        DeferralStats {
            deferral_events: (self.deferral_events + 1) as u64,
            write_involved_deferrals: if write_involved {
                (self.write_involved_deferrals + 1) as u64
            } else {
                self.write_involved_deferrals
            },
            read_read_deferrals: if write_involved {
                self.read_read_deferrals
            } else {
                (self.read_read_deferrals + 1) as u64
            },
            ..self
        }
    }

    /// The readout after a promotion that waited `wait`.
    pub open spec fn promoted(self, wait: Duration) -> Self {
        DeferralStats {
            promotions: (self.promotions + 1) as u64,
            total_deferral_wait: Duration {
                millis: (self.total_deferral_wait.millis + wait.millis) as u64,
            },
            max_deferral_wait: longer(self.max_deferral_wait, wait),
            ..self
        }
    }

    /// One more event at clock reading `now` overflows no counter.
    pub open spec fn has_room(self, now: LocalTimestamp) -> bool {
        &&& self.deferral_events < u64::MAX
        &&& self.read_read_deferrals < u64::MAX
        &&& self.write_involved_deferrals < u64::MAX
        &&& self.promotions < u64::MAX
        &&& self.total_deferral_wait.millis + now.millis <= u64::MAX
    }

    /// `n` more deferrals overflow no counter.
    pub open spec fn has_room_for(self, n: int) -> bool {
        &&& self.deferral_events + n <= u64::MAX
        &&& self.read_read_deferrals + n <= u64::MAX
        &&& self.write_involved_deferrals + n <= u64::MAX
    }
}

/// Ready transactions by identity.
pub type ReadyMap = Map<TxHash, ReadyEntry>;

/// Some ready transaction declares `k`.
pub open spec fn claimed(ready: ReadyMap, k: DeclaredKey) -> bool {
    exists|h: TxHash| #[trigger] ready.dom().contains(h) && ready[h].tx.declares(k)
}

/// Some ready transaction declares `k` as a write.
pub open spec fn write_claimed(ready: ReadyMap, k: DeclaredKey) -> bool {
    exists|h: TxHash| #[trigger] ready.dom().contains(h) && ready[h].tx.writes_key(k)
}

/// `k` holds `tx` back. Exclusive admission defers on any lock or claim.
/// Read-share admission defers a declared write on any lock or claim, and a
/// declared read only on a write lock or a write claim.
pub open spec fn holds_back(
    share: bool,
    tx: Transaction,
    locks: Locks,
    ready: ReadyMap,
    k: DeclaredKey,
) -> bool {
    if share && !tx.writes_key(k) {
        writes_of(locks, k) > 0 || write_claimed(ready, k)
    } else {
        locks.dom().contains(k) || claimed(ready, k)
    }
}

/// The declared keys that hold `tx` back.
pub open spec fn blockers(
    share: bool,
    tx: Transaction,
    locks: Locks,
    ready: ReadyMap,
) -> Set<DeclaredKey> {
    Set::new(|k: DeclaredKey| tx.declares(k) && holds_back(share, tx, locks, ready, k))
}

/// A write stands on either side of the overlap at `k`.
pub open spec fn write_overlap(
    tx: Transaction,
    locks: Locks,
    ready: ReadyMap,
    k: DeclaredKey,
) -> bool {
    tx.writes_key(k) || writes_of(locks, k) > 0 || write_claimed(ready, k)
}

/// The deferred transactions that `k` blocks.
pub open spec fn queue(deferred: Map<TxHash, Set<DeclaredKey>>, k: DeclaredKey) -> Set<TxHash> {
    Set::new(|h: TxHash| linked(deferred, h, k))
}

/// `peak` is the highest of `prior` and the queue depths of `keys`.
pub open spec fn is_peak(
    peak: usize,
    prior: usize,
    deferred: Map<TxHash, Set<DeclaredKey>>,
    keys: Set<DeclaredKey>,
) -> bool {
    &&& peak >= prior
    &&& forall|k: DeclaredKey| #[trigger] keys.contains(k) ==> queue(deferred, k).len() <= peak
    &&& peak == prior || exists|k: DeclaredKey| #[trigger]
        keys.contains(k) && queue(deferred, k).len() == peak
}

/// No two ready transactions declare one key, except that under read-share
/// any number may read it while none writes it.
pub open spec fn compatible(share: bool, ready: ReadyMap) -> bool {
    forall|g: TxHash, h: TxHash, k: DeclaredKey|
        g != h && #[trigger] ready.dom().contains(g) && #[trigger] ready.dom().contains(h)
            && #[trigger] ready[g].tx.declares(k) && ready[h].tx.declares(k) ==> share
            && !ready[g].tx.writes_key(k)
}

/// The ready transactions that a lock on `key` moves to the deferred set.
pub open spec fn displaced(ready: ReadyMap, key: DeclaredKey, scope: BlockScope) -> Set<TxHash> {
    Set::new(
        |h: TxHash|
            ready.dom().contains(h) && ready[h].tx.declares(key) && (scope is All
                || ready[h].tx.writes_key(key)),
    )
}

/// Deferred since `now`, unless already waiting.
pub open spec fn waiting_since(
    since: Map<TxHash, LocalTimestamp>,
    hashes: Set<TxHash>,
    now: LocalTimestamp,
) -> Map<TxHash, LocalTimestamp> {
    Map::new(
        |h: TxHash| since.dom().contains(h) || hashes.contains(h),
        |h: TxHash|
            if since.dom().contains(h) {
                since[h]
            } else {
                now
            },
    )
}

/// The incremental ready set behind proposal selection.
pub struct ReadySet {
    share_reads: bool,
    ready: SortedMap<TxHash, ReadyEntry>,
    deferred_by_keys: Index<TxHash, DeclaredKey>,
    txs_deferred_by_key: Index<DeclaredKey, TxHash>,
    ready_txs_by_key: Index<DeclaredKey, TxHash>,
    deferred_since: SortedMap<TxHash, LocalTimestamp>,
    stats: DeferralStats,
}

impl ReadySet {
    /// Whether readers share.
    pub closed spec fn shares(&self) -> bool {
        self.share_reads
    }

    /// The ready transactions.
    pub closed spec fn ready(&self) -> ReadyMap {
        self.ready@
    }

    /// The ready identities, in ascending order.
    pub closed spec fn ready_order(&self) -> Seq<TxHash> {
        self.ready.order()
    }

    /// Each deferred transaction with the keys that block it.
    pub closed spec fn deferred(&self) -> Map<TxHash, Set<DeclaredKey>> {
        self.deferred_by_keys@
    }

    /// Each blocking key with the deferred transactions it blocks.
    pub closed spec fn deferred_index(&self) -> Map<DeclaredKey, Set<TxHash>> {
        self.txs_deferred_by_key@
    }

    /// Each claimed key with the ready transactions that declare it.
    pub closed spec fn ready_index(&self) -> Map<DeclaredKey, Set<TxHash>> {
        self.ready_txs_by_key@
    }

    /// When each waiting transaction entered the deferred set.
    pub closed spec fn since(&self) -> Map<TxHash, LocalTimestamp> {
        self.deferred_since@
    }

    /// The deferral statistics.
    pub closed spec fn statistics(&self) -> DeferralStats {
        self.stats
    }

    /// Ready and deferred are disjoint, both reverse indices mirror them, no
    /// row of any index is empty, ready claims do not conflict, and every
    /// deferral counts as one of its two kinds.
    pub open spec fn wf(&self) -> bool {
        &&& forall|h: TxHash| #[trigger]
            self.ready().dom().contains(h) ==> !self.deferred().dom().contains(h)
        &&& forall|k: DeclaredKey, h: TxHash| #[trigger]
            linked(self.ready_index(), k, h) <==> self.ready().dom().contains(h)
                && self.ready()[h].tx.declares(k)
        &&& forall|k: DeclaredKey, h: TxHash|
            #![trigger linked(self.deferred_index(), k, h)]
            #![trigger linked(self.deferred(), h, k)]
            linked(self.deferred_index(), k, h) <==> linked(self.deferred(), h, k)
        &&& no_empty_rows(self.ready_index())
        &&& no_empty_rows(self.deferred_index())
        &&& no_empty_rows(self.deferred())
        &&& self.ready().dom().finite()
        &&& self.deferred().dom().finite()
        &&& compatible(self.shares(), self.ready())
        &&& self.statistics().balanced()
    }

    /// Everything but the statistics is as it was.
    pub open spec fn same_entries(&self, other: &ReadySet) -> bool {
        &&& self.shares() == other.shares()
        &&& self.ready() == other.ready()
        &&& self.deferred() == other.deferred()
        &&& self.deferred_index() == other.deferred_index()
        &&& self.ready_index() == other.ready_index()
        &&& self.since() == other.since()
    }

    /// A ready set under the chosen admission rule, with nothing in it.
    pub fn with_read_share(share_reads: bool) -> (s: Self)
        ensures
            s.wf(),
            s.shares() == share_reads,
            s.ready() == ReadyMap::empty(),
            s.deferred() == Map::<TxHash, Set<DeclaredKey>>::empty(),
            s.since() == Map::<TxHash, LocalTimestamp>::empty(),
            s.statistics() == no_deferrals(),
    {
        ReadySet {
            share_reads,
            ready: SortedMap::new(),
            deferred_by_keys: Index::new(),
            txs_deferred_by_key: Index::new(),
            ready_txs_by_key: Index::new(),
            deferred_since: SortedMap::new(),
            stats: DeferralStats::default(),
        }
    }

    /// The deferral statistics.
    pub fn deferral_stats(&self) -> (s: DeferralStats)
        ensures
            s == self.statistics(),
    {
        self.stats
    }

    /// Whether any ready claimant of `key` declared it as a write.
    fn ready_claim_is_write(&self, key: &DeclaredKey) -> (r: bool)
        requires
            self.wf(),
        ensures
            r == write_claimed(self.ready(), *key),
    {
        match self.ready_txs_by_key.row(key) {
            Some(set) => {
                let n: usize = set.len();
                let mut i: usize = 0;
                while i < n
                    invariant
                        i <= n,
                        n == set.order().len(),
                        set@ == set.order().to_set(),
                        self.wf(),
                        self.ready_index().dom().contains(*key),
                        set@ == self.ready_index()[*key],
                        forall|j: int|
                            0 <= j < i ==> self.ready().dom().contains(#[trigger] set.order()[j])
                                ==> !self.ready()[set.order()[j]].tx.writes_key(*key),
                    decreases n - i,
                {
                    let hash = set.at(i);
                    match self.ready.get(&hash) {
                        Some(entry) => {
                            if entry.tx.declares_write(key) {
                                assert(self.ready().dom().contains(hash));
                                return true;
                            }
                        },
                        None => {},
                    }
                    i = i + 1;
                }
                proof {
                    if write_claimed(self.ready(), *key) {
                        let h = choose|h: TxHash| #[trigger]
                            self.ready().dom().contains(h) && self.ready()[h].tx.writes_key(*key);
                        lemma_writes_declares(self.ready()[h].tx, *key);
                        assert(linked(self.ready_index(), *key, h));
                        assert(set.order().contains(h));
                        let j = choose|j: int| 0 <= j < set.order().len() && set.order()[j] == h;
                        assert(self.ready().dom().contains(set.order()[j]));
                    }
                }
                false
            },
            None => {
                proof {
                    if write_claimed(self.ready(), *key) {
                        let h = choose|h: TxHash| #[trigger]
                            self.ready().dom().contains(h) && self.ready()[h].tx.writes_key(*key);
                        lemma_writes_declares(self.ready()[h].tx, *key);
                        assert(linked(self.ready_index(), *key, h));
                    }
                }
                false
            },
        }
    }

    fn key_holds_back(&self, tx: &Transaction, key: &DeclaredKey, locks: &LockTracker) -> (r: bool)
        requires
            self.wf(),
        ensures
            r == holds_back(self.shares(), *tx, locks.locks(), self.ready(), *key),
    {
        if self.share_reads && !tx.declares_write(key) {
            locks.is_write_locked(key) || self.ready_claim_is_write(key)
        } else {
            let has_row = self.ready_txs_by_key.contains_row(key);
            proof {
                let row = self.ready_index()[*key];
                if has_row {
                    assert(row != Set::<TxHash>::empty());
                    assert(exists|h: TxHash| row.contains(h)) by {
                        if forall|h: TxHash| !row.contains(h) {
                            assert(row =~= Set::<TxHash>::empty());
                        }
                    }
                    let h = choose|h: TxHash| row.contains(h);
                    assert(linked(self.ready_index(), *key, h));
                }
                if claimed(self.ready(), *key) {
                    let h = choose|h: TxHash| #[trigger]
                        self.ready().dom().contains(h) && self.ready()[h].tx.declares(*key);
                    assert(linked(self.ready_index(), *key, h));
                }
            }
            locks.is_locked(key) || has_row
        }
    }

    fn blocking_keys(&self, tx: &Transaction, locks: &LockTracker) -> (set: SortedSet<DeclaredKey>)
        requires
            self.wf(),
        ensures
            set@ == blockers(self.shares(), *tx, locks.locks(), self.ready()),
    {
        let keys = tx.admission_keys();
        let mut set: SortedSet<DeclaredKey> = SortedSet::new();
        let mut i: usize = 0;
        assert(set@ =~= blockers_among(
            keys@.take(0),
            self.shares(),
            *tx,
            locks.locks(),
            self.ready(),
        ));
        while i < keys.len()
            invariant
                i <= keys.len(),
                keys@ == tx.keys(),
                self.wf(),
                set@ == blockers_among(
                    keys@.take(i as int),
                    self.shares(),
                    *tx,
                    locks.locks(),
                    self.ready(),
                ),
            decreases keys.len() - i,
        {
            let key = keys[i];
            proof {
                lemma_take_contains(keys@, i as int);
            }
            if self.key_holds_back(tx, &key, locks) {
                set.insert(key);
            }
            assert(set@ =~= blockers_among(
                keys@.take(i + 1),
                self.shares(),
                *tx,
                locks.locks(),
                self.ready(),
            ));
            i = i + 1;
        }
        assert(keys@.take(i as int) =~= keys@);
        assert(set@ =~= blockers(self.shares(), *tx, locks.locks(), self.ready()));
        set
    }

    fn any_write_overlap(
        &self,
        tx: &Transaction,
        set: &SortedSet<DeclaredKey>,
        locks: &LockTracker,
    ) -> (r: bool)
        requires
            self.wf(),
        ensures
            r == exists|k: DeclaredKey| #[trigger]
                set@.contains(k) && write_overlap(*tx, locks.locks(), self.ready(), k),
    {
        let n: usize = set.len();
        let mut i: usize = 0;
        while i < n
            invariant
                i <= n,
                n == set.order().len(),
                set@ == set.order().to_set(),
                self.wf(),
                forall|j: int|
                    0 <= j < i ==> !write_overlap(
                        *tx,
                        locks.locks(),
                        self.ready(),
                        #[trigger] set.order()[j],
                    ),
            decreases n - i,
        {
            let key = set.at(i);
            if tx.declares_write(&key) || locks.is_write_locked(&key) || self.ready_claim_is_write(
                &key,
            ) {
                assert(set@.contains(key));
                return true;
            }
            i = i + 1;
        }
        proof {
            if exists|k: DeclaredKey| #[trigger]
                set@.contains(k) && write_overlap(*tx, locks.locks(), self.ready(), k) {
                let k = choose|k: DeclaredKey| #[trigger]
                    set@.contains(k) && write_overlap(*tx, locks.locks(), self.ready(), k);
                assert(set.order().contains(k));
                let j = choose|j: int| 0 <= j < set.order().len() && set.order()[j] == k;
                assert(!write_overlap(*tx, locks.locks(), self.ready(), set.order()[j]));
            }
        }
        false
    }

    fn record_deferral(&mut self, hash: TxHash, write_involved: bool, now: LocalTimestamp)
        requires
            old(self).statistics().has_room_for(1),
        ensures
            final(self).statistics() == old(self).statistics().deferred_once(write_involved),
            final(self).since() == waiting_since(old(self).since(), set![hash], now),
            final(self).shares() == old(self).shares(),
            final(self).ready() == old(self).ready(),
            final(self).ready_order() == old(self).ready_order(),
            final(self).deferred() == old(self).deferred(),
            final(self).deferred_index() == old(self).deferred_index(),
            final(self).ready_index() == old(self).ready_index(),
    {
        self.stats.deferral_events = self.stats.deferral_events + 1;
        if write_involved {
            self.stats.write_involved_deferrals = self.stats.write_involved_deferrals + 1;
        } else {
            self.stats.read_read_deferrals = self.stats.read_read_deferrals + 1;
        }
        if !self.deferred_since.contains_key(&hash) {
            self.deferred_since.insert(hash, now);
        }
        assert(self.since() =~= waiting_since(old(self).since(), set![hash], now));
    }

    fn note_queue_depth(&mut self, key: &DeclaredKey)
        ensures
            final(self).statistics() == (DeferralStats {
                peak_deferred_queue_depth: deeper(
                    old(self).statistics().peak_deferred_queue_depth,
                    row_of(old(self).deferred_index(), *key).len() as int,
                ),
                ..old(self).statistics()
            }),
            row_of(old(self).deferred_index(), *key).len() <= usize::MAX,
            final(self).same_entries(old(self)),
            final(self).ready_order() == old(self).ready_order(),
    {
        let depth: usize = self.txs_deferred_by_key.row_len(key);
        if depth > self.stats.peak_deferred_queue_depth {
            self.stats.peak_deferred_queue_depth = depth;
        }
    }
}

impl ReadySet {
    /// Queues `hash` under each key of `set`, and raises the peak depth.
    fn enqueue(&mut self, hash: TxHash, set: &SortedSet<DeclaredKey>)
        requires
            no_empty_rows(old(self).deferred_index()),
        ensures
            forall|k: DeclaredKey, h: TxHash| #[trigger]
                linked(final(self).deferred_index(), k, h) <==> linked(
                    old(self).deferred_index(),
                    k,
                    h,
                ) || (h == hash && set@.contains(k)),
            no_empty_rows(final(self).deferred_index()),
            final(self).shares() == old(self).shares(),
            final(self).ready() == old(self).ready(),
            final(self).ready_order() == old(self).ready_order(),
            final(self).deferred() == old(self).deferred(),
            final(self).ready_index() == old(self).ready_index(),
            final(self).since() == old(self).since(),
            final(self).statistics() == (DeferralStats {
                peak_deferred_queue_depth: final(self).statistics().peak_deferred_queue_depth,
                ..old(self).statistics()
            }),
            final(self).statistics().peak_deferred_queue_depth >= old(self).statistics().peak_deferred_queue_depth,
            forall|k: DeclaredKey| #[trigger]
                set@.contains(k) ==> row_of(final(self).deferred_index(), k).len() <= final(self).statistics().peak_deferred_queue_depth,
            final(self).statistics().peak_deferred_queue_depth == old(self).statistics().peak_deferred_queue_depth || exists|k: DeclaredKey| #[trigger]
                set@.contains(k) && row_of(final(self).deferred_index(), k).len() == final(self).statistics().peak_deferred_queue_depth,
    {
        let n: usize = set.len();
        let mut i: usize = 0;
        let ghost idx0 = self.deferred_index();
        let ghost s0 = self.statistics();
        proof {
            lemma_sorted_distinct(set.order());
        }
        while i < n
            invariant
                i <= n,
                n == set.order().len(),
                set@ == set.order().to_set(),
                set.order().no_duplicates(),
                idx0 == old(self).deferred_index(),
                s0 == old(self).statistics(),
                forall|k: DeclaredKey, h: TxHash| #[trigger]
                    linked(self.deferred_index(), k, h) <==> linked(idx0, k, h) || (h == hash
                        && set.order().take(i as int).contains(k)),
                no_empty_rows(self.deferred_index()),
                self.shares() == old(self).shares(),
                self.ready() == old(self).ready(),
                self.ready_order() == old(self).ready_order(),
                self.deferred() == old(self).deferred(),
                self.ready_index() == old(self).ready_index(),
                self.since() == old(self).since(),
                self.statistics() == (DeferralStats {
                    peak_deferred_queue_depth: self.statistics().peak_deferred_queue_depth,
                    ..s0
                }),
                self.statistics().peak_deferred_queue_depth >= s0.peak_deferred_queue_depth,
                forall|j: int|
                    0 <= j < i ==> row_of(
                        self.deferred_index(),
                        #[trigger] set.order()[j],
                    ).len() <= self.statistics().peak_deferred_queue_depth,
                self.statistics().peak_deferred_queue_depth == s0.peak_deferred_queue_depth
                    || exists|j: int|
                    0 <= j < i && row_of(self.deferred_index(), #[trigger] set.order()[j]).len()
                        == self.statistics().peak_deferred_queue_depth,
            decreases n - i,
        {
            let key = set.at(i);
            let ghost idx1 = self.deferred_index();
            let ghost peak1 = self.statistics().peak_deferred_queue_depth;
            proof {
                lemma_take_contains(set.order(), i as int);
                if idx1.dom().contains(key) {
                    assert(idx1[key].finite());
                }
            }
            self.txs_deferred_by_key.link(key, hash);
            let ghost idx2 = self.deferred_index();
            assert(idx2 == with_link(idx1, key, hash));
            assert(row_of(idx2, key).contains(hash));
            assert forall|k: DeclaredKey, h: TxHash| #[trigger]
                linked(idx2, k, h) <==> linked(idx1, k, h) || (h == hash && k == key) by {}
            assert forall|j: int| 0 <= j < i implies row_of(idx2, #[trigger] set.order()[j])
                == row_of(idx1, set.order()[j]) by {}
            self.note_queue_depth(&key);
            proof {
                let peak2 = self.statistics().peak_deferred_queue_depth;
                if peak2 == peak1 {
                    if peak1 != s0.peak_deferred_queue_depth {
                        let j = choose|j: int|
                            0 <= j < i && row_of(idx1, #[trigger] set.order()[j]).len() == peak1;
                        assert(row_of(idx2, set.order()[j]).len() == peak2);
                    }
                } else {
                    assert(row_of(idx2, set.order()[i as int]).len() == peak2);
                }
            }
            i = i + 1;
        }
        proof {
            assert(set.order().take(i as int) =~= set.order());
            assert forall|k: DeclaredKey| #[trigger] set@.contains(k) implies row_of(
                self.deferred_index(),
                k,
            ).len() <= self.statistics().peak_deferred_queue_depth by {
                assert(set.order().contains(k));
                let j = choose|j: int| 0 <= j < set.order().len() && set.order()[j] == k;
                assert(row_of(self.deferred_index(), set.order()[j]).len()
                    <= self.statistics().peak_deferred_queue_depth);
            }
            if self.statistics().peak_deferred_queue_depth != s0.peak_deferred_queue_depth {
                let j = choose|j: int|
                    0 <= j < i && row_of(self.deferred_index(), #[trigger] set.order()[j]).len()
                        == self.statistics().peak_deferred_queue_depth;
                assert(set@.contains(set.order()[j]));
            }
        }
    }

    /// Records `hash` as a ready claimant of each key.
    fn claim(&mut self, hash: TxHash, keys: &Vec<DeclaredKey>)
        requires
            no_empty_rows(old(self).ready_index()),
        ensures
            forall|k: DeclaredKey, h: TxHash| #[trigger]
                linked(final(self).ready_index(), k, h) <==> linked(old(self).ready_index(), k, h)
                    || (h == hash && keys@.contains(k)),
            no_empty_rows(final(self).ready_index()),
            final(self).shares() == old(self).shares(),
            final(self).ready() == old(self).ready(),
            final(self).deferred() == old(self).deferred(),
            final(self).deferred_index() == old(self).deferred_index(),
            final(self).since() == old(self).since(),
            final(self).statistics() == old(self).statistics(),
    {
        let ghost idx0 = self.ready_index();
        let mut i: usize = 0;
        while i < keys.len()
            invariant
                i <= keys.len(),
                idx0 == old(self).ready_index(),
                forall|k: DeclaredKey, h: TxHash| #[trigger]
                    linked(self.ready_index(), k, h) <==> linked(idx0, k, h) || (h == hash
                        && keys@.take(i as int).contains(k)),
                no_empty_rows(self.ready_index()),
                self.shares() == old(self).shares(),
                self.ready() == old(self).ready(),
                self.deferred() == old(self).deferred(),
                self.deferred_index() == old(self).deferred_index(),
                self.since() == old(self).since(),
                self.statistics() == old(self).statistics(),
            decreases keys.len() - i,
        {
            let key = keys[i];
            let ghost idx1 = self.ready_index();
            proof {
                lemma_take_contains(keys@, i as int);
                if idx1.dom().contains(key) {
                    assert(idx1[key].finite());
                }
            }
            self.ready_txs_by_key.link(key, hash);
            let ghost idx2 = self.ready_index();
            assert(row_of(idx2, key).contains(hash));
            assert forall|k: DeclaredKey, h: TxHash| #[trigger]
                linked(idx2, k, h) <==> linked(idx1, k, h) || (h == hash && k == key) by {}
            i = i + 1;
        }
        assert(keys@.take(i as int) =~= keys@);
    }

    /// Withdraws `hash` as a ready claimant of each key.
    fn unclaim(&mut self, hash: &TxHash, keys: &Vec<DeclaredKey>)
        requires
            no_empty_rows(old(self).ready_index()),
        ensures
            forall|k: DeclaredKey, h: TxHash| #[trigger]
                linked(final(self).ready_index(), k, h) <==> linked(old(self).ready_index(), k, h)
                    && !(h == *hash && keys@.contains(k)),
            no_empty_rows(final(self).ready_index()),
            final(self).shares() == old(self).shares(),
            final(self).ready() == old(self).ready(),
            final(self).deferred() == old(self).deferred(),
            final(self).deferred_index() == old(self).deferred_index(),
            final(self).since() == old(self).since(),
            final(self).statistics() == old(self).statistics(),
    {
        let ghost idx0 = self.ready_index();
        let mut i: usize = 0;
        while i < keys.len()
            invariant
                i <= keys.len(),
                idx0 == old(self).ready_index(),
                forall|k: DeclaredKey, h: TxHash| #[trigger]
                    linked(self.ready_index(), k, h) <==> linked(idx0, k, h) && !(h == *hash
                        && keys@.take(i as int).contains(k)),
                no_empty_rows(self.ready_index()),
                self.shares() == old(self).shares(),
                self.ready() == old(self).ready(),
                self.deferred() == old(self).deferred(),
                self.deferred_index() == old(self).deferred_index(),
                self.since() == old(self).since(),
                self.statistics() == old(self).statistics(),
            decreases keys.len() - i,
        {
            let key = keys[i];
            let ghost idx1 = self.ready_index();
            proof {
                lemma_take_contains(keys@, i as int);
            }
            self.ready_txs_by_key.unlink(&key, hash);
            proof {
                lemma_unlinked(idx1, key, *hash);
            }
            i = i + 1;
        }
        assert(keys@.take(i as int) =~= keys@);
    }

    /// Adds a transaction: deferred if any declared key is locked or claimed
    /// against it, ready otherwise. A hash already tracked is left alone.
    /// `added_at` anchors the dwell filter; `now` feeds the statistics only.
    pub fn add(
        &mut self,
        hash: TxHash,
        tx: Arc<Transaction>,
        added_at: LocalTimestamp,
        now: LocalTimestamp,
        locks: &LockTracker,
    )
        requires
            old(self).wf(),
            old(self).statistics().has_room(now),
        ensures
            final(self).wf(),
            final(self).shares() == old(self).shares(),
            final(self).ready().dom().contains(hash) || final(self).deferred().dom().contains(hash),
            old(self).ready().dom().contains(hash) || old(self).deferred().dom().contains(hash) ==> {
                &&& final(self).same_entries(old(self))
                &&& final(self).statistics() == old(self).statistics()
            },
            !old(self).ready().dom().contains(hash) && !old(self).deferred().dom().contains(
                hash,
            ) ==> {
                let keys = blockers(old(self).shares(), *tx, locks.locks(), old(self).ready());
                if keys != Set::<DeclaredKey>::empty() {
                    &&& final(self).ready() == old(self).ready()
                    &&& final(self).deferred() == old(self).deferred().insert(hash, keys)
                    &&& final(self).since() == waiting_since(old(self).since(), set![hash], now)
                    &&& final(self).statistics() == (DeferralStats {
                        peak_deferred_queue_depth: final(self).statistics().peak_deferred_queue_depth,
                        ..old(self).statistics().deferred_once(
                            exists|k: DeclaredKey| #[trigger]
                                keys.contains(k) && write_overlap(
                                    *tx,
                                    locks.locks(),
                                    old(self).ready(),
                                    k,
                                ),
                        )
                    })
                    &&& is_peak(
                        final(self).statistics().peak_deferred_queue_depth,
                        old(self).statistics().peak_deferred_queue_depth,
                        final(self).deferred(),
                        keys,
                    )
                } else {
                    &&& final(self).ready() == old(self).ready().insert(
                        hash,
                        (ReadyEntry { tx, added_at }),
                    )
                    &&& final(self).deferred() == old(self).deferred()
                    &&& final(self).since() == old(self).since().remove(hash)
                    &&& final(self).statistics() == if old(self).since().dom().contains(hash) {
                        old(self).statistics().promoted(now.since(old(self).since()[hash]))
                    } else {
                        old(self).statistics()
                    }
                }
            },
    {
        if self.ready.contains_key(&hash) || self.deferred_by_keys.contains_row(&hash) {
            return;
        }
        let ghost s0 = *self;
        let blocking = self.blocking_keys(&tx, locks);
        let ghost keys = blocking@;
        assert(keys == blockers(s0.shares(), *tx, locks.locks(), s0.ready()));
        if !blocking.is_empty() {
            let write_involved = self.any_write_overlap(&tx, &blocking, locks);
            self.enqueue(hash, &blocking);
            self.deferred_by_keys.put_row(hash, blocking);
            let ghost s1 = *self;
            self.record_deferral(hash, write_involved, now);
            proof {
                assert(self.deferred() == s0.deferred().insert(hash, keys));
                assert forall|k: DeclaredKey, h: TxHash|
                    #![trigger linked(self.deferred_index(), k, h)]
                    #![trigger linked(self.deferred(), h, k)]
                    linked(self.deferred_index(), k, h) <==> linked(self.deferred(), h, k) by {
                    assert(linked(s0.deferred_index(), k, h) <==> linked(s0.deferred(), h, k));
                }
                assert forall|k: DeclaredKey| queue(self.deferred(), k) == row_of(
                    self.deferred_index(),
                    k,
                ) by {
                    lemma_queue_is_row(self.deferred(), self.deferred_index(), k);
                }
                assert(is_peak(
                    self.statistics().peak_deferred_queue_depth,
                    s0.statistics().peak_deferred_queue_depth,
                    self.deferred(),
                    keys,
                ));
            }
            return;
        }
        match self.deferred_since.remove(&hash) {
            Some(since) => {
                let wait = now.saturating_sub(since);
                self.stats.promotions = self.stats.promotions + 1;
                self.stats.total_deferral_wait = Duration {
                    millis: self.stats.total_deferral_wait.millis + wait.millis,
                };
                if wait.millis > self.stats.max_deferral_wait.millis {
                    self.stats.max_deferral_wait = wait;
                }
            },
            None => {},
        }
        let declared = tx.admission_keys();
        self.claim(hash, &declared);
        self.ready.insert(hash, ReadyEntry { tx, added_at });
        proof {
            lemma_admitted_compatible(
                s0.shares(),
                s0.ready(),
                hash,
                ReadyEntry { tx, added_at },
                locks.locks(),
            );
            assert forall|k: DeclaredKey, h: TxHash| #[trigger]
                linked(self.ready_index(), k, h) <==> self.ready().dom().contains(h)
                    && self.ready()[h].tx.declares(k) by {
                assert(linked(s0.ready_index(), k, h) <==> s0.ready().dom().contains(h)
                    && s0.ready()[h].tx.declares(k));
            }
            assert forall|k: DeclaredKey, h: TxHash|
                #![trigger linked(self.deferred_index(), k, h)]
                #![trigger linked(self.deferred(), h, k)]
                linked(self.deferred_index(), k, h) <==> linked(self.deferred(), h, k) by {
                assert(linked(s0.deferred_index(), k, h) <==> linked(s0.deferred(), h, k));
            }
        }
    }
}

impl ReadySet {
    /// Removes `hash` from wherever it is tracked, and with it the time it was
    /// first deferred. Returns the keys that a
    /// ready entry declared, so deferred transactions waiting on its claim can
    /// be promoted; empty when `hash` was deferred or absent.
    pub fn remove(&mut self, hash: &TxHash) -> (freed_keys: Vec<DeclaredKey>)
        requires
            old(self).wf(),
        ensures
            final(self).wf(),
            final(self).shares() == old(self).shares(),
            final(self).statistics() == old(self).statistics(),
            final(self).ready() == old(self).ready().remove(*hash),
            final(self).deferred() == old(self).deferred().remove(*hash),
            final(self).since() == old(self).since().remove(*hash),
            freed_keys@ == if old(self).ready().dom().contains(*hash) {
                old(self).ready()[*hash].tx.keys()
            } else {
                Seq::empty()
            },
    {
        let ghost s0 = *self;
        let mut freed_keys: Vec<DeclaredKey> = Vec::new();
        match self.ready.remove(hash) {
            Some(entry) => {
                freed_keys = entry.tx.admission_keys();
                self.unclaim(hash, &freed_keys);
            },
            None => {
                assert(s0.ready().remove(*hash) =~= s0.ready());
            },
        }
        let ghost s1 = *self;
        assert forall|k: DeclaredKey, h: TxHash| #[trigger]
            linked(s1.ready_index(), k, h) <==> s1.ready().dom().contains(h)
                && s1.ready()[h].tx.declares(k) by {
            assert(linked(s0.ready_index(), k, h) <==> s0.ready().dom().contains(h)
                && s0.ready()[h].tx.declares(k));
        }
        self.deferred_since.remove(hash);
        match self.deferred_by_keys.take_row(hash) {
            Some(set) => {
                let n: usize = set.len();
                let mut i: usize = 0;
                let ghost idx0 = self.deferred_index();
                while i < n
                    invariant
                        i <= n,
                        n == set.order().len(),
                        set@ == set.order().to_set(),
                        set@ == s0.deferred()[*hash],
                        s0.deferred().dom().contains(*hash),
                        idx0 == s0.deferred_index(),
                        s0.wf(),
                        forall|k: DeclaredKey, h: TxHash| #[trigger]
                            linked(self.deferred_index(), k, h) <==> linked(idx0, k, h) && !(h
                                == *hash && set.order().take(i as int).contains(k)),
                        no_empty_rows(self.deferred_index()),
                        self.shares() == s0.shares(),
                        self.ready() == s1.ready(),
                        self.deferred() == s0.deferred().remove(*hash),
                        self.ready_index() == s1.ready_index(),
                        self.since() == s0.since().remove(*hash),
                        self.statistics() == s0.statistics(),
                    decreases n - i,
                {
                    let key = set.at(i);
                    let ghost idx1 = self.deferred_index();
                    proof {
                        lemma_take_contains(set.order(), i as int);
                        lemma_unlinked(idx1, key, *hash);
                    }
                    self.txs_deferred_by_key.unlink(&key, hash);
                    i = i + 1;
                }
                proof {
                    assert(set.order().take(i as int) =~= set.order());
                    assert forall|k: DeclaredKey, h: TxHash|
                        #![trigger linked(self.deferred_index(), k, h)]
                        #![trigger linked(self.deferred(), h, k)]
                        linked(self.deferred_index(), k, h) <==> linked(self.deferred(), h, k) by {
                        assert(linked(idx0, k, h) <==> linked(s0.deferred(), h, k));
                        if h == *hash && linked(idx0, k, h) {
                            assert(set@.contains(k));
                            assert(set.order().contains(k));
                        }
                    }
                }
            },
            None => {
                proof {
                    assert(s0.deferred().remove(*hash) =~= s0.deferred());
                    assert forall|k: DeclaredKey, h: TxHash|
                        #![trigger linked(self.deferred_index(), k, h)]
                        #![trigger linked(self.deferred(), h, k)]
                        linked(self.deferred_index(), k, h) <==> linked(self.deferred(), h, k) by {
                        assert(linked(s0.deferred_index(), k, h) <==> linked(s0.deferred(), h, k));
                    }
                }
            },
        }
        freed_keys
    }

    /// The ready transactions that a lock on `key` displaces, in hash order.
    fn to_block(&self, key: &DeclaredKey, scope: BlockScope) -> (v: Vec<TxHash>)
        requires
            self.wf(),
        ensures
            v@.to_set() == displaced(self.ready(), *key, scope),
            v@.no_duplicates(),
    {
        let mut v: Vec<TxHash> = Vec::new();
        match self.ready_txs_by_key.row(key) {
            Some(set) => {
                let n: usize = set.len();
                let mut i: usize = 0;
                proof {
                    lemma_sorted_distinct(set.order());
                }
                while i < n
                    invariant
                        i <= n,
                        n == set.order().len(),
                        set@ == set.order().to_set(),
                        set.order().no_duplicates(),
                        self.wf(),
                        self.ready_index().dom().contains(*key),
                        set@ == self.ready_index()[*key],
                        v@.no_duplicates(),
                        forall|h: TxHash| #[trigger]
                            v@.contains(h) <==> set.order().take(i as int).contains(h)
                                && displaced(self.ready(), *key, scope).contains(h),
                    decreases n - i,
                {
                    let hash = set.at(i);
                    proof {
                        lemma_take_hashes(set.order(), i as int);
                        assert(linked(self.ready_index(), *key, hash));
                        assert(!set.order().take(i as int).contains(hash));
                    }
                    let taken = match scope {
                        BlockScope::All => true,
                        BlockScope::WritersOnly => match self.ready.get(&hash) {
                            Some(entry) => entry.tx.declares_write(key),
                            None => false,
                        },
                    };
                    if taken {
                        let ghost v0 = v@;
                        assert(!v0.contains(hash));
                        v.push(hash);
                        proof {
                            lemma_push_contains(v0, hash);
                        }
                    }
                    i = i + 1;
                }
                proof {
                    assert(set.order().take(i as int) =~= set.order());
                    assert forall|h: TxHash| v@.to_set().contains(h) == displaced(
                        self.ready(),
                        *key,
                        scope,
                    ).contains(h) by {
                        if displaced(self.ready(), *key, scope).contains(h) {
                            assert(linked(self.ready_index(), *key, h));
                            assert(set.order().to_set().contains(h));
                        }
                        assert(v@.contains(h) <==> set.order().take(i as int).contains(h)
                            && displaced(self.ready(), *key, scope).contains(h));
                    }
                    assert(v@.to_set() =~= displaced(self.ready(), *key, scope));
                }
            },
            None => {
                proof {
                    assert forall|h: TxHash| !displaced(self.ready(), *key, scope).contains(h) by {
                        if displaced(self.ready(), *key, scope).contains(h) {
                            assert(linked(self.ready_index(), *key, h));
                        }
                    }
                    assert(v@.to_set() =~= displaced(self.ready(), *key, scope));
                }
            },
        }
        v
    }

    /// Moves ready transactions touching `key` to the deferred set: every one
    /// under [`BlockScope::All`], only those declaring `key` as a write under
    /// [`BlockScope::WritersOnly`]. `write_locked` is the new holder's mode;
    /// it and `now` feed the statistics only.
    pub fn block_key(
        &mut self,
        key: DeclaredKey,
        scope: BlockScope,
        write_locked: bool,
        now: LocalTimestamp,
    )
        requires
            old(self).wf(),
            old(self).statistics().has_room_for(
                displaced(old(self).ready(), key, scope).len() as int,
            ),
        ensures
            final(self).wf(),
            final(self).shares() == old(self).shares(),
            ({
                let moved = displaced(old(self).ready(), key, scope);
                let involved = if write_locked {
                    moved
                } else {
                    displaced(old(self).ready(), key, BlockScope::WritersOnly)
                };
                &&& final(self).ready() == old(self).ready().remove_keys(moved)
                &&& final(self).deferred() == old(self).deferred().union_prefer_right(
                    Map::new(|h: TxHash| moved.contains(h), |h: TxHash| set![key]),
                )
                &&& final(self).since() == waiting_since(old(self).since(), moved, now)
                &&& final(self).statistics() == (DeferralStats {
                    deferral_events: (old(self).statistics().deferral_events + moved.len()) as u64,
                    write_involved_deferrals: (old(self).statistics().write_involved_deferrals
                        + involved.len()) as u64,
                    read_read_deferrals: (old(self).statistics().read_read_deferrals + moved.len()
                        - involved.len()) as u64,
                    peak_deferred_queue_depth: if moved == Set::<TxHash>::empty() {
                        old(self).statistics().peak_deferred_queue_depth
                    } else {
                        deeper(
                            old(self).statistics().peak_deferred_queue_depth,
                            queue(final(self).deferred(), key).len() as int,
                        )
                    },
                    ..old(self).statistics()
                })
            }),
    {
        let to_block = self.to_block(&key, scope);
        let ghost s0 = *self;
        let ghost moved = displaced(s0.ready(), key, scope);
        let ghost writers = displaced(s0.ready(), key, BlockScope::WritersOnly);
        let ghost mut done: Set<TxHash> = Set::empty();
        let ghost mut heavy: Set<TxHash> = Set::empty();
        let mut i: usize = 0;
        proof {
            to_block@.unique_seq_to_set();
            assert(s0.ready().remove_keys(done) =~= s0.ready());
            assert(s0.deferred().union_prefer_right(
                Map::new(|h: TxHash| done.contains(h), |h: TxHash| set![key]),
            ) =~= s0.deferred());
            assert(waiting_since(s0.since(), done, now) =~= s0.since());
            assert(to_block@.take(0).to_set() =~= done);
            assert(Set::new(
                |h: TxHash| done.contains(h) && (write_locked || writers.contains(h)),
            ) =~= heavy);
        }
        while i < to_block.len()
            invariant
                i <= to_block.len(),
                s0.wf(),
                s0 == *old(self),
                to_block@.no_duplicates(),
                to_block@.to_set() == moved,
                moved == displaced(s0.ready(), key, scope),
                writers == displaced(s0.ready(), key, BlockScope::WritersOnly),
                moved.len() == to_block@.len(),
                s0.statistics().has_room_for(moved.len() as int),
                done == to_block@.take(i as int).to_set(),
                done.finite(),
                done.len() == i,
                heavy == Set::new(
                    |h: TxHash| done.contains(h) && (write_locked || writers.contains(h)),
                ),
                heavy.finite(),
                heavy.len() <= i,
                self.wf(),
                self.shares() == s0.shares(),
                self.ready() == s0.ready().remove_keys(done),
                self.deferred() == s0.deferred().union_prefer_right(
                    Map::new(|h: TxHash| done.contains(h), |h: TxHash| set![key]),
                ),
                self.since() == waiting_since(s0.since(), done, now),
                self.statistics() == (DeferralStats {
                    deferral_events: (s0.statistics().deferral_events + i) as u64,
                    write_involved_deferrals: (s0.statistics().write_involved_deferrals
                        + heavy.len()) as u64,
                    read_read_deferrals: (s0.statistics().read_read_deferrals + i
                        - heavy.len()) as u64,
                    peak_deferred_queue_depth: if i == 0 {
                        s0.statistics().peak_deferred_queue_depth
                    } else {
                        deeper(
                            s0.statistics().peak_deferred_queue_depth,
                            queue(self.deferred(), key).len() as int,
                        )
                    },
                    ..s0.statistics()
                }),
            decreases to_block.len() - i,
        {
            let hash = to_block[i];
            let ghost s1 = *self;
            let ghost done1 = done;
            let ghost heavy1 = heavy;
            proof {
                lemma_take_hashes(to_block@, i as int);
                assert(!to_block@.take(i as int).contains(hash)) by {
                    if to_block@.take(i as int).contains(hash) {
                        let t = to_block@.take(i as int);
                        let j = choose|j: int| 0 <= j < t.len() && t[j] == hash;
                        assert(to_block@[j] == to_block@[i as int]);
                    }
                }
                assert(!done1.contains(hash));
                assert(moved.contains(hash)) by {
                    assert(to_block@.contains(to_block@[i as int]));
                }
                assert(s0.ready().dom().contains(hash));
                assert(self.ready().dom().contains(hash));
                assert(!s0.deferred().dom().contains(hash));
                done = done1.insert(hash);
                heavy = if write_locked || writers.contains(hash) {
                    heavy1.insert(hash)
                } else {
                    heavy1
                };
                assert(done =~= to_block@.take(i + 1).to_set());
                assert(heavy =~= Set::new(
                    |h: TxHash| done.contains(h) && (write_locked || writers.contains(h)),
                ));
            }
            match self.ready.remove(&hash) {
                None => {
                    assert(false);
                },
                Some(entry) => {
                    let keys = entry.tx.admission_keys();
                    self.unclaim(&hash, &keys);
                    let write_involved = write_locked || entry.tx.declares_write(&key);
                    let ghost s2 = *self;
                    proof {
                        if s2.deferred_index().dom().contains(key) {
                            assert(s2.deferred_index()[key].finite());
                        }
                        if s2.deferred().dom().contains(hash) {
                            assert(s2.deferred()[hash].finite());
                        }
                    }
                    self.deferred_by_keys.link(hash, key);
                    self.txs_deferred_by_key.link(key, hash);
                    let ghost s3 = *self;
                    self.note_queue_depth(&key);
                    self.record_deferral(hash, write_involved, now);
                    proof {
                        lemma_displaced_step(
                            s0,
                            s1,
                            *self,
                            key,
                            hash,
                            done1,
                            now,
                        );
                        let before = row_of(s1.deferred_index(), key);
                        lemma_queue_is_row(s1.deferred(), s1.deferred_index(), key);
                        lemma_queue_is_row(self.deferred(), self.deferred_index(), key);
                        assert(row_of(s3.deferred_index(), key) == before.insert(hash));
                        assert(before.len() <= row_of(s3.deferred_index(), key).len());
                        assert(self.statistics().peak_deferred_queue_depth == deeper(
                            s0.statistics().peak_deferred_queue_depth,
                            queue(self.deferred(), key).len() as int,
                        ));
                    }
                },
            }
            i = i + 1;
        }
        proof {
            assert(to_block@.take(i as int) =~= to_block@);
            assert(done == moved);
            let involved = if write_locked {
                moved
            } else {
                writers
            };
            assert(heavy =~= involved) by {
                assert forall|h: TxHash| writers.contains(h) && !write_locked implies heavy.contains(
                    h,
                ) by {}
            }
            if i == 0 {
                assert(moved =~= Set::<TxHash>::empty());
            } else {
                assert(moved.contains(to_block@[0])) by {
                    assert(to_block@.contains(to_block@[0]));
                }
            }
        }
    }

    /// Removes `key` from every deferred transaction's blockers. Returns, in
    /// hash order, those whose last blocker it was: they leave the deferred
    /// set and are candidates for re-adding.
    pub fn promotable_for_key(&mut self, key: DeclaredKey) -> (promotable: Vec<TxHash>)
        requires
            old(self).wf(),
        ensures
            final(self).wf(),
            final(self).shares() == old(self).shares(),
            final(self).ready() == old(self).ready(),
            final(self).since() == old(self).since(),
            final(self).statistics() == old(self).statistics(),
            strictly_sorted(promotable@),
            promotable@.to_set() == Set::new(
                |h: TxHash|
                    old(self).deferred().dom().contains(h) && old(self).deferred()[h] == set![key],
            ),
            final(self).deferred() == Map::new(
                |h: TxHash|
                    old(self).deferred().dom().contains(h) && old(self).deferred()[h] != set![key],
                |h: TxHash| old(self).deferred()[h].remove(key),
            ),
    {
        let ghost s0 = *self;
        let ghost last = Set::new(
            |h: TxHash| s0.deferred().dom().contains(h) && s0.deferred()[h] == set![key],
        );
        let mut promotable: Vec<TxHash> = Vec::new();
        match self.txs_deferred_by_key.take_row(&key) {
            None => {
                proof {
                    assert forall|h: TxHash| !linked(s0.deferred(), h, key) by {
                        assert(linked(s0.deferred_index(), key, h) <==> linked(
                            s0.deferred(),
                            h,
                            key,
                        ));
                    }
                    assert forall|h: TxHash| !last.contains(h) by {
                        if last.contains(h) {
                            assert(set![key].contains(key));
                            assert(linked(s0.deferred(), h, key));
                        }
                    }
                    assert(promotable@.to_set() =~= last);
                    assert(self.deferred_index() =~= s0.deferred_index());
                    assert forall|h: TxHash, k: DeclaredKey| #[trigger]
                        linked(self.deferred(), h, k) <==> linked(s0.deferred(), h, k) && k
                            != key by {
                        assert(!linked(s0.deferred(), h, key));
                    }
                    lemma_blockers_lifted(s0.deferred(), self.deferred(), key);
                }
                promotable
            },
            Some(set) => {
                let n: usize = set.len();
                let mut i: usize = 0;
                proof {
                    lemma_sorted_distinct(set.order());
                }
                while i < n
                    invariant
                        i <= n,
                        n == set.order().len(),
                        set@ == set.order().to_set(),
                        strictly_sorted(set.order()),
                        set.order().no_duplicates(),
                        s0.wf(),
                        s0 == *old(self),
                        last == Set::new(
                            |h: TxHash|
                                s0.deferred().dom().contains(h) && s0.deferred()[h] == set![key],
                        ),
                        s0.deferred_index().dom().contains(key),
                        set@ == s0.deferred_index()[key],
                        self.deferred_index() == s0.deferred_index().remove(key),
                        self.ready_index() == s0.ready_index(),
                        self.shares() == s0.shares(),
                        self.ready() == s0.ready(),
                        self.since() == s0.since(),
                        self.statistics() == s0.statistics(),
                        no_empty_rows(self.deferred()),
                        self.deferred().dom().finite(),
                        forall|h: TxHash, k: DeclaredKey| #[trigger]
                            linked(self.deferred(), h, k) <==> linked(s0.deferred(), h, k) && !(k
                                == key && set.order().take(i as int).contains(h)),
                        strictly_sorted(promotable@),
                        forall|h: TxHash| #[trigger]
                            promotable@.contains(h) <==> last.contains(h)
                                && set.order().take(i as int).contains(h),
                    decreases n - i,
                {
                    let hash = set.at(i);
                    let ghost d1 = self.deferred();
                    proof {
                        lemma_take_hashes(set.order(), i as int);
                        lemma_unlinked(d1, hash, key);
                        assert(linked(s0.deferred_index(), key, hash) <==> linked(
                            s0.deferred(),
                            hash,
                            key,
                        ));
                    }
                    self.deferred_by_keys.unlink(&hash, &key);
                    if !self.deferred_by_keys.contains_row(&hash) {
                        proof {
                            lemma_only_member(s0.deferred(), self.deferred(), hash, key);
                            assert(last.contains(hash));
                            lemma_push_contains(promotable@, hash);
                            assert forall|j: int| 0 <= j < promotable@.len() implies (
                            #[trigger] promotable@[j]).before(hash) by {
                                assert(promotable@.contains(promotable@[j]));
                                let t = set.order().take(i as int);
                                assert(t.contains(promotable@[j]));
                                let m = choose|m: int| 0 <= m < t.len() && t[m] == promotable@[j];
                                assert(set.order()[m].before(set.order()[i as int]));
                            }
                        }
                        promotable.push(hash);
                    } else {
                        proof {
                            let row = self.deferred()[hash];
                            assert(row != Set::<DeclaredKey>::empty());
                            assert(exists|k: DeclaredKey| row.contains(k)) by {
                                if forall|k: DeclaredKey| !row.contains(k) {
                                    assert(row =~= Set::<DeclaredKey>::empty());
                                }
                            }
                            let k = choose|k: DeclaredKey| row.contains(k);
                            assert(linked(self.deferred(), hash, k));
                            assert(linked(s0.deferred(), hash, k));
                            assert(k != key);
                            assert(!set![key].contains(k));
                            assert(!last.contains(hash));
                        }
                    }
                    i = i + 1;
                }
                proof {
                    assert(set.order().take(i as int) =~= set.order());
                    assert forall|h: TxHash| set.order().contains(h) <==> linked(
                        s0.deferred(),
                        h,
                        key,
                    ) by {
                        assert(linked(s0.deferred_index(), key, h) <==> linked(
                            s0.deferred(),
                            h,
                            key,
                        ));
                        assert(set@.contains(h) == set.order().contains(h));
                    }
                    lemma_blockers_lifted(s0.deferred(), self.deferred(), key);
                    assert forall|h: TxHash| last.contains(h) implies set.order().contains(h) by {
                        assert(set![key].contains(key));
                        assert(linked(s0.deferred(), h, key));
                    }
                    assert(promotable@.to_set() =~= last);
                    assert forall|k: DeclaredKey, h: TxHash|
                        #![trigger linked(self.deferred_index(), k, h)]
                        #![trigger linked(self.deferred(), h, k)]
                        linked(self.deferred_index(), k, h) <==> linked(self.deferred(), h, k) by {
                        assert(linked(s0.deferred_index(), k, h) <==> linked(s0.deferred(), h, k));
                    }
                    assert forall|h: TxHash| #[trigger] self.ready().dom().contains(h) implies !self.deferred().dom().contains(
                        h,
                    ) by {
                        assert(s0.ready().dom().contains(h));
                        if self.deferred().dom().contains(h) {
                            assert(s0.deferred().dom().contains(h));
                        }
                    }
                }
                promotable
            },
        }
    }
}

/// Every relation but those to `key` is kept: each row lost `key`, and the
/// rows that held nothing else went.
proof fn lemma_blockers_lifted(
    before: Map<TxHash, Set<DeclaredKey>>,
    after: Map<TxHash, Set<DeclaredKey>>,
    key: DeclaredKey,
)
    requires
        no_empty_rows(before),
        no_empty_rows(after),
        forall|h: TxHash, k: DeclaredKey| #[trigger]
            linked(after, h, k) <==> linked(before, h, k) && k != key,
    ensures
        after == Map::new(
            |h: TxHash| before.dom().contains(h) && before[h] != set![key],
            |h: TxHash| before[h].remove(key),
        ),
        forall|h: TxHash| #[trigger] after.dom().contains(h) ==> before.dom().contains(h),
{
    let goal = Map::new(
        |h: TxHash| before.dom().contains(h) && before[h] != set![key],
        |h: TxHash| before[h].remove(key),
    );
    assert forall|h: TxHash|
        #![trigger after.dom().contains(h)]
        #![trigger goal.dom().contains(h)]
        after.dom().contains(h) == goal.dom().contains(h) && (after.dom().contains(h) ==> after[h]
            == goal[h]) by {
        if after.dom().contains(h) {
            let row = after[h];
            assert(row != Set::<DeclaredKey>::empty());
            assert(exists|k: DeclaredKey| row.contains(k)) by {
                if forall|k: DeclaredKey| !row.contains(k) {
                    assert(row =~= Set::<DeclaredKey>::empty());
                }
            }
            let k = choose|k: DeclaredKey| row.contains(k);
            assert(linked(after, h, k));
            assert(linked(before, h, k) && k != key);
            assert(before[h].contains(k) && !set![key].contains(k));
            assert forall|x: DeclaredKey| after[h].contains(x) == before[h].remove(key).contains(x) by {
                assert(linked(after, h, x) <==> linked(before, h, x) && x != key);
            }
            assert(after[h] =~= before[h].remove(key));
        }
        if goal.dom().contains(h) {
            let row = before[h];
            assert(exists|k: DeclaredKey| row.contains(k) && k != key) by {
                if forall|k: DeclaredKey| !(row.contains(k) && k != key) {
                    if row.contains(key) {
                        assert(row =~= set![key]);
                    } else {
                        assert(row =~= Set::<DeclaredKey>::empty());
                    }
                }
            }
            let k = choose|k: DeclaredKey| row.contains(k) && k != key;
            assert(linked(before, h, k));
            assert(linked(after, h, k));
        }
    }
    assert(after =~= goal);
}

/// A row that vanished when `key` left it held nothing else.
proof fn lemma_only_member(
    before: Map<TxHash, Set<DeclaredKey>>,
    after: Map<TxHash, Set<DeclaredKey>>,
    h: TxHash,
    key: DeclaredKey,
)
    requires
        linked(before, h, key),
        !after.dom().contains(h),
        forall|k: DeclaredKey|
            k != key ==> (#[trigger] linked(after, h, k) <==> linked(before, h, k)),
    ensures
        before[h] == set![key],
{
    assert forall|k: DeclaredKey| before[h].contains(k) == set![key].contains(k) by {
        if k != key {
            assert(linked(after, h, k) <==> linked(before, h, k));
        }
    }
    assert(before[h] =~= set![key]);
}

/// One displaced transaction carries the partial result one step on.
proof fn lemma_displaced_step(
    s0: ReadySet,
    s1: ReadySet,
    s2: ReadySet,
    key: DeclaredKey,
    hash: TxHash,
    done: Set<TxHash>,
    now: LocalTimestamp,
)
    requires
        s1.wf(),
        s2.statistics().balanced(),
        s2.shares() == s1.shares(),
        !done.contains(hash),
        s1.ready().dom().contains(hash),
        !s0.deferred().dom().contains(hash),
        s1.ready() == s0.ready().remove_keys(done),
        s1.deferred() == s0.deferred().union_prefer_right(
            Map::new(|h: TxHash| done.contains(h), |h: TxHash| set![key]),
        ),
        s1.since() == waiting_since(s0.since(), done, now),
        s2.ready() == s1.ready().remove(hash),
        s2.deferred() == with_link(s1.deferred(), hash, key),
        s2.deferred_index() == with_link(s1.deferred_index(), key, hash),
        s2.since() == waiting_since(s1.since(), set![hash], now),
        no_empty_rows(s2.ready_index()),
        forall|k: DeclaredKey, h: TxHash| #[trigger]
            linked(s2.ready_index(), k, h) <==> linked(s1.ready_index(), k, h) && !(h == hash
                && s1.ready()[hash].tx.declares(k)),
    ensures
        s2.wf(),
        s2.ready() == s0.ready().remove_keys(done.insert(hash)),
        s2.deferred() == s0.deferred().union_prefer_right(
            Map::new(|h: TxHash| done.insert(hash).contains(h), |h: TxHash| set![key]),
        ),
        s2.since() == waiting_since(s0.since(), done.insert(hash), now),
{
    assert(!s1.deferred().dom().contains(hash));
    assert(row_of(s1.deferred(), hash).insert(key) =~= set![key]);
    assert(s2.ready() =~= s0.ready().remove_keys(done.insert(hash)));
    assert(s2.deferred() =~= s0.deferred().union_prefer_right(
        Map::new(|h: TxHash| done.insert(hash).contains(h), |h: TxHash| set![key]),
    ));
    assert(s2.since() =~= waiting_since(s0.since(), done.insert(hash), now));
    assert forall|k: DeclaredKey, h: TxHash| #[trigger]
        linked(s2.ready_index(), k, h) <==> s2.ready().dom().contains(h)
            && s2.ready()[h].tx.declares(k) by {
        assert(linked(s1.ready_index(), k, h) <==> s1.ready().dom().contains(h)
            && s1.ready()[h].tx.declares(k));
    }
    assert forall|k: DeclaredKey, h: TxHash|
        #![trigger linked(s2.deferred_index(), k, h)]
        #![trigger linked(s2.deferred(), h, k)]
        linked(s2.deferred_index(), k, h) <==> linked(s2.deferred(), h, k) by {
        assert(linked(s1.deferred_index(), k, h) <==> linked(s1.deferred(), h, k));
    }
    assert forall|k: DeclaredKey| #[trigger] s2.deferred_index().dom().contains(k) implies s2.deferred_index()[k].finite()
        && s2.deferred_index()[k] != Set::<TxHash>::empty() by {
        if k == key {
            assert(s2.deferred_index()[k].contains(hash));
            if s1.deferred_index().dom().contains(key) {
                assert(s1.deferred_index()[key].finite());
            }
        } else {
            assert(s1.deferred_index().dom().contains(k));
        }
    }
    assert forall|h: TxHash| #[trigger] s2.deferred().dom().contains(h) implies s2.deferred()[h].finite()
        && s2.deferred()[h] != Set::<DeclaredKey>::empty() by {
        if h == hash {
            assert(s2.deferred()[h].contains(key));
        } else {
            assert(s1.deferred().dom().contains(h));
        }
    }
}

proof fn lemma_take_hashes(s: Seq<TxHash>, i: int)
    requires
        0 <= i < s.len(),
    ensures
        forall|h: TxHash| #[trigger]
            s.take(i + 1).contains(h) == (s.take(i).contains(h) || s[i] == h),
{
    let t = s.take(i + 1);
    let u = s.take(i);
    assert forall|h: TxHash| #[trigger] t.contains(h) == (u.contains(h) || s[i] == h) by {
        if u.contains(h) {
            let j = choose|j: int| 0 <= j < u.len() && u[j] == h;
            assert(t[j] == h);
        }
        if s[i] == h {
            assert(t[i] == h);
        }
        if t.contains(h) {
            let j = choose|j: int| 0 <= j < t.len() && t[j] == h;
            if j < i {
                assert(u[j] == h);
            }
        }
    }
}

proof fn lemma_push_contains(s: Seq<TxHash>, x: TxHash)
    ensures
        forall|h: TxHash| #[trigger] s.push(x).contains(h) == (s.contains(h) || h == x),
{
    assert forall|h: TxHash| #[trigger] s.push(x).contains(h) == (s.contains(h) || h == x) by {
        if s.contains(h) {
            let j = choose|j: int| 0 <= j < s.len() && s[j] == h;
            assert(s.push(x)[j] == h);
        }
        assert(s.push(x)[s.len() as int] == x);
        if s.push(x).contains(h) {
            let t = s.push(x);
            let j = choose|j: int| 0 <= j < t.len() && t[j] == h;
            if j < s.len() {
                assert(s[j] == h);
            }
        }
    }
}

impl ReadySet {
    /// The ready transactions in hash order, without those that have been in
    /// the pool for less than `min_dwell`.
    pub fn iter_ready(&self, min_dwell: Duration, now: LocalTimestamp) -> (v: Vec<Arc<Transaction>>)
        ensures
            strictly_sorted(self.ready_order()),
            self.ready_order().to_set() == self.ready().dom(),
            v@ == self.ready_order().filter(
                |h: TxHash| now.since(self.ready()[h].added_at).millis >= min_dwell.millis,
            ).map_values(|h: TxHash| self.ready()[h].tx),
    {
        let n: usize = self.ready.len();
        let ghost dwelt = |h: TxHash|
            now.since(self.ready()[h].added_at).millis >= min_dwell.millis;
        let ghost body = |h: TxHash| self.ready()[h].tx;
        let ghost order = self.ready_order();
        let mut v: Vec<Arc<Transaction>> = Vec::new();
        let mut i: usize = 0;
        assert(order.take(0).filter(dwelt) =~= Seq::<TxHash>::empty()) by {
            reveal(Seq::filter);
        }
        while i < n
            invariant
                i <= n,
                order == self.ready_order(),
                n == order.len(),
                dwelt == (|h: TxHash|
                    now.since(self.ready()[h].added_at).millis >= min_dwell.millis),
                body == (|h: TxHash| self.ready()[h].tx),
                v@ == order.take(i as int).filter(dwelt).map_values(body),
            decreases n - i,
        {
            let entry = self.ready.value_at(i);
            let ghost earlier = order.take(i as int);
            proof {
                assert(order.take(i + 1) =~= earlier.push(order[i as int]));
                earlier.lemma_filter_push(order[i as int], dwelt);
            }
            if now.saturating_sub(entry.added_at).millis >= min_dwell.millis {
                v.push(Arc::clone(&entry.tx));
            }
            assert(v@ =~= order.take(i + 1).filter(dwelt).map_values(body));
            i = i + 1;
        }
        assert(order.take(i as int) =~= order);
        v
    }

    /// The number of ready transactions.
    pub fn ready_count(&self) -> (n: usize)
        ensures
            n == self.ready().dom().len(),
    {
        self.ready.len()
    }

    /// The number of deferred transactions.
    pub fn deferred_count(&self) -> (n: usize)
        ensures
            n == self.deferred().dom().len(),
    {
        self.deferred_by_keys.len()
    }

    /// The number of keys that block some deferred transaction.
    pub fn txs_deferred_by_key_len(&self) -> (n: usize)
        ensures
            n == self.deferred_index().dom().len(),
    {
        self.txs_deferred_by_key.len()
    }

    /// The number of keys that some ready transaction declares.
    pub fn ready_txs_by_key_len(&self) -> (n: usize)
        ensures
            n == self.ready_index().dom().len(),
    {
        self.ready_txs_by_key.len()
    }
}

/// A transaction that nothing holds back conflicts with no ready one.
proof fn lemma_admitted_compatible(
    share: bool,
    ready: ReadyMap,
    hash: TxHash,
    entry: ReadyEntry,
    locks: Locks,
)
    requires
        compatible(share, ready),
        !ready.dom().contains(hash),
        blockers(share, *entry.tx, locks, ready) == Set::<DeclaredKey>::empty(),
    ensures
        compatible(share, ready.insert(hash, entry)),
{
    let after = ready.insert(hash, entry);
    assert forall|g: TxHash, h: TxHash, k: DeclaredKey|
        g != h && #[trigger] after.dom().contains(g) && #[trigger] after.dom().contains(h)
            && #[trigger] after[g].tx.declares(k) && after[h].tx.declares(k) implies share
        && !after[g].tx.writes_key(k) by {
        if g == hash || h == hash {
            let other = if g == hash {
                h
            } else {
                g
            };
            assert(ready.dom().contains(other) && ready[other].tx.declares(k));
            assert(!blockers(share, *entry.tx, locks, ready).contains(k));
            assert(claimed(ready, k));
            assert(share && !entry.tx.writes_key(k));
            assert(!write_claimed(ready, k));
            assert(!ready[other].tx.writes_key(k));
        } else {
            assert(ready.dom().contains(g) && ready.dom().contains(h));
            assert(ready[g].tx.declares(k));
        }
    }
}

/// Folding readouts does not depend on which is folded into which.
pub proof fn law_absorb_commutes(a: DeferralStats, b: DeferralStats)
    ensures
        a.absorbed(b) == b.absorbed(a),
        a.can_absorb(b) == b.can_absorb(a),
{
}

/// Folding readouts does not depend on how they are grouped.
pub proof fn law_absorb_associates(a: DeferralStats, b: DeferralStats, c: DeferralStats)
    requires
        a.can_absorb(b),
        a.absorbed(b).can_absorb(c),
    ensures
        b.can_absorb(c),
        a.can_absorb(b.absorbed(c)),
        a.absorbed(b).absorbed(c) == a.absorbed(b.absorbed(c)),
{
}

/// The readout of a set that deferred nothing changes no other.
pub proof fn law_absorb_nothing(a: DeferralStats)
    ensures
        a.can_absorb(no_deferrals()),
        a.absorbed(no_deferrals()) == a,
{
}

/// Under the exclusive rule a transaction that shares a key with a ready one
/// is held back by it.
pub proof fn law_overlap_defers(
    share: bool,
    tx: Transaction,
    locks: Locks,
    ready: ReadyMap,
    h: TxHash,
    k: DeclaredKey,
)
    requires
        !share || tx.writes_key(k) || ready[h].tx.writes_key(k),
        tx.declares(k),
        ready.dom().contains(h),
        ready[h].tx.declares(k),
    ensures
        blockers(share, tx, locks, ready).contains(k),
{
    assert(claimed(ready, k));
}

/// Read-read overlap admits: under read-share, a transaction whose declared
/// keys are at most read, by it and by everyone else, is held back by nothing.
pub proof fn law_shared_reads_admit(tx: Transaction, locks: Locks, ready: ReadyMap)
    requires
        forall|k: DeclaredKey| #[trigger]
            tx.declares(k) ==> !tx.writes_key(k) && writes_of(locks, k) == 0 && !write_claimed(
                ready,
                k,
            ),
    ensures
        blockers(true, tx, locks, ready) == Set::<DeclaredKey>::empty(),
{
    assert(blockers(true, tx, locks, ready) =~= Set::<DeclaredKey>::empty());
}

/// In a well-formed set the queue of a key is its row in the reverse index.
proof fn lemma_queue_is_row(
    deferred: Map<TxHash, Set<DeclaredKey>>,
    index: Map<DeclaredKey, Set<TxHash>>,
    k: DeclaredKey,
)
    requires
        forall|k: DeclaredKey, h: TxHash| #[trigger]
            linked(index, k, h) <==> linked(deferred, h, k),
    ensures
        queue(deferred, k) == row_of(index, k),
{
    assert forall|h: TxHash| queue(deferred, k).contains(h) == row_of(index, k).contains(h) by {
        assert(linked(index, k, h) <==> linked(deferred, h, k));
    }
    assert(queue(deferred, k) =~= row_of(index, k));
}

/// Ending one relation leaves the others, and leaves no row empty.
proof fn lemma_unlinked<A, B>(rows: Map<A, Set<B>>, a: A, b: B)
    requires
        no_empty_rows(rows),
    ensures
        no_empty_rows(without_link(rows, a, b)),
        forall|x: A, y: B| #[trigger]
            linked(without_link(rows, a, b), x, y) <==> linked(rows, x, y) && !(x == a && y == b),
{
    let after = without_link(rows, a, b);
    let left = row_of(rows, a).remove(b);
    assert forall|x: A, y: B| #[trigger] linked(after, x, y) <==> linked(rows, x, y) && !(x == a && y
        == b) by {
        if x == a && linked(rows, x, y) && y != b {
            assert(left.contains(y));
        }
    }
    assert forall|x: A| #[trigger] after.dom().contains(x) implies after[x].finite() && after[x]
        != Set::<B>::empty() by {
        if x != a {
            assert(rows.dom().contains(x));
        } else if rows.dom().contains(a) {
            assert(rows[a].finite());
        }
    }
}

/// No row of the relation is empty, and each is finite.
pub open spec fn no_empty_rows<A, B>(rows: Map<A, Set<B>>) -> bool {
    forall|a: A| #[trigger]
        rows.dom().contains(a) ==> rows[a].finite() && rows[a] != Set::<B>::empty()
}

spec fn blockers_among(
    keys: Seq<DeclaredKey>,
    share: bool,
    tx: Transaction,
    locks: Locks,
    ready: ReadyMap,
) -> Set<DeclaredKey> {
    Set::new(|k: DeclaredKey| keys.contains(k) && holds_back(share, tx, locks, ready, k))
}

proof fn lemma_take_contains(s: Seq<DeclaredKey>, i: int)
    requires
        0 <= i < s.len(),
    ensures
        forall|k: DeclaredKey| #[trigger]
            s.take(i + 1).contains(k) == (s.take(i).contains(k) || s[i] == k),
{
    assert forall|k: DeclaredKey| #[trigger]
        s.take(i + 1).contains(k) == (s.take(i).contains(k) || s[i] == k) by {
        if s.take(i).contains(k) {
            let j = choose|j: int| 0 <= j < i && s.take(i)[j] == k;
            assert(s.take(i + 1)[j] == k);
        }
        if s[i] == k {
            assert(s.take(i + 1)[i] == k);
        }
        if s.take(i + 1).contains(k) {
            let t = s.take(i + 1);
            let j = choose|j: int| 0 <= j < t.len() && t[j] == k;
            if j < i {
                assert(s.take(i)[j] == k);
            }
        }
    }
}

/// A declared write is a declared key.
proof fn lemma_writes_declares(tx: Arc<Transaction>, k: DeclaredKey)
    requires
        tx.writes_key(k),
    ensures
        tx.declares(k),
{
    let i = choose|i: int| 0 <= i < tx.writes@.len() && tx.writes@[i] == k;
    assert(tx.keys()[tx.reads@.len() + i] == k);
}

/// What holds a transaction back, key by key. A declared key that it may share,
/// being only read under read-share, does so where it is write locked or some
/// ready transaction writes it; any other declared key does so where it is
/// locked or some ready transaction declares it. No other key does.
pub proof fn law_what_holds_a_transaction_back(
    share: bool,
    tx: Transaction,
    locks: Locks,
    ready: ReadyMap,
    k: DeclaredKey,
)
    ensures
        ({
            let held = blockers(share, tx, locks, ready).contains(k);
            let written = exists|h: TxHash|
                ready.contains_key(h) && (#[trigger] ready[h]).tx.writes@.contains(k);
            let touched = exists|h: TxHash|
                ready.contains_key(h) && ((#[trigger] ready[h]).tx.reads@.contains(k)
                    || ready[h].tx.writes@.contains(k));
            &&& !tx.reads@.contains(k) && !tx.writes@.contains(k) ==> !held
            &&& tx.writes@.contains(k) || (tx.reads@.contains(k) && !share) ==> (held
                <==> locks.contains_key(k) || touched)
            &&& tx.reads@.contains(k) && !tx.writes@.contains(k) && share ==> (held <==> (
            locks.contains_key(k) && locks[k].writes > 0) || written)
        }),
{
    lemma_declares(tx.reads@, tx.writes@, k);
    assert forall|h: TxHash| #[trigger] ready[h].tx.declares(k) == (ready[h].tx.reads@.contains(k)
        || ready[h].tx.writes@.contains(k)) by {
        lemma_declares(ready[h].tx.reads@, ready[h].tx.writes@, k);
    }
    if claimed(ready, k) {
        let h = choose|h: TxHash| #[trigger] ready.dom().contains(h) && ready[h].tx.declares(k);
        assert(ready[h].tx.reads@.contains(k) || ready[h].tx.writes@.contains(k));
    }
    if write_claimed(ready, k) {
        let h = choose|h: TxHash| #[trigger] ready.dom().contains(h) && ready[h].tx.writes_key(k);
        assert(ready[h].tx.writes@.contains(k));
    }
    if exists|h: TxHash| ready.contains_key(h) && (#[trigger] ready[h]).tx.writes@.contains(k) {
        let h = choose|h: TxHash|
            ready.contains_key(h) && (#[trigger] ready[h]).tx.writes@.contains(k);
        assert(ready.dom().contains(h) && ready[h].tx.writes_key(k));
    }
    if exists|h: TxHash|
        ready.contains_key(h) && ((#[trigger] ready[h]).tx.reads@.contains(k)
            || ready[h].tx.writes@.contains(k)) {
        let h = choose|h: TxHash|
            ready.contains_key(h) && ((#[trigger] ready[h]).tx.reads@.contains(k)
                || ready[h].tx.writes@.contains(k));
        assert(ready.dom().contains(h) && ready[h].tx.declares(k));
    }
}

/// A key is declared where it is read or written.
proof fn lemma_declares(reads: Seq<DeclaredKey>, writes: Seq<DeclaredKey>, k: DeclaredKey)
    ensures
        (reads + writes).contains(k) == (reads.contains(k) || writes.contains(k)),
{
    if reads.contains(k) {
        let i = choose|i: int| 0 <= i < reads.len() && reads[i] == k;
        assert((reads + writes)[i] == k);
    }
    if writes.contains(k) {
        let i = choose|i: int| 0 <= i < writes.len() && writes[i] == k;
        assert((reads + writes)[reads.len() + i] == k);
    }
}

/// An overlap involves a write exactly where the transaction writes the key, its
/// lock is held by a writer, or some ready transaction writes it.
pub proof fn law_which_overlaps_involve_a_write(
    tx: Transaction,
    locks: Locks,
    ready: ReadyMap,
    k: DeclaredKey,
)
    ensures
        write_overlap(tx, locks, ready, k) <==> tx.writes@.contains(k) || (locks.contains_key(k)
            && locks[k].writes > 0) || exists|h: TxHash|
            ready.contains_key(h) && (#[trigger] ready[h]).tx.writes@.contains(k),
{
    if write_claimed(ready, k) {
        let h = choose|h: TxHash| #[trigger] ready.dom().contains(h) && ready[h].tx.writes_key(k);
        assert(ready[h].tx.writes@.contains(k));
    }
    if exists|h: TxHash| ready.contains_key(h) && (#[trigger] ready[h]).tx.writes@.contains(k) {
        let h = choose|h: TxHash|
            ready.contains_key(h) && (#[trigger] ready[h]).tx.writes@.contains(k);
        assert(ready.dom().contains(h) && ready[h].tx.writes_key(k));
    }
}

/// A lock displaces every ready transaction that writes its key, and, where it
/// blocks all, every one that reads it too; it displaces no other.
pub proof fn law_what_a_lock_displaces(ready: ReadyMap, key: DeclaredKey, h: TxHash)
    ensures
        displaced(ready, key, BlockScope::All).contains(h) <==> ready.contains_key(h) && (
        ready[h].tx.reads@.contains(key) || ready[h].tx.writes@.contains(key)),
        displaced(ready, key, BlockScope::WritersOnly).contains(h) <==> ready.contains_key(h)
            && ready[h].tx.writes@.contains(key),
{
    lemma_declares(ready[h].tx.reads@, ready[h].tx.writes@, key);
}

/// A wait is timed from the first deferral: a transaction that already waits
/// keeps its time, one that is deferred now starts now, and no other waits.
pub proof fn law_a_wait_counts_from_the_first_deferral(
    since: Map<TxHash, LocalTimestamp>,
    hashes: Set<TxHash>,
    now: LocalTimestamp,
    h: TxHash,
)
    ensures
        since.contains_key(h) ==> waiting_since(since, hashes, now).contains_key(h)
            && waiting_since(since, hashes, now)[h] == since[h],
        !since.contains_key(h) && hashes.contains(h) ==> waiting_since(
            since,
            hashes,
            now,
        ).contains_key(h) && waiting_since(since, hashes, now)[h] == now,
        !since.contains_key(h) && !hashes.contains(h) ==> !waiting_since(
            since,
            hashes,
            now,
        ).contains_key(h),
{
}

/// A deferral counts once, as one of its two kinds; a promotion counts once, adds
/// its wait to the total and is the longest wait where none was longer. Neither
/// touches the other's figures.
pub proof fn law_each_event_counts_once(
    s: DeferralStats,
    write_involved: bool,
    wait: Duration,
    now: LocalTimestamp,
)
    requires
        s.has_room(now),
        wait.millis <= now.millis,
    ensures
        ({
            let d = s.deferred_once(write_involved);
            &&& d.deferral_events == s.deferral_events + 1
            &&& write_involved ==> d.write_involved_deferrals == s.write_involved_deferrals + 1
                && d.read_read_deferrals == s.read_read_deferrals
            &&& !write_involved ==> d.write_involved_deferrals == s.write_involved_deferrals
                && d.read_read_deferrals == s.read_read_deferrals + 1
            &&& d.promotions == s.promotions
            &&& d.total_deferral_wait == s.total_deferral_wait
            &&& d.max_deferral_wait == s.max_deferral_wait
            &&& d.peak_deferred_queue_depth == s.peak_deferred_queue_depth
        }),
        ({
            let p = s.promoted(wait);
            &&& p.promotions == s.promotions + 1
            &&& p.total_deferral_wait.millis == s.total_deferral_wait.millis + wait.millis
            &&& p.max_deferral_wait.millis >= s.max_deferral_wait.millis
            &&& p.max_deferral_wait.millis >= wait.millis
            &&& p.max_deferral_wait == s.max_deferral_wait || p.max_deferral_wait == wait
            &&& p.deferral_events == s.deferral_events
            &&& p.write_involved_deferrals == s.write_involved_deferrals
            &&& p.read_read_deferrals == s.read_read_deferrals
            &&& p.peak_deferred_queue_depth == s.peak_deferred_queue_depth
        }),
{
}

/// Folding readouts together adds every counter and keeps the greater of each
/// extreme.
pub proof fn law_absorb_adds_counts_and_keeps_extremes(a: DeferralStats, b: DeferralStats)
    requires
        a.can_absorb(b),
    ensures
        ({
            let s = a.absorbed(b);
            &&& s.deferral_events == a.deferral_events + b.deferral_events
            &&& s.read_read_deferrals == a.read_read_deferrals + b.read_read_deferrals
            &&& s.write_involved_deferrals == a.write_involved_deferrals
                + b.write_involved_deferrals
            &&& s.promotions == a.promotions + b.promotions
            &&& s.total_deferral_wait.millis == a.total_deferral_wait.millis
                + b.total_deferral_wait.millis
            &&& s.max_deferral_wait.millis >= a.max_deferral_wait.millis
                && s.max_deferral_wait.millis >= b.max_deferral_wait.millis
            &&& s.max_deferral_wait == a.max_deferral_wait || s.max_deferral_wait
                == b.max_deferral_wait
            &&& s.peak_deferred_queue_depth >= a.peak_deferred_queue_depth
                && s.peak_deferred_queue_depth >= b.peak_deferred_queue_depth
            &&& s.peak_deferred_queue_depth == a.peak_deferred_queue_depth
                || s.peak_deferred_queue_depth == b.peak_deferred_queue_depth
        }),
{
}

/// A key's queue is every deferred transaction that the key blocks.
pub proof fn law_a_queue_is_whom_its_key_blocks(
    deferred: Map<TxHash, Set<DeclaredKey>>,
    k: DeclaredKey,
    h: TxHash,
)
    ensures
        queue(deferred, k).contains(h) <==> deferred.contains_key(h) && deferred[h].contains(k),
{
}

/// Ready transactions do not conflict: two that declare one key both only read it,
/// and readers share.
pub proof fn law_ready_transactions_do_not_conflict(
    set: ReadySet,
    g: TxHash,
    h: TxHash,
    k: DeclaredKey,
)
    requires
        set.wf(),
        g != h,
        set.ready().contains_key(g),
        set.ready().contains_key(h),
        set.ready()[g].tx.reads@.contains(k) || set.ready()[g].tx.writes@.contains(k),
        set.ready()[h].tx.reads@.contains(k) || set.ready()[h].tx.writes@.contains(k),
    ensures
        set.shares(),
        !set.ready()[g].tx.writes@.contains(k),
        !set.ready()[h].tx.writes@.contains(k),
        !set.deferred().contains_key(g) && !set.deferred().contains_key(h),
{
    lemma_declares(set.ready()[g].tx.reads@, set.ready()[g].tx.writes@, k);
    lemma_declares(set.ready()[h].tx.reads@, set.ready()[h].tx.writes@, k);
    assert(set.ready().dom().contains(g) && set.ready().dom().contains(h));
    assert(set.ready()[g].tx.declares(k) && set.ready()[h].tx.declares(k));
}

/// The peak is one figure: the greatest of what it was and of the queues it is
/// taken over.
pub proof fn law_a_peak_is_the_greatest(
    p: usize,
    q: usize,
    prior: usize,
    deferred: Map<TxHash, Set<DeclaredKey>>,
    keys: Set<DeclaredKey>,
    k: DeclaredKey,
)
    requires
        is_peak(p, prior, deferred, keys),
        is_peak(q, prior, deferred, keys),
    ensures
        p == q,
        p >= prior,
        keys.contains(k) ==> p >= queue(deferred, k).len(),
{
}

} // verus!
