//! Declared-key state locks and the in-flight transaction counter.
//!
//! A key is locked while any transaction that declares it is committed and
//! unfinished. Under the exclusive discipline a key is locked or not; under
//! the read-share discipline readers stack, a write excludes everyone, and a
//! release lowers the holder's own mode.
use vstd::prelude::*;

use crate::list::{lemma_thins_concat, lemma_thins_next, lemma_thins_none, thins};
use crate::sorted::SortedMap;
use crate::types::DeclaredKey;

verus! {

/// Whom a newly blocking key blocks in the ready set.
#[derive(Clone, Copy, Debug, PartialEq, Eq, Structural)]
pub enum BlockScope {
    /// Every ready transaction touching the key.
    All,
    /// Only ready transactions declaring the key as a write: the key became
    /// read-locked, and readers keep sharing it.
    WritersOnly,
}

/// How many holders of a locked key declared it in each mode.
#[derive(Clone, Copy, Debug, PartialEq, Eq, Structural)]
pub struct LockCounts {
    /// Holders that declared the key as a read.
    pub reads: usize,
    /// Holders that declared the key as a write.
    pub writes: usize,
}

/// The lock state: which keys are locked, with the counts of their holders.
pub type Locks = Map<DeclaredKey, LockCounts>;

/// The read count of a key, none when it is not locked.
pub open spec fn reads_of(m: Locks, k: DeclaredKey) -> int {
    if m.dom().contains(k) {
        m[k].reads as int
    } else {
        0
    }
}

/// The write count of a key, none when it is not locked.
pub open spec fn writes_of(m: Locks, k: DeclaredKey) -> int {
    if m.dom().contains(k) {
        m[k].writes as int
    } else {
        0
    }
}

/// How often `k` occurs in `s`.
pub open spec fn occurrences(s: Seq<DeclaredKey>, k: DeclaredKey) -> int
    decreases s.len(),
{
    if s.len() == 0 {
        0
    } else {
        occurrences(s.drop_last(), k) + if s.last() == k {
            1int
        } else {
            0int
        }
    }
}

/// The keys of `s` that satisfy `open`, each at its first occurrence.
pub open spec fn first_where(
    s: Seq<DeclaredKey>,
    open: spec_fn(DeclaredKey) -> bool,
) -> Seq<DeclaredKey>
    decreases s.len(),
{
    if s.len() == 0 {
        Seq::empty()
    } else {
        let earlier = first_where(s.drop_last(), open);
        if open(s.last()) && !s.drop_last().contains(s.last()) {
            earlier.push(s.last())
        } else {
            earlier
        }
    }
}

/// A key has a write holder.
pub open spec fn written(m: Locks, k: DeclaredKey) -> bool {
    m.contains_key(k) && m[k].writes > 0
}

/// A key has a read holder.
pub open spec fn read_held(m: Locks, k: DeclaredKey) -> bool {
    m.contains_key(k) && m[k].reads > 0
}

/// Each key paired with one scope.
pub open spec fn scoped(s: Seq<DeclaredKey>, scope: BlockScope) -> Seq<(DeclaredKey, BlockScope)> {
    s.map_values(|k: DeclaredKey| (k, scope))
}

/// Read-share acquisition: every declared key gains one holder per
/// declaration, in the declared mode.
pub open spec fn raised(m: Locks, reads: Seq<DeclaredKey>, writes: Seq<DeclaredKey>) -> Locks {
    Map::new(
        |k: DeclaredKey| m.dom().contains(k) || reads.contains(k) || writes.contains(k),
        |k: DeclaredKey|
            LockCounts {
                reads: (reads_of(m, k) + occurrences(reads, k)) as usize,
                writes: (writes_of(m, k) + occurrences(writes, k)) as usize,
            },
    )
}

/// What a read-share acquisition newly blocks: writers on a key that gained
/// its first holder as a read, everyone on a key that gained its first write.
pub open spec fn raised_blocks(
    m: Locks,
    reads: Seq<DeclaredKey>,
    writes: Seq<DeclaredKey>,
) -> Seq<(DeclaredKey, BlockScope)> {
    scoped(
        first_where(reads, |k: DeclaredKey| reads_of(m, k) == 0 && writes_of(m, k) == 0),
        BlockScope::WritersOnly,
    ) + scoped(first_where(writes, |k: DeclaredKey| writes_of(m, k) == 0), BlockScope::All)
}

/// Exclusive acquisition: every declared key is locked; a newly locked one
/// starts without counts.
pub open spec fn seized(m: Locks, keys: Seq<DeclaredKey>) -> Locks {
    Map::new(
        |k: DeclaredKey| m.dom().contains(k) || keys.contains(k),
        |k: DeclaredKey|
            if m.dom().contains(k) {
                m[k]
            } else {
                LockCounts { reads: 0, writes: 0 }
            },
    )
}

/// Records a write holder on each locked key of `keys` that had none.
pub open spec fn write_marked(m: Locks, keys: Seq<DeclaredKey>) -> Locks {
    Map::new(
        |k: DeclaredKey| m.dom().contains(k),
        |k: DeclaredKey|
            if keys.contains(k) && m[k].writes == 0 {
                LockCounts { reads: m[k].reads, writes: 1 }
            } else {
                m[k]
            },
    )
}

/// Unconditional release of `keys`.
pub open spec fn freed(m: Locks, keys: Seq<DeclaredKey>) -> Locks {
    m.remove_keys(keys.to_set())
}

/// `a` less `b`, not below zero.
pub open spec fn less(a: int, b: int) -> int {
    if a <= b {
        0
    } else {
        a - b
    }
}

/// Read-share release of reads: each declaration takes one read holder off,
/// and a key left without holders is unlocked.
pub open spec fn reads_lowered(m: Locks, reads: Seq<DeclaredKey>) -> Locks {
    Map::new(
        |k: DeclaredKey|
            m.dom().contains(k) && !(reads.contains(k) && m[k].writes == 0 && m[k].reads
                <= occurrences(reads, k)),
        |k: DeclaredKey|
            LockCounts {
                reads: less(m[k].reads as int, occurrences(reads, k)) as usize,
                writes: m[k].writes,
            },
    )
}

/// The keys that a release of reads unlocks, each where its last holder left.
pub open spec fn reads_drained(m: Locks, reads: Seq<DeclaredKey>) -> Seq<DeclaredKey>
    decreases reads.len(),
{
    if reads.len() == 0 {
        Seq::empty()
    } else {
        let earlier = reads_drained(m, reads.drop_last());
        let k = reads.last();
        let n = occurrences(reads, k);
        if m.dom().contains(k) && m[k].writes == 0 && (n == m[k].reads || (n == 1 && m[k].reads
            == 0)) {
            earlier.push(k)
        } else {
            earlier
        }
    }
}

/// Read-share release of writes: each declaration takes one write holder off,
/// and a key left without holders is unlocked.
pub open spec fn writes_lowered(m: Locks, writes: Seq<DeclaredKey>) -> Locks {
    Map::new(
        |k: DeclaredKey|
            m.dom().contains(k) && !(writes.contains(k) && m[k].reads == 0 && m[k].writes
                <= occurrences(writes, k)),
        |k: DeclaredKey|
            LockCounts {
                reads: m[k].reads,
                writes: less(m[k].writes as int, occurrences(writes, k)) as usize,
            },
    )
}

/// The keys whose write lock a release of writes clears, and those that it
/// unlocks, each where it did. A release of a write lock that nobody holds
/// clears none.
pub open spec fn writes_drained(m: Locks, writes: Seq<DeclaredKey>) -> Seq<DeclaredKey>
    decreases writes.len(),
{
    if writes.len() == 0 {
        Seq::empty()
    } else {
        let earlier = writes_drained(m, writes.drop_last());
        let k = writes.last();
        let n = occurrences(writes, k);
        if m.dom().contains(k) && if m[k].reads > 0 {
            n == m[k].writes
        } else {
            n == m[k].writes || (n == 1 && m[k].writes == 0)
        } {
            earlier.push(k)
        } else {
            earlier
        }
    }
}

/// A key occurs exactly when its count is positive.
pub proof fn lemma_occurrences(s: Seq<DeclaredKey>, k: DeclaredKey)
    ensures
        0 <= occurrences(s, k) <= s.len(),
        s.contains(k) == (occurrences(s, k) > 0),
    decreases s.len(),
{
    if s.len() > 0 {
        lemma_occurrences(s.drop_last(), k);
        assert(s =~= s.drop_last().push(s.last()));
        if s.drop_last().contains(k) {
            let i = choose|i: int| 0 <= i < s.drop_last().len() && s.drop_last()[i] == k;
            assert(s[i] == k);
        }
        if s.contains(k) && s.last() != k {
            let i = choose|i: int| 0 <= i < s.len() && s[i] == k;
            assert(s.drop_last()[i] == k);
        }
        if s.last() == k {
            assert(s[s.len() - 1] == k);
        }
    }
}

proof fn lemma_taken(s: Seq<DeclaredKey>, i: int)
    requires
        0 <= i < s.len(),
    ensures
        s.take(i + 1).drop_last() == s.take(i),
        s.take(i + 1).last() == s[i],
        forall|k: DeclaredKey| #[trigger]
            s.take(i + 1).contains(k) == (s.take(i).contains(k) || s[i] == k),
{
    assert(s.take(i + 1).drop_last() =~= s.take(i));
    assert(s.take(i + 1) =~= s.take(i).push(s[i]));
    assert forall|k: DeclaredKey| #[trigger]
        s.take(i + 1).contains(k) == (s.take(i).contains(k) || s[i] == k) by {
        lemma_occurrences(s.take(i + 1), k);
        lemma_occurrences(s.take(i), k);
    }
}

/// Declared-key locks, with the count of transactions that hold them.
pub struct LockTracker {
    share_reads: bool,
    locked: SortedMap<DeclaredKey, LockCounts>,
    in_flight_count: usize,
}

impl LockTracker {
    /// The lock state.
    pub closed spec fn locks(&self) -> Locks {
        self.locked@
    }

    /// Whether readers share.
    pub closed spec fn shares(&self) -> bool {
        self.share_reads
    }

    /// The number of transactions holding locks.
    pub closed spec fn flying(&self) -> usize {
        self.in_flight_count
    }

    /// A tracker under the chosen discipline, with nothing locked.
    pub fn with_read_share(share_reads: bool) -> (t: Self)
        ensures
            t.shares() == share_reads,
            t.locks() == Locks::empty(),
            t.flying() == 0,
    {
        LockTracker { share_reads, locked: SortedMap::new(), in_flight_count: 0 }
    }

    fn raise_reads(&mut self, reads: &[DeclaredKey], blocking: &mut Vec<(DeclaredKey, BlockScope)>)
        requires
            forall|k: DeclaredKey| #[trigger]
                reads_of(old(self).locks(), k) + reads@.len() <= usize::MAX,
        ensures
            final(self).locks() == raised(old(self).locks(), reads@, Seq::empty()),
            final(self).shares() == old(self).shares(),
            final(self).flying() == old(self).flying(),
            final(blocking)@ == old(blocking)@ + scoped(
                first_where(
                    reads@,
                    |k: DeclaredKey|
                        reads_of(old(self).locks(), k) == 0 && writes_of(old(self).locks(), k) == 0,
                ),
                BlockScope::WritersOnly,
            ),
    {
        let ghost m = self.locks();
        let ghost b0 = blocking@;
        let ghost open = |k: DeclaredKey| reads_of(m, k) == 0 && writes_of(m, k) == 0;
        let mut i: usize = 0;
        assert(self.locks() =~= raised(m, reads@.take(0), Seq::empty()));
        assert(blocking@ =~= b0 + scoped(first_where(reads@.take(0), open), BlockScope::WritersOnly));
        while i < reads.len()
            invariant
                i <= reads.len(),
                forall|k: DeclaredKey| #[trigger] reads_of(m, k) + reads@.len() <= usize::MAX,
                self.locks() == raised(m, reads@.take(i as int), Seq::empty()),
                self.shares() == old(self).shares(),
                self.flying() == old(self).flying(),
                open == (|k: DeclaredKey| reads_of(m, k) == 0 && writes_of(m, k) == 0),
                blocking@ == b0 + scoped(
                    first_where(reads@.take(i as int), open),
                    BlockScope::WritersOnly,
                ),
            decreases reads.len() - i,
        {
            let key = reads[i];
            proof {
                lemma_taken(reads@, i as int);
                lemma_occurrences(reads@.take(i as int), key);
                lemma_occurrences(reads@.take(i + 1), key);
                assert(reads_of(m, key) + reads@.len() <= usize::MAX);
            }
            let counts = match self.locked.get(&key) {
                Some(c) => *c,
                None => LockCounts { reads: 0, writes: 0 },
            };
            let now: usize = counts.reads + 1;
            self.locked.insert(key, LockCounts { reads: now, writes: counts.writes });
            if now == 1 && counts.writes == 0 {
                blocking.push((key, BlockScope::WritersOnly));
            }
            proof {
                assert(self.locks() =~= raised(m, reads@.take(i + 1), Seq::empty()));
                assert(blocking@ =~= b0 + scoped(
                    first_where(reads@.take(i + 1), open),
                    BlockScope::WritersOnly,
                ));
            }
            i = i + 1;
        }
        assert(reads@.take(i as int) =~= reads@);
    }

    fn raise_writes(
        &mut self,
        writes: &[DeclaredKey],
        blocking: &mut Vec<(DeclaredKey, BlockScope)>,
    )
        requires
            forall|k: DeclaredKey| #[trigger]
                writes_of(old(self).locks(), k) + writes@.len() <= usize::MAX,
        ensures
            final(self).locks() == raised(old(self).locks(), Seq::empty(), writes@),
            final(self).shares() == old(self).shares(),
            final(self).flying() == old(self).flying(),
            final(blocking)@ == old(blocking)@ + scoped(
                first_where(writes@, |k: DeclaredKey| writes_of(old(self).locks(), k) == 0),
                BlockScope::All,
            ),
    {
        let ghost m = self.locks();
        let ghost b0 = blocking@;
        let ghost open = |k: DeclaredKey| writes_of(m, k) == 0;
        let mut i: usize = 0;
        assert(self.locks() =~= raised(m, Seq::empty(), writes@.take(0)));
        assert(blocking@ =~= b0 + scoped(first_where(writes@.take(0), open), BlockScope::All));
        while i < writes.len()
            invariant
                i <= writes.len(),
                forall|k: DeclaredKey| #[trigger] writes_of(m, k) + writes@.len() <= usize::MAX,
                self.locks() == raised(m, Seq::empty(), writes@.take(i as int)),
                self.shares() == old(self).shares(),
                self.flying() == old(self).flying(),
                open == (|k: DeclaredKey| writes_of(m, k) == 0),
                blocking@ == b0 + scoped(
                    first_where(writes@.take(i as int), open),
                    BlockScope::All,
                ),
            decreases writes.len() - i,
        {
            let key = writes[i];
            proof {
                lemma_taken(writes@, i as int);
                lemma_occurrences(writes@.take(i as int), key);
                lemma_occurrences(writes@.take(i + 1), key);
                assert(writes_of(m, key) + writes@.len() <= usize::MAX);
            }
            let counts = match self.locked.get(&key) {
                Some(c) => *c,
                None => LockCounts { reads: 0, writes: 0 },
            };
            let now: usize = counts.writes + 1;
            self.locked.insert(key, LockCounts { reads: counts.reads, writes: now });
            if now == 1 {
                blocking.push((key, BlockScope::All));
            }
            proof {
                assert(self.locks() =~= raised(m, Seq::empty(), writes@.take(i + 1)));
                assert(blocking@ =~= b0 + scoped(
                    first_where(writes@.take(i + 1), open),
                    BlockScope::All,
                ));
            }
            i = i + 1;
        }
        assert(writes@.take(i as int) =~= writes@);
    }

    /// Acquires locks for one committed transaction's declared sets. Returns
    /// the keys that newly block, each with the scope of whom it blocks.
    pub fn lock_declared(&mut self, reads: &[DeclaredKey], writes: &[DeclaredKey]) -> (blocking: Vec<
        (DeclaredKey, BlockScope),
    >)
        requires
            old(self).shares() ==> forall|k: DeclaredKey|
                #![trigger reads_of(old(self).locks(), k)]
                #![trigger writes_of(old(self).locks(), k)]
                reads_of(old(self).locks(), k) + reads@.len() <= usize::MAX && writes_of(
                    old(self).locks(),
                    k,
                ) + writes@.len() <= usize::MAX,
        ensures
            final(self).shares() == old(self).shares(),
            final(self).flying() == old(self).flying(),
            old(self).shares() ==> {
                &&& final(self).locks() == raised(old(self).locks(), reads@, writes@)
                &&& blocking@ == raised_blocks(old(self).locks(), reads@, writes@)
            },
            !old(self).shares() ==> {
                &&& final(self).locks() == write_marked(
                    seized(old(self).locks(), reads@ + writes@),
                    writes@,
                )
                &&& blocking@ == scoped(
                    first_where(
                        reads@ + writes@,
                        |k: DeclaredKey| !old(self).locks().dom().contains(k),
                    ),
                    BlockScope::All,
                )
            },
            blocking@.no_duplicates(),
            old(self).shares() ==> forall|k: DeclaredKey|
                #![trigger blocking@.contains((k, BlockScope::All))]
                blocking@.contains((k, BlockScope::All)) <==> !written(old(self).locks(), k)
                    && written(final(self).locks(), k),
            old(self).shares() ==> forall|k: DeclaredKey|
                #![trigger blocking@.contains((k, BlockScope::WritersOnly))]
                blocking@.contains((k, BlockScope::WritersOnly)) <==> !written(
                    old(self).locks(),
                    k,
                ) && !read_held(old(self).locks(), k) && read_held(final(self).locks(), k),
            !old(self).shares() ==> forall|k: DeclaredKey|
                #![trigger blocking@.contains((k, BlockScope::All))]
                blocking@.contains((k, BlockScope::All)) <==> !old(self).locks().contains_key(k)
                    && final(self).locks().contains_key(k),
    {
        let ghost m = self.locks();
        let mut blocking: Vec<(DeclaredKey, BlockScope)> = Vec::new();
        if self.share_reads {
            self.raise_reads(reads, &mut blocking);
            let ghost m1 = self.locks();
            proof {
                assert forall|k: DeclaredKey| #[trigger]
                    writes_of(m1, k) + writes@.len() <= usize::MAX by {
                    assert(writes_of(m, k) + writes@.len() <= usize::MAX);
                    lemma_occurrences(reads@, k);
                }
            }
            self.raise_writes(writes, &mut blocking);
            proof {
                assert forall|k: DeclaredKey| reads_of(m, k) + occurrences(reads@, k) <= usize::MAX
                    && occurrences(reads@, k) >= 0 by {
                    lemma_occurrences(reads@, k);
                    assert(reads_of(m, k) + reads@.len() <= usize::MAX);
                }
                assert forall|k: DeclaredKey| writes_of(m1, k) == writes_of(m, k) by {
                    assert(writes_of(m, k) + writes@.len() <= usize::MAX);
                    lemma_occurrences(Seq::empty(), k);
                }
                assert(self.locks() =~= raised(m, reads@, writes@)) by {
                    assert forall|k: DeclaredKey|
                        raised(m, reads@, writes@).dom().contains(k) implies #[trigger] self.locks()[k]
                        == raised(m, reads@, writes@)[k] by {
                        lemma_occurrences(reads@, k);
                        lemma_occurrences(writes@, k);
                        assert(reads_of(m, k) + reads@.len() <= usize::MAX);
                        assert(reads_of(m1, k) == reads_of(m, k) + occurrences(reads@, k));
                    }
                }
                assert((|k: DeclaredKey| writes_of(m1, k) == 0) =~= (|k: DeclaredKey|
                    writes_of(m, k) == 0));
                assert(blocking@ =~= raised_blocks(m, reads@, writes@));
                lemma_blocks_by_locks(m, reads@, writes@);
            }
            blocking
        } else {
            let newly_read = self.lock_keys(reads);
            push_scoped(&mut blocking, &newly_read);
            let newly_written = self.lock_keys(writes);
            push_scoped(&mut blocking, &newly_written);
            self.mark_write_locked(writes);
            proof {
                lemma_seized_twice(m, reads@, writes@);
                assert(blocking@ =~= scoped(
                    first_where(reads@ + writes@, |k: DeclaredKey| !m.dom().contains(k)),
                    BlockScope::All,
                ));
                lemma_first_where(reads@ + writes@, |k: DeclaredKey| !m.dom().contains(k));
                lemma_scoped(
                    first_where(reads@ + writes@, |k: DeclaredKey| !m.dom().contains(k)),
                    BlockScope::All,
                );
            }
            blocking
        }
    }

    fn lower_reads(&mut self, reads: &[DeclaredKey], promotable: &mut Vec<DeclaredKey>)
        ensures
            final(self).locks() == reads_lowered(old(self).locks(), reads@),
            final(self).shares() == old(self).shares(),
            final(self).flying() == old(self).flying(),
            final(promotable)@ == old(promotable)@ + reads_drained(old(self).locks(), reads@),
    {
        let ghost m = self.locks();
        let ghost p0 = promotable@;
        let mut i: usize = 0;
        assert(self.locks() =~= reads_lowered(m, reads@.take(0)));
        assert(promotable@ =~= p0 + reads_drained(m, reads@.take(0)));
        while i < reads.len()
            invariant
                i <= reads.len(),
                self.locks() == reads_lowered(m, reads@.take(i as int)),
                self.shares() == old(self).shares(),
                self.flying() == old(self).flying(),
                promotable@ == p0 + reads_drained(m, reads@.take(i as int)),
            decreases reads.len() - i,
        {
            let key = reads[i];
            proof {
                lemma_taken(reads@, i as int);
                lemma_occurrences(reads@.take(i as int), key);
                lemma_occurrences(reads@.take(i + 1), key);
            }
            let held = match self.locked.get(&key) {
                Some(c) => Some(*c),
                None => None,
            };
            if let Some(counts) = held {
                let left: usize = counts.reads.saturating_sub(1);
                if left == 0 && counts.writes == 0 {
                    self.locked.remove(&key);
                    promotable.push(key);
                } else {
                    self.locked.insert(key, LockCounts { reads: left, writes: counts.writes });
                }
            }
            proof {
                assert(self.locks() =~= reads_lowered(m, reads@.take(i + 1)));
                assert(promotable@ =~= p0 + reads_drained(m, reads@.take(i + 1)));
            }
            i = i + 1;
        }
        assert(reads@.take(i as int) =~= reads@);
    }

    fn lower_writes(&mut self, writes: &[DeclaredKey], promotable: &mut Vec<DeclaredKey>)
        ensures
            final(self).locks() == writes_lowered(old(self).locks(), writes@),
            final(self).shares() == old(self).shares(),
            final(self).flying() == old(self).flying(),
            final(promotable)@ == old(promotable)@ + writes_drained(old(self).locks(), writes@),
    {
        let ghost m = self.locks();
        let ghost p0 = promotable@;
        let mut i: usize = 0;
        assert(self.locks() =~= writes_lowered(m, writes@.take(0)));
        assert(promotable@ =~= p0 + writes_drained(m, writes@.take(0)));
        while i < writes.len()
            invariant
                i <= writes.len(),
                self.locks() == writes_lowered(m, writes@.take(i as int)),
                self.shares() == old(self).shares(),
                self.flying() == old(self).flying(),
                promotable@ == p0 + writes_drained(m, writes@.take(i as int)),
            decreases writes.len() - i,
        {
            let key = writes[i];
            proof {
                lemma_taken(writes@, i as int);
                lemma_occurrences(writes@.take(i as int), key);
                lemma_occurrences(writes@.take(i + 1), key);
            }
            let held = match self.locked.get(&key) {
                Some(c) => Some(*c),
                None => None,
            };
            if let Some(counts) = held {
                let left: usize = counts.writes.saturating_sub(1);
                if left == 0 {
                    if counts.reads == 0 {
                        self.locked.remove(&key);
                    } else {
                        self.locked.insert(key, LockCounts { reads: counts.reads, writes: left });
                    }
                    if counts.reads == 0 || counts.writes > 0 {
                        promotable.push(key);
                    }
                } else {
                    self.locked.insert(key, LockCounts { reads: counts.reads, writes: left });
                }
            }
            proof {
                assert(self.locks() =~= writes_lowered(m, writes@.take(i + 1)));
                assert(promotable@ =~= p0 + writes_drained(m, writes@.take(i + 1)));
            }
            i = i + 1;
        }
        assert(writes@.take(i as int) =~= writes@);
    }

    /// Releases one transaction's declared locks. Returns the keys worth a
    /// promotion sweep: those whose write lock cleared or that unlocked
    /// entirely. A key that is not locked here is ignored.
    pub fn unlock_declared(&mut self, reads: &[DeclaredKey], writes: &[DeclaredKey]) -> (promotable:
        Vec<DeclaredKey>)
        ensures
            final(self).shares() == old(self).shares(),
            final(self).flying() == old(self).flying(),
            old(self).shares() ==> {
                &&& final(self).locks() == writes_lowered(
                    reads_lowered(old(self).locks(), reads@),
                    writes@,
                )
                &&& promotable@ == reads_drained(old(self).locks(), reads@) + writes_drained(
                    reads_lowered(old(self).locks(), reads@),
                    writes@,
                )
            },
            !old(self).shares() ==> {
                &&& final(self).locks() == freed(old(self).locks(), reads@ + writes@)
                &&& promotable@ == first_where(
                    reads@ + writes@,
                    |k: DeclaredKey| old(self).locks().dom().contains(k),
                )
            },
            promotable@.no_duplicates(),
            old(self).shares() ==> forall|k: DeclaredKey| #[trigger]
                promotable@.contains(k) <==> old(self).locks().contains_key(k) && (!final(self).locks().contains_key(k) || (old(self).locks()[k].writes > 0 && final(self).locks()[k].writes == 0)),
            !old(self).shares() ==> forall|k: DeclaredKey| #[trigger]
                promotable@.contains(k) <==> old(self).locks().contains_key(k) && !final(self).locks().contains_key(k),
    {
        if self.share_reads {
            let mut promotable: Vec<DeclaredKey> = Vec::new();
            let ghost m = self.locks();
            self.lower_reads(reads, &mut promotable);
            assert(promotable@ =~= reads_drained(m, reads@));
            self.lower_writes(writes, &mut promotable);
            proof {
                law_a_shared_release_reports_what_cleared(
                    m,
                    self.locks(),
                    reads@,
                    writes@,
                    promotable@,
                );
            }
            promotable
        } else {
            let mut keys: Vec<DeclaredKey> = Vec::new();
            keys.extend_from_slice(reads);
            keys.extend_from_slice(writes);
            assert(keys@ =~= reads@ + writes@);
            self.unlock_keys(&keys)
        }
    }

    /// Marks each key as locked. Returns those that were not locked.
    pub fn lock_keys(&mut self, keys: &[DeclaredKey]) -> (newly: Vec<DeclaredKey>)
        ensures
            final(self).locks() == seized(old(self).locks(), keys@),
            final(self).shares() == old(self).shares(),
            final(self).flying() == old(self).flying(),
            newly@ == first_where(
                keys@,
                |k: DeclaredKey| !old(self).locks().dom().contains(k),
            ),
            newly@.no_duplicates(),
            forall|k: DeclaredKey| #[trigger]
                newly@.contains(k) <==> !old(self).locks().contains_key(k) && final(self).locks().contains_key(k),
    {
        let ghost m = self.locks();
        let ghost open = |k: DeclaredKey| !m.dom().contains(k);
        let mut newly: Vec<DeclaredKey> = Vec::new();
        let mut i: usize = 0;
        assert(self.locks() =~= seized(m, keys@.take(0)));
        while i < keys.len()
            invariant
                i <= keys.len(),
                self.locks() == seized(m, keys@.take(i as int)),
                self.shares() == old(self).shares(),
                self.flying() == old(self).flying(),
                open == (|k: DeclaredKey| !m.dom().contains(k)),
                newly@ == first_where(keys@.take(i as int), open),
            decreases keys.len() - i,
        {
            let key = keys[i];
            proof {
                lemma_taken(keys@, i as int);
            }
            if !self.locked.contains_key(&key) {
                self.locked.insert(key, LockCounts { reads: 0, writes: 0 });
                newly.push(key);
            }
            assert(self.locks() =~= seized(m, keys@.take(i + 1)));
            i = i + 1;
        }
        assert(keys@.take(i as int) =~= keys@);
        proof {
            lemma_first_where(keys@, open);
        }
        newly
    }

    /// Marks each key as unlocked. Returns those that were locked.
    pub fn unlock_keys(&mut self, keys: &[DeclaredKey]) -> (gone: Vec<DeclaredKey>)
        ensures
            final(self).locks() == freed(old(self).locks(), keys@),
            final(self).shares() == old(self).shares(),
            final(self).flying() == old(self).flying(),
            gone@ == first_where(keys@, |k: DeclaredKey| old(self).locks().dom().contains(k)),
            gone@.no_duplicates(),
            forall|k: DeclaredKey| #[trigger]
                gone@.contains(k) <==> old(self).locks().contains_key(k) && !final(self).locks().contains_key(k),
    {
        let ghost m = self.locks();
        let ghost open = |k: DeclaredKey| m.dom().contains(k);
        let mut gone: Vec<DeclaredKey> = Vec::new();
        let mut i: usize = 0;
        assert(self.locks() =~= freed(m, keys@.take(0)));
        while i < keys.len()
            invariant
                i <= keys.len(),
                self.locks() == freed(m, keys@.take(i as int)),
                self.shares() == old(self).shares(),
                self.flying() == old(self).flying(),
                open == (|k: DeclaredKey| m.dom().contains(k)),
                gone@ == first_where(keys@.take(i as int), open),
            decreases keys.len() - i,
        {
            let key = keys[i];
            proof {
                lemma_taken(keys@, i as int);
            }
            match self.locked.remove(&key) {
                Some(_) => {
                    gone.push(key);
                },
                None => {},
            }
            assert(self.locks() =~= freed(m, keys@.take(i + 1)));
            i = i + 1;
        }
        assert(keys@.take(i as int) =~= keys@);
        proof {
            lemma_first_where(keys@, open);
        }
        gone
    }

    /// Records that the holder of each locked key declared it as a write.
    pub fn mark_write_locked(&mut self, keys: &[DeclaredKey])
        ensures
            final(self).locks() == write_marked(old(self).locks(), keys@),
            final(self).shares() == old(self).shares(),
            final(self).flying() == old(self).flying(),
    {
        let ghost m = self.locks();
        let mut i: usize = 0;
        assert(self.locks() =~= write_marked(m, keys@.take(0)));
        while i < keys.len()
            invariant
                i <= keys.len(),
                self.locks() == write_marked(m, keys@.take(i as int)),
                self.shares() == old(self).shares(),
                self.flying() == old(self).flying(),
            decreases keys.len() - i,
        {
            let key = keys[i];
            proof {
                lemma_taken(keys@, i as int);
            }
            let held = match self.locked.get(&key) {
                Some(c) => Some(*c),
                None => None,
            };
            if let Some(counts) = held {
                if counts.writes == 0 {
                    self.locked.insert(key, LockCounts { reads: counts.reads, writes: 1 });
                }
            }
            assert(self.locks() =~= write_marked(m, keys@.take(i + 1)));
            i = i + 1;
        }
        assert(keys@.take(i as int) =~= keys@);
    }

    /// Whether some holder of `key` declared it as a write.
    pub fn is_write_locked(&self, key: &DeclaredKey) -> (r: bool)
        ensures
            r == (writes_of(self.locks(), *key) > 0),
    {
        match self.locked.get(key) {
            Some(counts) => counts.writes > 0,
            None => false,
        }
    }

    /// Whether `key` is locked.
    pub fn is_locked(&self, key: &DeclaredKey) -> (r: bool)
        ensures
            r == self.locks().dom().contains(*key),
    {
        self.locked.contains_key(key)
    }

    /// The number of locked keys.
    pub fn locked_count(&self) -> (n: usize)
        ensures
            n == self.locks().dom().len(),
            self.locks().dom().finite(),
    {
        self.locked.len()
    }

    /// Counts one more transaction in flight.
    pub fn inc_in_flight(&mut self)
        requires
            old(self).flying() < usize::MAX,
        ensures
            final(self).flying() == old(self).flying() + 1,
            final(self).locks() == old(self).locks(),
            final(self).shares() == old(self).shares(),
    {
        self.in_flight_count = self.in_flight_count + 1;
    }

    /// Counts one transaction less in flight, not below none.
    pub fn dec_in_flight(&mut self)
        ensures
            final(self).flying() == less(old(self).flying() as int, 1),
            final(self).locks() == old(self).locks(),
            final(self).shares() == old(self).shares(),
    {
        self.in_flight_count = self.in_flight_count.saturating_sub(1);
    }

    /// The number of transactions holding locks.
    pub fn in_flight(&self) -> (n: usize)
        ensures
            n == self.flying(),
    {
        self.in_flight_count
    }
}

fn push_scoped(blocking: &mut Vec<(DeclaredKey, BlockScope)>, keys: &Vec<DeclaredKey>)
    ensures
        final(blocking)@ == old(blocking)@ + scoped(keys@, BlockScope::All),
{
    let ghost b0 = blocking@;
    let mut i: usize = 0;
    assert(blocking@ =~= b0 + scoped(keys@.take(0), BlockScope::All));
    while i < keys.len()
        invariant
            i <= keys.len(),
            blocking@ == b0 + scoped(keys@.take(i as int), BlockScope::All),
        decreases keys.len() - i,
    {
        blocking.push((keys[i], BlockScope::All));
        assert(keys@.take(i + 1) =~= keys@.take(i as int).push(keys@[i as int]));
        assert(blocking@ =~= b0 + scoped(keys@.take(i + 1), BlockScope::All));
        i = i + 1;
    }
    assert(keys@.take(i as int) =~= keys@);
}

/// Locking two lists in turn locks their concatenation, and what each newly
/// locks follows one after the other.
proof fn lemma_seized_twice(m: Locks, a: Seq<DeclaredKey>, b: Seq<DeclaredKey>)
    ensures
        seized(seized(m, a), b) == seized(m, a + b),
        first_where(a, |k: DeclaredKey| !m.dom().contains(k)) + first_where(
            b,
            |k: DeclaredKey| !seized(m, a).dom().contains(k),
        ) == first_where(a + b, |k: DeclaredKey| !m.dom().contains(k)),
    decreases b.len(),
{
    let open = |k: DeclaredKey| !m.dom().contains(k);
    let open_after = |k: DeclaredKey| !seized(m, a).dom().contains(k);
    assert forall|k: DeclaredKey| #[trigger] (a + b).contains(k) == (a.contains(k) || b.contains(k)) by {
        lemma_contains_concat(a, b, k);
    }
    assert(seized(seized(m, a), b) =~= seized(m, a + b));
    if b.len() == 0 {
        assert(a + b =~= a);
        assert(first_where(b, open_after) =~= Seq::<DeclaredKey>::empty());
        assert(first_where(a, open) + first_where(b, open_after) =~= first_where(a, open));
    } else {
        let b1 = b.drop_last();
        lemma_seized_twice(m, a, b1);
        assert((a + b).drop_last() =~= a + b1);
        assert((a + b).last() == b.last());
        lemma_contains_concat(a, b1, b.last());
        assert(first_where(a, open) + first_where(b, open_after) =~= first_where(a + b, open));
    }
}

proof fn lemma_contains_concat(a: Seq<DeclaredKey>, b: Seq<DeclaredKey>, k: DeclaredKey)
    ensures
        (a + b).contains(k) == (a.contains(k) || b.contains(k)),
{
    if a.contains(k) {
        let i = choose|i: int| 0 <= i < a.len() && a[i] == k;
        assert((a + b)[i] == k);
    }
    if b.contains(k) {
        let i = choose|i: int| 0 <= i < b.len() && b[i] == k;
        assert((a + b)[a.len() + i] == k);
    }
    if (a + b).contains(k) {
        let i = choose|i: int| 0 <= i < (a + b).len() && (a + b)[i] == k;
        if i < a.len() {
            assert(a[i] == k);
        } else {
            assert(b[i - a.len()] == k);
        }
    }
}

/// Every locked key has a holder.
pub open spec fn all_held(m: Locks) -> bool {
    forall|k: DeclaredKey| #[trigger] m.dom().contains(k) ==> m[k].reads > 0 || m[k].writes > 0
}

/// Under read-share, releasing what one acquisition declared restores the
/// lock state it found.
pub proof fn law_release_undoes_shared_acquire(
    m: Locks,
    reads: Seq<DeclaredKey>,
    writes: Seq<DeclaredKey>,
)
    requires
        all_held(m),
        forall|k: DeclaredKey| #[trigger] reads_of(m, k) + reads.len() <= usize::MAX,
        forall|k: DeclaredKey| #[trigger] writes_of(m, k) + writes.len() <= usize::MAX,
    ensures
        writes_lowered(reads_lowered(raised(m, reads, writes), reads), writes) == m,
        all_held(raised(m, reads, writes)),
{
    let up = raised(m, reads, writes);
    let mid = reads_lowered(up, reads);
    let down = writes_lowered(mid, writes);
    assert forall|k: DeclaredKey|
        #![trigger down.dom().contains(k)]
        #![trigger m.dom().contains(k)]
        #![trigger up.dom().contains(k)]
        #![trigger down[k]]
        down.dom().contains(k) == m.dom().contains(k) && (m.dom().contains(k) ==> down[k] == m[k])
            && (up.dom().contains(k) ==> up[k].reads > 0 || up[k].writes > 0) by {
        lemma_occurrences(reads, k);
        lemma_occurrences(writes, k);
        assert(reads_of(m, k) + reads.len() <= usize::MAX);
        assert(writes_of(m, k) + writes.len() <= usize::MAX);
    }
    assert(down =~= m);
}

/// Under the exclusive discipline, releasing freshly acquired keys restores
/// the lock state.
pub proof fn law_release_undoes_exclusive_acquire(
    m: Locks,
    reads: Seq<DeclaredKey>,
    writes: Seq<DeclaredKey>,
)
    requires
        forall|k: DeclaredKey| #[trigger] (reads + writes).contains(k) ==> !m.dom().contains(k),
    ensures
        freed(write_marked(seized(m, reads + writes), writes), reads + writes) == m,
{
    let keys = reads + writes;
    let up = write_marked(seized(m, keys), writes);
    assert forall|k: DeclaredKey| writes.contains(k) implies keys.contains(k) by {
        lemma_contains_concat(reads, writes, k);
    }
    assert(freed(up, keys) =~= m);
}

/// Nothing that satisfies the condition occurs, so nothing is selected.
proof fn lemma_first_where_none(s: Seq<DeclaredKey>, open: spec_fn(DeclaredKey) -> bool)
    requires
        forall|k: DeclaredKey| #[trigger] s.contains(k) ==> !open(k),
    ensures
        first_where(s, open) == Seq::<DeclaredKey>::empty(),
    decreases s.len(),
{
    if s.len() > 0 {
        assert forall|k: DeclaredKey| #[trigger] s.drop_last().contains(k) implies !open(k) by {
            lemma_occurrences(s, k);
            lemma_occurrences(s.drop_last(), k);
            assert(s.contains(k));
        }
        lemma_first_where_none(s.drop_last(), open);
        assert(s.contains(s[s.len() - 1]));
    }
}

/// Readers stack: a read of keys that all have holders blocks nothing new and
/// leaves every write count alone.
pub proof fn law_readers_stack(m: Locks, reads: Seq<DeclaredKey>)
    requires
        forall|k: DeclaredKey| #[trigger]
            reads.contains(k) ==> reads_of(m, k) > 0 || writes_of(m, k) > 0,
    ensures
        raised_blocks(m, reads, Seq::empty()) == Seq::<(DeclaredKey, BlockScope)>::empty(),
        forall|k: DeclaredKey|
            writes_of(raised(m, reads, Seq::empty()), k) == writes_of(m, k),
{
    let open = |k: DeclaredKey| reads_of(m, k) == 0 && writes_of(m, k) == 0;
    lemma_first_where_none(reads, open);
    assert(first_where(reads, open) == Seq::<DeclaredKey>::empty());
    assert(raised_blocks(m, reads, Seq::empty()) =~= Seq::empty());
}

/// A declared write leaves its key write-locked, under either discipline.
pub proof fn law_write_holds(
    m: Locks,
    reads: Seq<DeclaredKey>,
    writes: Seq<DeclaredKey>,
    k: DeclaredKey,
)
    requires
        writes.contains(k),
        writes_of(m, k) + writes.len() <= usize::MAX,
    ensures
        writes_of(raised(m, reads, writes), k) > 0,
        writes_of(write_marked(seized(m, reads + writes), writes), k) > 0,
{
    lemma_occurrences(writes, k);
    lemma_contains_concat(reads, writes, k);
}

/// The count is the list's own.
proof fn lemma_occurrences_count(s: Seq<DeclaredKey>, k: DeclaredKey)
    ensures
        occurrences(s, k) == s.to_multiset().count(k),
    decreases s.len(),
{
    broadcast use vstd::seq_lib::group_to_multiset_ensures;

    if s.len() > 0 {
        lemma_occurrences_count(s.drop_last(), k);
        assert(s =~= s.drop_last().push(s.last()));
    }
}

/// The keys that are picked are those of the list that satisfy the condition,
/// each once, in the order in which they first occur.
proof fn lemma_first_where(s: Seq<DeclaredKey>, open: spec_fn(DeclaredKey) -> bool)
    ensures
        forall|k: DeclaredKey| #[trigger]
            first_where(s, open).contains(k) == (s.contains(k) && open(k)),
        first_where(s, open).no_duplicates(),
        forall|i: int, j: int, q: int|
            #![trigger first_where(s, open)[i], first_where(s, open)[j], s[q]]
            0 <= i < j < first_where(s, open).len() && 0 <= q < s.len() && s[q] == first_where(
                s,
                open,
            )[j] ==> s.take(q).contains(first_where(s, open)[i]),
    decreases s.len(),
{
    let all = first_where(s, open);
    if s.len() > 0 {
        let t = s.drop_last();
        let x = s.last();
        let before = first_where(t, open);
        lemma_first_where(t, open);
        assert forall|k: DeclaredKey| s.contains(k) == (t.contains(k) || k == x) by {
            lemma_occurrences(s, k);
            lemma_occurrences(t, k);
        }
        assert forall|k: DeclaredKey| #[trigger] all.contains(k) == (s.contains(k) && open(k)) by {
            if before.contains(k) {
                let i = choose|i: int| 0 <= i < before.len() && before[i] == k;
                assert(all[i] == k);
            }
            if all.contains(k) {
                let i = choose|i: int| 0 <= i < all.len() && all[i] == k;
                if i < before.len() {
                    assert(before[i] == k);
                    assert(before.contains(k));
                }
            }
            if k == x && open(x) && !t.contains(x) {
                assert(all[all.len() - 1] == x);
            }
        }
        assert(all.no_duplicates()) by {
            assert forall|i: int, j: int| 0 <= i < j < all.len() implies all[i] != all[j] by {
                assert(before.contains(before[i]));
            }
        }
        assert forall|i: int, j: int, q: int|
            #![trigger all[i], all[j], s[q]]
            0 <= i < j < all.len() && 0 <= q < s.len() && s[q] == all[j] implies s.take(
            q,
        ).contains(all[i]) by {
            assert(before.contains(before[i]));
            assert(all[i] == before[i]);
            if j < before.len() {
                assert(before.contains(before[j]));
                if q < t.len() {
                    assert(t[q] == before[j]);
                    assert(t.take(q).contains(before[i]));
                    assert(t.take(q) =~= s.take(q));
                } else {
                    assert(t.contains(before[i]));
                    assert(s.take(q) =~= t);
                }
            } else {
                if q < t.len() {
                    assert(t.contains(t[q]));
                }
                assert(t.contains(before[i]));
                assert(s.take(q) =~= t);
            }
        }
    }
}

/// A shared acquisition adds a holder to each declared key for each time that it
/// is declared, in the declared mode, and touches no other key.
pub proof fn law_a_shared_lock_counts_its_declarations(
    m: Locks,
    reads: Seq<DeclaredKey>,
    writes: Seq<DeclaredKey>,
    k: DeclaredKey,
)
    requires
        m.contains_key(k) ==> m[k].reads + reads.len() <= usize::MAX && m[k].writes + writes.len()
            <= usize::MAX,
        reads.len() <= usize::MAX,
        writes.len() <= usize::MAX,
    ensures
        ({
            let after = raised(m, reads, writes);
            &&& after.contains_key(k) == (m.contains_key(k) || reads.contains(k) || writes.contains(k))
            &&& after.contains_key(k) ==> after[k].reads == reads.to_multiset().count(k) + (
            if m.contains_key(k) {
                m[k].reads as int
            } else {
                0
            }) && after[k].writes == writes.to_multiset().count(k) + (if m.contains_key(k) {
                m[k].writes as int
            } else {
                0
            })
        }),
{
    lemma_occurrences(reads, k);
    lemma_occurrences(writes, k);
    lemma_occurrences_count(reads, k);
    lemma_occurrences_count(writes, k);
}

/// A shared acquisition reports what newly blocks, by the locks before and after
/// it: everyone on a key that had no write holder and has one now, and writers
/// on a key that nobody held and that is now read. Each is reported once, the
/// reads in the order that they are first declared, then the writes.
pub proof fn law_a_shared_lock_reports_what_newly_blocks(
    m: Locks,
    reads: Seq<DeclaredKey>,
    writes: Seq<DeclaredKey>,
    k: DeclaredKey,
)
    ensures
        raised_blocks(m, reads, writes).contains((k, BlockScope::All)) <==> writes.contains(k) && !(
        m.contains_key(k) && m[k].writes > 0),
        raised_blocks(m, reads, writes).contains((k, BlockScope::WritersOnly)) <==> reads.contains(
            k,
        ) && !(m.contains_key(k) && (m[k].reads > 0 || m[k].writes > 0)),
        raised_blocks(m, reads, writes).no_duplicates(),
        forall|i: int, j: int|
            0 <= i < j < raised_blocks(m, reads, writes).len() && #[trigger] raised_blocks(
                m,
                reads,
                writes,
            )[i].1 == BlockScope::All ==> #[trigger] raised_blocks(m, reads, writes)[j].1
                == BlockScope::All,
{
    let quiet = |k: DeclaredKey| reads_of(m, k) == 0 && writes_of(m, k) == 0;
    let unwritten = |k: DeclaredKey| writes_of(m, k) == 0;
    let a = first_where(reads, quiet);
    let b = first_where(writes, unwritten);
    lemma_first_where(reads, quiet);
    lemma_first_where(writes, unwritten);
    let all = raised_blocks(m, reads, writes);
    assert(all.len() == a.len() + b.len());
    assert forall|i: int| 0 <= i < all.len() implies #[trigger] all[i] == if i < a.len() {
        (a[i], BlockScope::WritersOnly)
    } else {
        (b[i - a.len()], BlockScope::All)
    } by {}
    if all.contains((k, BlockScope::All)) {
        let i = choose|i: int| 0 <= i < all.len() && all[i] == (k, BlockScope::All);
        assert(b[i - a.len()] == k);
        assert(b.contains(k));
    }
    if b.contains(k) {
        let i = choose|i: int| 0 <= i < b.len() && b[i] == k;
        assert(all[a.len() + i] == (k, BlockScope::All));
    }
    if all.contains((k, BlockScope::WritersOnly)) {
        let i = choose|i: int| 0 <= i < all.len() && all[i] == (k, BlockScope::WritersOnly);
        assert(a[i] == k);
        assert(a.contains(k));
    }
    if a.contains(k) {
        let i = choose|i: int| 0 <= i < a.len() && a[i] == k;
        assert(all[i] == (k, BlockScope::WritersOnly));
    }
    assert(quiet(k) == !(m.contains_key(k) && (m[k].reads > 0 || m[k].writes > 0)));
    assert(unwritten(k) == !(m.contains_key(k) && m[k].writes > 0));
}

/// A shared release takes a holder off each declared key for each time that it
/// is declared, in the declared mode and not below none. A key stays locked
/// while it has a holder, or is not declared.
pub proof fn law_a_shared_release_counts_its_declarations(
    m: Locks,
    reads: Seq<DeclaredKey>,
    writes: Seq<DeclaredKey>,
    k: DeclaredKey,
)
    ensures
        ({
            let after = writes_lowered(reads_lowered(m, reads), writes);
            let r = m[k].reads - reads.to_multiset().count(k);
            let w = m[k].writes - writes.to_multiset().count(k);
            &&& after.contains_key(k) <==> m.contains_key(k) && (r > 0 || w > 0 || !(reads.contains(k)
                || writes.contains(k)))
            &&& after.contains_key(k) ==> after[k].reads == (if r > 0 {
                r
            } else {
                0
            }) && after[k].writes == (if w > 0 {
                w
            } else {
                0
            })
        }),
{
    lemma_occurrences(reads, k);
    lemma_occurrences(writes, k);
    lemma_occurrences_count(reads, k);
    lemma_occurrences_count(writes, k);
}

/// The keys of a release of reads are those that it unlocks, each once, among
/// the released ones.
proof fn lemma_reads_drained(m: Locks, reads: Seq<DeclaredKey>)
    ensures
        forall|k: DeclaredKey| #[trigger]
            reads_drained(m, reads).contains(k) == (m.dom().contains(k) && !reads_lowered(
                m,
                reads,
            ).dom().contains(k)),
        reads_drained(m, reads).no_duplicates(),
        thins(reads_drained(m, reads), reads),
    decreases reads.len(),
{
    let all = reads_drained(m, reads);
    if reads.len() == 0 {
        lemma_thins_none(reads);
        assert forall|k: DeclaredKey| !all.contains(k) && !(m.dom().contains(k) && !reads_lowered(
            m,
            reads,
        ).dom().contains(k)) by {}
    } else {
        let t = reads.drop_last();
        let x = reads.last();
        let before = reads_drained(m, t);
        lemma_reads_drained(m, t);
        lemma_thins_next(before, t, x);
        assert(t.push(x) =~= reads);
        assert forall|k: DeclaredKey| #[trigger] all.contains(k) == (m.dom().contains(k)
            && !reads_lowered(m, reads).dom().contains(k)) by {
            lemma_occurrences(reads, k);
            lemma_occurrences(t, k);
            if before.contains(k) {
                let i = choose|i: int| 0 <= i < before.len() && before[i] == k;
                assert(all[i] == k);
            }
            if all.contains(k) {
                let i = choose|i: int| 0 <= i < all.len() && all[i] == k;
                if i < before.len() {
                    assert(before[i] == k);
                    assert(before.contains(k));
                }
            }
            if all.len() > before.len() {
                assert(all[all.len() - 1] == x);
                assert(all.contains(x));
            }
        }
        lemma_occurrences(reads, x);
        lemma_occurrences(t, x);
        assert(all.no_duplicates()) by {
            assert forall|i: int, j: int| 0 <= i < j < all.len() implies all[i] != all[j] by {
                assert(before.contains(before[i]));
            }
        }
    }
}

/// The keys of a release of writes are those that it unlocks or whose write lock
/// it clears, each once, among the released ones.
proof fn lemma_writes_drained(m: Locks, writes: Seq<DeclaredKey>)
    ensures
        forall|k: DeclaredKey| #[trigger]
            writes_drained(m, writes).contains(k) == (m.dom().contains(k) && (!writes_lowered(
                m,
                writes,
            ).dom().contains(k) || (m[k].writes > 0 && writes_lowered(m, writes)[k].writes == 0))),
        writes_drained(m, writes).no_duplicates(),
        thins(writes_drained(m, writes), writes),
    decreases writes.len(),
{
    let all = writes_drained(m, writes);
    if writes.len() == 0 {
        lemma_thins_none(writes);
        assert forall|k: DeclaredKey| !all.contains(k) && !(m.dom().contains(k) && (!writes_lowered(
            m,
            writes,
        ).dom().contains(k) || (m[k].writes > 0 && writes_lowered(m, writes)[k].writes == 0))) by {}
    } else {
        let t = writes.drop_last();
        let x = writes.last();
        let before = writes_drained(m, t);
        lemma_writes_drained(m, t);
        lemma_thins_next(before, t, x);
        assert(t.push(x) =~= writes);
        assert forall|k: DeclaredKey| #[trigger] all.contains(k) == (m.dom().contains(k) && (
        !writes_lowered(m, writes).dom().contains(k) || (m[k].writes > 0 && writes_lowered(
            m,
            writes,
        )[k].writes == 0))) by {
            lemma_occurrences(writes, k);
            lemma_occurrences(t, k);
            if before.contains(k) {
                let i = choose|i: int| 0 <= i < before.len() && before[i] == k;
                assert(all[i] == k);
            }
            if all.contains(k) {
                let i = choose|i: int| 0 <= i < all.len() && all[i] == k;
                if i < before.len() {
                    assert(before[i] == k);
                    assert(before.contains(k));
                }
            }
            if all.len() > before.len() {
                assert(all[all.len() - 1] == x);
                assert(all.contains(x));
            }
        }
        lemma_occurrences(writes, x);
        lemma_occurrences(t, x);
        assert(all.no_duplicates()) by {
            assert forall|i: int, j: int| 0 <= i < j < all.len() implies all[i] != all[j] by {
                assert(before.contains(before[i]));
            }
        }
    }
}

/// A shared release reports exactly the keys that it unlocked, and those whose
/// write lock it cleared, by the locks before and after it: each once, and in an
/// order in which they were released.
pub proof fn law_a_shared_release_reports_what_cleared(
    before: Locks,
    after: Locks,
    reads: Seq<DeclaredKey>,
    writes: Seq<DeclaredKey>,
    promotable: Seq<DeclaredKey>,
)
    requires
        after == writes_lowered(reads_lowered(before, reads), writes),
        promotable == reads_drained(before, reads) + writes_drained(
            reads_lowered(before, reads),
            writes,
        ),
    ensures
        forall|k: DeclaredKey| #[trigger]
            promotable.contains(k) <==> before.contains_key(k) && (!after.contains_key(k) || (
            before[k].writes > 0 && after[k].writes == 0)),
        promotable.no_duplicates(),
        thins(promotable, reads + writes),
{
    let mid = reads_lowered(before, reads);
    let a = reads_drained(before, reads);
    let b = writes_drained(mid, writes);
    lemma_reads_drained(before, reads);
    lemma_writes_drained(mid, writes);
    lemma_thins_concat(a, reads, b, writes);
    assert forall|k: DeclaredKey| #[trigger] promotable.contains(k) <==> before.contains_key(k) && (
    !after.contains_key(k) || (before[k].writes > 0 && after[k].writes == 0)) by {
        lemma_contains_concat(a, b, k);
        lemma_occurrences(reads, k);
        lemma_occurrences(writes, k);
    }
    assert(promotable.no_duplicates()) by {
        assert forall|i: int, j: int| 0 <= i < j < promotable.len() implies promotable[i]
            != promotable[j] by {
            if i < a.len() && j >= a.len() {
                assert(a.contains(a[i]));
                assert(b.contains(b[j - a.len()]));
            }
        }
    }
}

/// Under the exclusive discipline a key is locked or it is not: an acquisition
/// locks every declared key and reports those that were not, a release unlocks
/// every declared key and reports those that were, each once and in the order
/// they are first declared. A key that was held stays as it was, and the
/// declared writes are marked.
pub proof fn law_exclusive_locks_are_all_or_nothing(
    m: Locks,
    keys: Seq<DeclaredKey>,
    writes: Seq<DeclaredKey>,
    k: DeclaredKey,
)
    ensures
        seized(m, keys).contains_key(k) <==> m.contains_key(k) || keys.contains(k),
        m.contains_key(k) ==> seized(m, keys)[k] == m[k],
        freed(m, keys).contains_key(k) <==> m.contains_key(k) && !keys.contains(k),
        freed(m, keys).contains_key(k) ==> freed(m, keys)[k] == m[k],
        write_marked(m, writes).contains_key(k) <==> m.contains_key(k),
        m.contains_key(k) ==> write_marked(m, writes)[k].reads == m[k].reads,
        m.contains_key(k) ==> (write_marked(m, writes)[k].writes > 0 <==> m[k].writes > 0
            || writes.contains(k)),
        m.contains_key(k) && m[k].writes > 0 ==> write_marked(m, writes)[k] == m[k],
        first_where(keys, |x: DeclaredKey| !m.dom().contains(x)).contains(k) <==> keys.contains(k)
            && !m.contains_key(k),
        first_where(keys, |x: DeclaredKey| m.dom().contains(x)).contains(k) <==> keys.contains(k)
            && m.contains_key(k),
        first_where(keys, |x: DeclaredKey| !m.dom().contains(x)).no_duplicates(),
        first_where(keys, |x: DeclaredKey| m.dom().contains(x)).no_duplicates(),
{
    lemma_first_where(keys, |x: DeclaredKey| !m.dom().contains(x));
    lemma_first_where(keys, |x: DeclaredKey| m.dom().contains(x));
}

/// What a shared acquisition newly blocks, by the locks before and after it.
proof fn lemma_blocks_by_locks(m: Locks, reads: Seq<DeclaredKey>, writes: Seq<DeclaredKey>)
    requires
        forall|k: DeclaredKey|
            #![trigger reads_of(m, k)]
            #![trigger writes_of(m, k)]
            reads_of(m, k) + reads.len() <= usize::MAX && writes_of(m, k) + writes.len()
                <= usize::MAX,
    ensures
        ({
            let blocks = raised_blocks(m, reads, writes);
            let after = raised(m, reads, writes);
            &&& blocks.no_duplicates()
            &&& forall|k: DeclaredKey|
                #![trigger blocks.contains((k, BlockScope::All))]
                blocks.contains((k, BlockScope::All)) <==> !written(m, k) && written(after, k)
            &&& forall|k: DeclaredKey|
                #![trigger blocks.contains((k, BlockScope::WritersOnly))]
                blocks.contains((k, BlockScope::WritersOnly)) <==> !written(m, k) && !read_held(
                    m,
                    k,
                ) && read_held(after, k)
        }),
{
    let blocks = raised_blocks(m, reads, writes);
    let after = raised(m, reads, writes);
    assert forall|k: DeclaredKey|
        #![trigger blocks.contains((k, BlockScope::All))]
        #![trigger blocks.contains((k, BlockScope::WritersOnly))]
        (blocks.contains((k, BlockScope::All)) <==> !written(m, k) && written(after, k)) && (
        blocks.contains((k, BlockScope::WritersOnly)) <==> !written(m, k) && !read_held(m, k)
            && read_held(after, k)) && blocks.no_duplicates() by {
        assert(reads_of(m, k) + reads.len() <= usize::MAX);
        law_a_shared_lock_reports_what_newly_blocks(m, reads, writes, k);
        lemma_occurrences(reads, k);
        lemma_occurrences(writes, k);
    }
    law_a_shared_lock_reports_what_newly_blocks(m, reads, writes, arbitrary());
}

/// Pairing keys with one scope keeps which keys there are, and each once.
proof fn lemma_scoped(s: Seq<DeclaredKey>, scope: BlockScope)
    requires
        s.no_duplicates(),
    ensures
        scoped(s, scope).no_duplicates(),
        forall|k: DeclaredKey|
            #![trigger scoped(s, scope).contains((k, scope))]
            scoped(s, scope).contains((k, scope)) <==> s.contains(k),
{
    let all = scoped(s, scope);
    assert forall|k: DeclaredKey|
        #![trigger all.contains((k, scope))]
        all.contains((k, scope)) <==> s.contains(k) by {
        if s.contains(k) {
            let i = choose|i: int| 0 <= i < s.len() && s[i] == k;
            assert(all[i] == (k, scope));
        }
        if all.contains((k, scope)) {
            let i = choose|i: int| 0 <= i < all.len() && all[i] == (k, scope);
            assert(s[i] == k);
        }
    }
}

} // verus!
