//! Historical reads over a state history.
use vstd::prelude::*;

use crate::order::{same_key, OrdKey, Rank};
use crate::sorted::{strictly_sorted, SortedMap};
use crate::storage::canonical::copy_bytes;
use crate::storage::writes::{copy_option, left};
use crate::types::SubstateKey;

verus! {

/// A cell and the version that wrote it.
#[derive(Clone, Copy, Debug, PartialEq, Eq)]
pub struct HistoryKey {
    /// The cell.
    pub key: SubstateKey,
    /// The version.
    pub version: u64,
}

impl OrdKey for HistoryKey {
    open spec fn before(self, other: Self) -> bool {
        self.key.before(other.key) || (self.key == other.key && self.version < other.version)
    }

    proof fn law_irreflexive(a: Self) {
        SubstateKey::law_irreflexive(a.key);
    }

    proof fn law_transitive(a: Self, b: Self, c: Self) {
        if a.key.before(b.key) && b.key.before(c.key) {
            SubstateKey::law_transitive(a.key, b.key, c.key);
        }
    }

    proof fn law_total(a: Self, b: Self) {
        SubstateKey::law_total(a.key, b.key);
    }

    fn rank(&self, other: &Self) -> (r: Rank) {
        match self.key.rank(&other.key) {
            Rank::Before => Rank::Before,
            Rank::After => Rank::After,
            Rank::Same => {
                if self.version < other.version {
                    Rank::Before
                } else if self.version == other.version {
                    Rank::Same
                } else {
                    Rank::After
                }
            },
        }
    }
}

/// The first write of a cell after a version.
pub open spec fn next_write(
    history: Map<HistoryKey, Option<Vec<u8>>>,
    key: SubstateKey,
    version: u64,
    at: u64,
) -> bool {
    &&& version < at
    &&& history.contains_key(HistoryKey { key, version: at })
    &&& forall|v: u64|
        version < v && #[trigger] history.contains_key(HistoryKey { key, version: v }) ==> at <= v
}

/// The value of a cell at a version: what the first later write found there,
/// or the current value where none came later.
pub open spec fn value_at(
    current: Map<SubstateKey, Vec<u8>>,
    history: Map<HistoryKey, Option<Vec<u8>>>,
    key: SubstateKey,
    version: u64,
    current_version: u64,
) -> Option<Seq<u8>> {
    if version < current_version && exists|at: u64| next_write(history, key, version, at) {
        let at = choose|at: u64| next_write(history, key, version, at);
        left(history[HistoryKey { key, version: at }])
    } else if current.contains_key(key) {
        Some(current[key]@)
    } else {
        None
    }
}

/// The value of `key` at `version`. The history holds, for each write, what
/// stood there before it.
pub fn value_at_version(
    current_state: &SortedMap<SubstateKey, Vec<u8>>,
    state_history: &SortedMap<HistoryKey, Option<Vec<u8>>>,
    key: SubstateKey,
    version: u64,
    current_version: u64,
) -> (r: Option<Vec<u8>>)
    ensures
        left(r) == value_at(current_state@, state_history@, key, version, current_version),
{
    if version < current_version {
        let count: usize = state_history.len();
        let mut i: usize = 0;
        while i < count
            invariant
                i <= count,
                version < current_version,
                count == state_history.order().len(),
                state_history@.dom() == state_history.order().to_set(),
                strictly_sorted(state_history.order()),
                forall|j: int|
                    0 <= j < i ==> !((#[trigger] state_history.order()[j]).key == key
                        && state_history.order()[j].version > version),
            decreases count - i,
        {
            let at = state_history.key_at(i);
            if at.version > version && same_key(&at.key, &key) {
                let prior = copy_option(state_history.value_at(i));
                proof {
                    let h = state_history@;
                    let o = state_history.order();
                    assert(next_write(h, key, version, at.version)) by {
                        assert forall|v: u64|
                            version < v && #[trigger] h.contains_key(
                                HistoryKey { key, version: v },
                            ) implies at.version <= v by {
                            let hk = HistoryKey { key, version: v };
                            assert(o.to_set().contains(hk));
                            let j = o.index_of(hk);
                            assert(o[j] == hk);
                            assert(j >= i);
                            if j > i {
                                assert(o[i as int].before(o[j]));
                                SubstateKey::law_irreflexive(key);
                            }
                        }
                    }
                    let w = choose|w: u64| next_write(h, key, version, w);
                    assert(next_write(h, key, version, w));
                    assert(w == at.version);
                }
                return prior;
            }
            i = i + 1;
        }
        proof {
            let h = state_history@;
            let o = state_history.order();
            assert forall|at: u64| !next_write(h, key, version, at) by {
                if next_write(h, key, version, at) {
                    let hk = HistoryKey { key, version: at };
                    assert(o.to_set().contains(hk));
                    let j = o.index_of(hk);
                    assert(o[j] == hk);
                }
            }
        }
    }
    match current_state.get(&key) {
        Some(v) => Some(copy_bytes(v)),
        None => None,
    }
}

/// A point-in-time view of a store.
pub struct SimSnapshot {
    /// The current values.
    pub current_state: SortedMap<SubstateKey, Vec<u8>>,
    /// What each write found.
    pub state_history: SortedMap<HistoryKey, Option<Vec<u8>>>,
    /// The version read at.
    pub version: u64,
    /// The version of the current values.
    pub current_version: u64,
}

/// A write that records what it found leaves every earlier version readable:
/// after it, the cell reads at the version just before it as it stood then.
pub proof fn law_recorded_write_keeps_history(
    current: Map<SubstateKey, Vec<u8>>,
    history: Map<HistoryKey, Option<Vec<u8>>>,
    key: SubstateKey,
    version: u64,
    new_value: Vec<u8>,
    prior: Option<Vec<u8>>,
)
    requires
        version < u64::MAX,
        left(prior) == value_at(current, history, key, version, version),
        forall|v: u64| version < v ==> !#[trigger] history.contains_key(HistoryKey { key, version: v }),
    ensures
        value_at(
            current.insert(key, new_value),
            history.insert(HistoryKey { key, version: (version + 1) as u64 }, prior),
            key,
            version,
            (version + 1) as u64,
        ) == value_at(current, history, key, version, version),
{
    let at = (version + 1) as u64;
    let after = history.insert(HistoryKey { key, version: at }, prior);
    assert(next_write(after, key, version, at));
    let w = choose|w: u64| next_write(after, key, version, w);
    assert(next_write(after, key, version, w));
    assert(w == at);
}

/// The leaf keys that storage keys are; nothing, where one is not 32 bytes
/// long.
pub fn leaf_keys(storage_keys: &[Vec<u8>]) -> (r: Option<Vec<[u8; 32]>>)
    ensures
        match r {
            Some(keys) => keys@.len() == storage_keys@.len() && forall|i: int|
                0 <= i < keys@.len() ==> (#[trigger] keys@[i])@ == storage_keys@[i]@,
            None => exists|i: int|
                0 <= i < storage_keys@.len() && (#[trigger] storage_keys@[i])@.len() != 32,
        },
{
    let mut keys: Vec<[u8; 32]> = Vec::new();
    let mut i: usize = 0;
    while i < storage_keys.len()
        invariant
            i <= storage_keys@.len(),
            keys@.len() == i,
            forall|j: int| 0 <= j < i ==> (#[trigger] keys@[j])@ == storage_keys@[j]@,
        decreases storage_keys@.len() - i,
    {
        let source = &storage_keys[i];
        if source.len() != 32 {
            assert(storage_keys@[i as int]@.len() != 32);
            return None;
        }
        let mut key: [u8; 32] = [0; 32];
        let mut k: usize = 0;
        while k < 32
            invariant
                k <= 32,
                source@.len() == 32,
                forall|j: int| 0 <= j < k ==> key@[j] == source@[j],
            decreases 32 - k,
        {
            key[k] = source[k];
            k = k + 1;
        }
        assert(key@ =~= source@);
        keys.push(key);
        i = i + 1;
    }
    Some(keys)
}

/// A cell reads differently at two versions only where it was written between
/// them: just before a write it reads as what the write found, and from the last
/// write on as it reads now.
pub proof fn law_reads_change_only_at_writes(
    current: Map<SubstateKey, Vec<u8>>,
    history: Map<HistoryKey, Option<Vec<u8>>>,
    key: SubstateKey,
    v: u64,
    w: u64,
    current_version: u64,
)
    requires
        v <= w <= current_version,
        forall|x: u64|
            v < x <= w ==> !#[trigger] history.contains_key(HistoryKey { key, version: x }),
        forall|x: u64| #[trigger]
            history.contains_key(HistoryKey { key, version: x }) ==> x <= current_version,
    ensures
        value_at(current, history, key, v, current_version) == value_at(
            current,
            history,
            key,
            w,
            current_version,
        ),
        w < current_version && history.contains_key(HistoryKey { key, version: (w + 1) as u64 })
            ==> value_at(current, history, key, v, current_version) == left(
            history[HistoryKey { key, version: (w + 1) as u64 }],
        ),
        w == current_version ==> value_at(current, history, key, v, current_version) == (
        if current.contains_key(key) {
            Some(current[key]@)
        } else {
            None
        }),
{
    assert forall|at: u64| next_write(history, key, v, at) == #[trigger] next_write(
        history,
        key,
        w,
        at,
    ) by {
        if next_write(history, key, v, at) {
            if at <= w {
                assert(history.contains_key(HistoryKey { key, version: at }));
            }
        }
        if next_write(history, key, w, at) {
            assert forall|x: u64|
                v < x && #[trigger] history.contains_key(
                    HistoryKey { key, version: x },
                ) implies at <= x by {}
        }
    }
    assert forall|a: u64, b: u64| #[trigger]
        next_write(history, key, v, a) && #[trigger] next_write(history, key, v, b) implies a
        == b by {}
    if exists|at: u64| next_write(history, key, v, at) {
        let a = choose|at: u64| next_write(history, key, v, at);
        let b = choose|at: u64| next_write(history, key, w, at);
        assert(next_write(history, key, w, a));
        assert(next_write(history, key, v, b));
    } else {
        if exists|at: u64| next_write(history, key, w, at) {
            let b = choose|at: u64| next_write(history, key, w, at);
            assert(next_write(history, key, v, b));
        }
    }
    if w < current_version && history.contains_key(HistoryKey { key, version: (w + 1) as u64 }) {
        let next = (w + 1) as u64;
        assert(next_write(history, key, w, next));
        assert(next_write(history, key, v, next));
        let a = choose|at: u64| next_write(history, key, v, at);
        assert(a == next);
    }
}

} // verus!
