//! Database updates: their content, its canonical order and its root.
use vstd::prelude::*;

use crate::order::{lemma_lex_transitive, lex_lt, rank_bytes, Rank};

verus! {

/// A change to one substate.
#[derive(Debug, PartialEq, Eq)]
pub enum DatabaseUpdate {
    /// A new value.
    Put(Vec<u8>),
    /// No value any more.
    Delete,
}

/// A change to one partition.
#[derive(Debug, PartialEq, Eq)]
pub enum PartitionDatabaseUpdates {
    /// Selected substates change.
    Delta {
        /// The changes, by sort key.
        substate_updates: Vec<(Vec<u8>, DatabaseUpdate)>,
    },
    /// All substates are replaced.
    Reset {
        /// The new values, by sort key.
        new_substate_values: Vec<(Vec<u8>, Vec<u8>)>,
    },
}

/// The changes to one entity.
#[derive(Debug, PartialEq, Eq)]
pub struct NodeDatabaseUpdates {
    /// The changes, by partition.
    pub partition_updates: Vec<(u8, PartitionDatabaseUpdates)>,
}

/// Changes to a database, in the order they came about.
#[derive(Debug, PartialEq, Eq)]
pub struct DatabaseUpdates {
    /// The changes, by entity key.
    pub node_updates: Vec<(Vec<u8>, NodeDatabaseUpdates)>,
}

/// What a list of keyed entries holds, by key.
pub open spec fn table<K, V>(s: Seq<(K, V)>) -> Map<K, V> {
    Map::new(
        |k: K| exists|i: int| 0 <= i < s.len() && (#[trigger] s[i]).0 == k,
        |k: K| s[choose|i: int| 0 <= i < s.len() && (#[trigger] s[i]).0 == k].1,
    )
}

/// No key occurs twice.
pub open spec fn distinct<K, V>(s: Seq<(K, V)>) -> bool {
    forall|i: int, j: int|
        0 <= i < s.len() && 0 <= j < s.len() && i != j ==> (#[trigger] s[i]).0 != (#[trigger] s[j]).0
}

/// The entry at an index is what the table holds under its key.
pub proof fn lemma_table_at<K, V>(s: Seq<(K, V)>, i: int)
    requires
        distinct(s),
        0 <= i < s.len(),
    ensures
        table(s).contains_key(s[i].0),
        table(s)[s[i].0] == s[i].1,
{
    let k = s[i].0;
    let j = choose|j: int| 0 <= j < s.len() && (#[trigger] s[j]).0 == k;
    assert(s[i].0 == k);
    assert(s[j].0 == k);
}

/// Lists with the same entries hold the same.
pub proof fn lemma_table_same<K, V>(s: Seq<(K, V)>, t: Seq<(K, V)>)
    requires
        distinct(s),
        distinct(t),
        forall|i: int| 0 <= i < s.len() ==> t.contains(#[trigger] s[i]),
        forall|i: int| 0 <= i < t.len() ==> s.contains(#[trigger] t[i]),
    ensures
        table(s) == table(t),
{
    assert forall|k: K| table(s).contains_key(k) == table(t).contains_key(k) by {
        if table(s).contains_key(k) {
            let i = choose|i: int| 0 <= i < s.len() && (#[trigger] s[i]).0 == k;
            let j = t.index_of(s[i]);
            assert(t[j].0 == k);
        }
        if table(t).contains_key(k) {
            let i = choose|i: int| 0 <= i < t.len() && (#[trigger] t[i]).0 == k;
            let j = s.index_of(t[i]);
            assert(s[j].0 == k);
        }
    }
    assert forall|k: K| table(s).contains_key(k) implies table(s)[k] == table(t)[k] by {
        let i = choose|i: int| 0 <= i < s.len() && (#[trigger] s[i]).0 == k;
        let j = t.index_of(s[i]);
        lemma_table_at(s, i);
        lemma_table_at(t, j);
    }
    assert(table(s) =~= table(t));
}

/// The value that a change leaves, if any.
pub open spec fn change_view(u: DatabaseUpdate) -> Option<Seq<u8>> {
    match u {
        DatabaseUpdate::Put(v) => Some(v@),
        DatabaseUpdate::Delete => None,
    }
}

/// The keyed changes of a delta.
pub open spec fn delta_view(s: Seq<(Vec<u8>, DatabaseUpdate)>) -> Seq<(Seq<u8>, Option<Seq<u8>>)> {
    Seq::new(s.len(), |i: int| (s[i].0@, change_view(s[i].1)))
}

/// The keyed values of a reset.
pub open spec fn reset_view(s: Seq<(Vec<u8>, Vec<u8>)>) -> Seq<(Seq<u8>, Option<Seq<u8>>)> {
    Seq::new(s.len(), |i: int| (s[i].0@, Some(s[i].1@)))
}

/// Whether a partition is replaced, and what is left under each key.
pub type PartitionContent = (bool, Map<Seq<u8>, Option<Seq<u8>>>);

/// The content of an entity's partitions.
pub type NodeContent = Map<u8, PartitionContent>;

impl PartitionDatabaseUpdates {
    /// The entries in order.
    pub open spec fn entries(self) -> Seq<(Seq<u8>, Option<Seq<u8>>)> {
        match self {
            PartitionDatabaseUpdates::Delta { substate_updates } => delta_view(substate_updates@),
            PartitionDatabaseUpdates::Reset { new_substate_values } => reset_view(
                new_substate_values@,
            ),
        }
    }

    /// What the partition's entries come to.
    pub open spec fn content(self) -> PartitionContent {
        (self is Reset, table(self.entries()))
    }

    /// No sort key occurs twice.
    pub open spec fn wf(self) -> bool {
        distinct(self.entries())
    }

    /// The sort keys ascend.
    pub open spec fn sorted(self) -> bool {
        ascending(self.entries())
    }
}

/// Keys ascend by their bytes.
pub open spec fn ascending<V>(s: Seq<(Seq<u8>, V)>) -> bool {
    forall|i: int, j: int| 0 <= i < j < s.len() ==> lex_lt((#[trigger] s[i]).0, (#[trigger] s[j]).0)
}

/// Partition numbers ascend.
pub open spec fn numbered<V>(s: Seq<(u8, V)>) -> bool {
    forall|i: int, j: int| 0 <= i < j < s.len() ==> (#[trigger] s[i]).0 < (#[trigger] s[j]).0
}

/// The partitions' contents in order.
pub open spec fn parts_view(s: Seq<(u8, PartitionDatabaseUpdates)>) -> Seq<(u8, PartitionContent)> {
    Seq::new(s.len(), |i: int| (s[i].0, s[i].1.content()))
}

impl NodeDatabaseUpdates {
    /// What the entity's updates come to.
    pub open spec fn content(self) -> NodeContent {
        table(parts_view(self.partition_updates@))
    }

    /// No partition occurs twice, and no sort key in any of them.
    pub open spec fn wf(self) -> bool {
        &&& distinct(parts_view(self.partition_updates@))
        &&& forall|i: int|
            0 <= i < self.partition_updates@.len() ==> (#[trigger] self.partition_updates@[i]).1.wf()
    }

    /// Partitions ascend, and the sort keys in each of them.
    pub open spec fn sorted(self) -> bool {
        &&& numbered(parts_view(self.partition_updates@))
        &&& forall|i: int|
            0 <= i < self.partition_updates@.len() ==> (
            #[trigger] self.partition_updates@[i]).1.sorted()
    }
}

/// The entities' contents in order.
pub open spec fn nodes_view(s: Seq<(Vec<u8>, NodeDatabaseUpdates)>) -> Seq<(Seq<u8>, NodeContent)> {
    Seq::new(s.len(), |i: int| (s[i].0@, s[i].1.content()))
}

/// No partition is replaced.
pub open spec fn content_delta_only(c: Map<Seq<u8>, NodeContent>) -> bool {
    forall|k: Seq<u8>, p: u8|
        c.contains_key(k) && #[trigger] c[k].contains_key(p) ==> !c[k][p].0
}

impl DatabaseUpdates {
    /// What the updates come to, whatever the order they came about in.
    pub open spec fn content(self) -> Map<Seq<u8>, NodeContent> {
        table(nodes_view(self.node_updates@))
    }

    /// No key occurs twice at any level.
    pub open spec fn wf(self) -> bool {
        &&& distinct(nodes_view(self.node_updates@))
        &&& forall|i: int|
            0 <= i < self.node_updates@.len() ==> (#[trigger] self.node_updates@[i]).1.wf()
    }

    /// Keys ascend at every level.
    pub open spec fn sorted(self) -> bool {
        &&& ascending(nodes_view(self.node_updates@))
        &&& forall|i: int|
            0 <= i < self.node_updates@.len() ==> (#[trigger] self.node_updates@[i]).1.sorted()
    }

    /// No partition is replaced.
    pub open spec fn delta_only(self) -> bool {
        content_delta_only(self.content())
    }

    /// No updates.
    pub fn new() -> (u: Self)
        ensures
            u.node_updates@.len() == 0,
            u.wf(),
            u.sorted(),
            u.delta_only(),
            u.content() == Map::<Seq<u8>, NodeContent>::empty(),
    {
        let u = DatabaseUpdates { node_updates: Vec::new() };
        assert(u.content() =~= Map::<Seq<u8>, NodeContent>::empty());
        u
    }
}

/// A key that sorts by its bytes.
pub trait ByteKey: Sized {
    /// The bytes.
    spec fn code(self) -> Seq<u8>;

    /// Which of two keys comes first.
    fn compare(&self, other: &Self) -> (r: Rank)
        ensures
            match r {
                Rank::Before => lex_lt(self.code(), other.code()),
                Rank::Same => self.code() == other.code(),
                Rank::After => lex_lt(other.code(), self.code()),
            },
    ;
}

impl ByteKey for Vec<u8> {
    open spec fn code(self) -> Seq<u8> {
        self@
    }

    fn compare(&self, other: &Self) -> (r: Rank) {
        assert(self.code() == self@ && other.code() == other@);
        rank_bytes(self.as_slice(), other.as_slice())
    }
}

impl ByteKey for u8 {
    open spec fn code(self) -> Seq<u8> {
        seq![self]
    }

    fn compare(&self, other: &Self) -> (r: Rank) {
        assert(self.code() == seq![*self] && other.code() == seq![*other]);
        let a: [u8; 1] = [*self];
        let b: [u8; 1] = [*other];
        assert(a@ =~= seq![*self]);
        assert(b@ =~= seq![*other]);
        rank_bytes(a.as_slice(), b.as_slice())
    }
}

/// No two keys have the same bytes.
pub open spec fn apart<K: ByteKey, V>(s: Seq<(K, V)>) -> bool {
    forall|i: int, j: int|
        0 <= i < s.len() && 0 <= j < s.len() && i != j ==> (#[trigger] s[i]).0.code()
            != (#[trigger] s[j]).0.code()
}

/// Keys ascend by their bytes.
pub open spec fn climbs<K: ByteKey, V>(s: Seq<(K, V)>) -> bool {
    forall|i: int, j: int|
        0 <= i < j < s.len() ==> lex_lt((#[trigger] s[i]).0.code(), (#[trigger] s[j]).0.code())
}

/// The same entries, in whatever order.
pub open spec fn rearranged<T>(s: Seq<T>, t: Seq<T>) -> bool {
    &&& s.len() == t.len()
    &&& forall|i: int| 0 <= i < s.len() ==> t.contains(#[trigger] s[i])
    &&& forall|i: int| 0 <= i < t.len() ==> s.contains(#[trigger] t[i])
}

/// Files one entry among entries that ascend.
fn file<K: ByteKey, V>(out: &mut Vec<(K, V)>, entry: (K, V))
    requires
        climbs(old(out)@),
        forall|i: int| 0 <= i < old(out)@.len() ==> (#[trigger] old(out)@[i]).0.code() != entry.0.code(),
    ensures
        climbs(final(out)@),
        rearranged(final(out)@, old(out)@.push(entry)),
{
    let ghost before = out@;
    let mut at: usize = 0;
    while at < out.len()
        invariant
            at <= out@.len(),
            out@ == before,
            climbs(before),
            forall|i: int| 0 <= i < at ==> lex_lt((#[trigger] before[i]).0.code(), entry.0.code()),
            forall|i: int|
                0 <= i < before.len() ==> (#[trigger] before[i]).0.code() != entry.0.code(),
        ensures
            at <= out@.len(),
            out@ == before,
            forall|i: int| 0 <= i < at ==> lex_lt((#[trigger] before[i]).0.code(), entry.0.code()),
            forall|i: int|
                at <= i < before.len() ==> lex_lt(entry.0.code(), (#[trigger] before[i]).0.code()),
        decreases out@.len() - at,
    {
        match out[at].0.compare(&entry.0) {
            Rank::Before => {},
            _ => {
                proof {
                    assert(lex_lt(entry.0.code(), before[at as int].0.code()));
                    assert forall|i: int| at <= i < before.len() implies lex_lt(
                        entry.0.code(),
                        (#[trigger] before[i]).0.code(),
                    ) by {
                        if i > at {
                            lemma_lex_transitive(
                                entry.0.code(),
                                before[at as int].0.code(),
                                before[i].0.code(),
                            );
                        }
                    }
                }
                break;
            },
        }
        at = at + 1;
    }
    out.insert(at, entry);
    proof {
        let after = out@;
        assert(after == before.insert(at as int, entry));
        assert forall|i: int, j: int| 0 <= i < j < after.len() implies lex_lt(
            (#[trigger] after[i]).0.code(),
            (#[trigger] after[j]).0.code(),
        ) by {
            if i < at && j > at {
                lemma_lex_transitive(
                    before[i].0.code(),
                    entry.0.code(),
                    before[j - 1].0.code(),
                );
            } else if i == at {
                assert(after[j] == before[j - 1]);
            } else if j == at {
                assert(after[i] == before[i]);
            } else if j < at {
                assert(after[i] == before[i] && after[j] == before[j]);
            } else {
                assert(after[i] == before[i - 1] && after[j] == before[j - 1]);
            }
        }
        let want = before.push(entry);
        assert forall|i: int| 0 <= i < after.len() implies want.contains(#[trigger] after[i]) by {
            if i < at {
                assert(want[i] == after[i]);
            } else if i == at {
                assert(want[before.len() as int] == after[i]);
            } else {
                assert(want[i - 1] == after[i]);
            }
        }
        assert forall|i: int| 0 <= i < want.len() implies after.contains(#[trigger] want[i]) by {
            if i < at {
                assert(after[i] == want[i]);
            } else if i < before.len() {
                assert(after[i + 1] == want[i]);
            } else {
                assert(after[at as int] == want[i]);
            }
        }
    }
}

/// Sorts keyed entries by their keys' bytes.
pub fn sort_entries<K: ByteKey, V>(entries: Vec<(K, V)>) -> (out: Vec<(K, V)>)
    requires
        apart(entries@),
    ensures
        climbs(out@),
        rearranged(out@, entries@),
{
    let ghost all = entries@;
    let mut rest = entries;
    let mut out: Vec<(K, V)> = Vec::new();
    while rest.len() > 0
        invariant
            apart(all),
            rest@ == all.take(rest@.len() as int),
            rest@.len() <= all.len(),
            climbs(out@),
            rearranged(out@, all.skip(rest@.len() as int)),
        decreases rest@.len(),
    {
        let ghost n = rest@.len();
        let ghost before = out@;
        let entry = match rest.pop() {
            Some(entry) => entry,
            None => {
                return out;
            },
        };
        proof {
            assert(entry == all[n - 1]);
            assert forall|i: int| 0 <= i < out@.len() implies (#[trigger] out@[i]).0.code()
                != entry.0.code() by {
                let tail = all.skip(n as int);
                assert(tail.contains(out@[i]));
                let j = tail.index_of(out@[i]);
                assert(tail[j] == all[n + j]);
            }
        }
        file(&mut out, entry);
        proof {
            let tail = all.skip(n as int);
            let next = all.skip(n - 1);
            assert(next =~= seq![entry] + tail);
            let pushed = before.push(entry);
            assert(rearranged(out@, pushed));
            assert forall|i: int| 0 <= i < out@.len() implies next.contains(#[trigger] out@[i]) by {
                assert(pushed.contains(out@[i]));
                let j = pushed.index_of(out@[i]);
                if j < before.len() {
                    assert(tail.contains(before[j]));
                    let k = tail.index_of(before[j]);
                    assert(next[k + 1] == out@[i]);
                } else {
                    assert(next[0] == out@[i]);
                }
            }
            assert forall|i: int| 0 <= i < next.len() implies out@.contains(#[trigger] next[i]) by {
                if i == 0 {
                    assert(pushed[before.len() as int] == entry);
                    assert(out@.contains(pushed[before.len() as int]));
                } else {
                    assert(next[i] == tail[i - 1]);
                    assert(before.contains(tail[i - 1]));
                    let k = before.index_of(tail[i - 1]);
                    assert(pushed[k] == next[i]);
                    assert(out@.contains(pushed[k]));
                }
            }
        }
    }
    assert(all.skip(0) =~= all);
    out
}

/// Updates come to what their entries say: under each entity, partition and sort
/// key the value that is put there, or none where it is deleted, and a partition
/// is replaced exactly where it is reset.
pub proof fn law_updates_come_to_their_entries(u: DatabaseUpdates, n: int, p: int)
    requires
        u.wf(),
        0 <= n < u.node_updates@.len(),
        0 <= p < u.node_updates@[n].1.partition_updates@.len(),
    ensures
        ({
            let node = u.node_updates@[n];
            let part = node.1.partition_updates@[p];
            let held = u.content()[node.0@][part.0];
            &&& u.content().contains_key(node.0@)
            &&& u.content()[node.0@].contains_key(part.0)
            &&& match part.1 {
                PartitionDatabaseUpdates::Delta { substate_updates } => !held.0 && forall|e: int|
                    #![trigger substate_updates@[e]]
                    0 <= e < substate_updates@.len() ==> held.1.contains_key(
                        substate_updates@[e].0@,
                    ) && match substate_updates@[e].1 {
                        DatabaseUpdate::Put(v) => held.1[substate_updates@[e].0@] == Some(v@),
                        DatabaseUpdate::Delete => held.1[substate_updates@[e].0@] is None,
                    },
                PartitionDatabaseUpdates::Reset { new_substate_values } => held.0 && forall|e: int|
                    #![trigger new_substate_values@[e]]
                    0 <= e < new_substate_values@.len() ==> held.1.contains_key(
                        new_substate_values@[e].0@,
                    ) && held.1[new_substate_values@[e].0@] == Some(new_substate_values@[e].1@),
            }
        }),
{
    let node = u.node_updates@[n];
    let part = node.1.partition_updates@[p];
    lemma_table_at(nodes_view(u.node_updates@), n);
    lemma_table_at(parts_view(node.1.partition_updates@), p);
    let entries = part.1.entries();
    assert forall|e: int| 0 <= e < entries.len() implies table(entries).contains_key(
        (#[trigger] entries[e]).0,
    ) && table(entries)[entries[e].0] == entries[e].1 by {
        lemma_table_at(entries, e);
    }
    match part.1 {
        PartitionDatabaseUpdates::Delta { substate_updates } => {
            assert forall|e: int|
                #![trigger substate_updates@[e]]
                0 <= e < substate_updates@.len() implies table(entries).contains_key(
                substate_updates@[e].0@,
            ) && table(entries)[substate_updates@[e].0@] == (match substate_updates@[e].1 {
                DatabaseUpdate::Put(v) => Some(v@),
                DatabaseUpdate::Delete => None,
            }) by {
                assert(entries[e].0 == substate_updates@[e].0@);
            }
        },
        PartitionDatabaseUpdates::Reset { new_substate_values } => {
            assert forall|e: int|
                #![trigger new_substate_values@[e]]
                0 <= e < new_substate_values@.len() implies table(entries).contains_key(
                new_substate_values@[e].0@,
            ) && table(entries)[new_substate_values@[e].0@] == Some(new_substate_values@[e].1@) by {
                assert(entries[e].0 == new_substate_values@[e].0@);
            }
        },
    }
}

} // verus!
