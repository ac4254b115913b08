//! The canonical order of database updates, their root, and the slice of them
//! that a shard keeps.
use radix_common::prelude::{basic_encode, DatabaseUpdate as OuterUpdate};
use radix_substate_store_interface::interface::{
    DatabaseUpdates as OuterUpdates, DbSortKey, NodeDatabaseUpdates as OuterNode,
    PartitionDatabaseUpdates as OuterPartition,
};
use vstd::prelude::*;

use crate::hash::{blake3_digest, blake3_hash, Hash32};
use crate::list::lemma_filter_by;
use crate::shard::{ShardId, ShardTrie};
use crate::storage::state_key::{names_owner, vm_db_node_key_owner};
use crate::storage::updates::{
    ascending, change_view, delta_view, distinct, lemma_table_same, nodes_view, numbered,
    parts_view, rearranged, reset_view, sort_entries, table, ByteKey, DatabaseUpdate,
    DatabaseUpdates, NodeContent, NodeDatabaseUpdates, PartitionContent, PartitionDatabaseUpdates,
};

verus! {

/// Entries that are rearranged hold the same.
proof fn lemma_rearranged_holds_same<K, V>(s: Seq<(K, V)>, t: Seq<(K, V)>)
    requires
        rearranged(s, t),
        distinct(s),
        distinct(t),
    ensures
        table(s) == table(t),
{
    lemma_table_same(s, t);
}

proof fn lemma_delta_rearranged(
    s: Seq<(Vec<u8>, DatabaseUpdate)>,
    t: Seq<(Vec<u8>, DatabaseUpdate)>,
)
    requires
        rearranged(s, t),
    ensures
        rearranged(delta_view(s), delta_view(t)),
{
    let a = delta_view(s);
    let b = delta_view(t);
    assert forall|i: int| 0 <= i < a.len() implies b.contains(#[trigger] a[i]) by {
        assert(t.contains(s[i]));
        let j = t.index_of(s[i]);
        assert(b[j] == a[i]);
    }
    assert forall|i: int| 0 <= i < b.len() implies a.contains(#[trigger] b[i]) by {
        assert(s.contains(t[i]));
        let j = s.index_of(t[i]);
        assert(a[j] == b[i]);
    }
}

proof fn lemma_reset_rearranged(s: Seq<(Vec<u8>, Vec<u8>)>, t: Seq<(Vec<u8>, Vec<u8>)>)
    requires
        rearranged(s, t),
    ensures
        rearranged(reset_view(s), reset_view(t)),
{
    let a = reset_view(s);
    let b = reset_view(t);
    assert forall|i: int| 0 <= i < a.len() implies b.contains(#[trigger] a[i]) by {
        assert(t.contains(s[i]));
        let j = t.index_of(s[i]);
        assert(b[j] == a[i]);
    }
    assert forall|i: int| 0 <= i < b.len() implies a.contains(#[trigger] b[i]) by {
        assert(s.contains(t[i]));
        let j = s.index_of(t[i]);
        assert(a[j] == b[i]);
    }
}

/// Ascending keys do not repeat.
proof fn lemma_ascending_distinct<V>(s: Seq<(Seq<u8>, V)>)
    requires
        ascending(s),
    ensures
        distinct(s),
{
    assert forall|i: int, j: int| 0 <= i < s.len() && 0 <= j < s.len() && i != j implies (
    #[trigger] s[i]).0 != (#[trigger] s[j]).0 by {
        crate::order::lemma_lex_irreflexive(s[i].0);
        if i < j {
            assert(crate::order::lex_lt(s[i].0, s[j].0));
        } else {
            assert(crate::order::lex_lt(s[j].0, s[i].0));
        }
    }
}

/// Sorts a partition's entries by sort key.
pub fn sort_partition(p: PartitionDatabaseUpdates) -> (q: PartitionDatabaseUpdates)
    requires
        p.wf(),
    ensures
        q.content() == p.content(),
        q.wf(),
        q.sorted(),
{
    match p {
        PartitionDatabaseUpdates::Delta { substate_updates } => {
            let ghost s = substate_updates@;
            proof {
                assert forall|i: int, j: int| 0 <= i < s.len() && 0 <= j < s.len() && i != j implies (
                #[trigger] s[i]).0.code() != (#[trigger] s[j]).0.code() by {
                    assert(delta_view(s)[i].0 != delta_view(s)[j].0);
                    assert(s[i].0.code() == s[i].0@ && s[j].0.code() == s[j].0@);
                }
            }
            let sorted = sort_entries(substate_updates);
            proof {
                let t = sorted@;
                lemma_delta_rearranged(t, s);
                assert forall|i: int, j: int| 0 <= i < j < t.len() implies crate::order::lex_lt(
                    (#[trigger] delta_view(t)[i]).0,
                    (#[trigger] delta_view(t)[j]).0,
                ) by {
                    assert(t[i].0.code() == t[i].0@ && t[j].0.code() == t[j].0@);
                }
                lemma_ascending_distinct(delta_view(t));
                lemma_rearranged_holds_same(delta_view(t), delta_view(s));
            }
            PartitionDatabaseUpdates::Delta { substate_updates: sorted }
        },
        PartitionDatabaseUpdates::Reset { new_substate_values } => {
            let ghost s = new_substate_values@;
            proof {
                assert forall|i: int, j: int| 0 <= i < s.len() && 0 <= j < s.len() && i != j implies (
                #[trigger] s[i]).0.code() != (#[trigger] s[j]).0.code() by {
                    assert(reset_view(s)[i].0 != reset_view(s)[j].0);
                    assert(s[i].0.code() == s[i].0@ && s[j].0.code() == s[j].0@);
                }
            }
            let sorted = sort_entries(new_substate_values);
            proof {
                let t = sorted@;
                lemma_reset_rearranged(t, s);
                assert forall|i: int, j: int| 0 <= i < j < t.len() implies crate::order::lex_lt(
                    (#[trigger] reset_view(t)[i]).0,
                    (#[trigger] reset_view(t)[j]).0,
                ) by {
                    assert(t[i].0.code() == t[i].0@ && t[j].0.code() == t[j].0@);
                }
                lemma_ascending_distinct(reset_view(t));
                lemma_rearranged_holds_same(reset_view(t), reset_view(s));
            }
            PartitionDatabaseUpdates::Reset { new_substate_values: sorted }
        },
    }
}

/// Single bytes compare as the numbers they are.
proof fn lemma_byte_order(a: u8, b: u8)
    ensures
        crate::order::lex_lt(a.code(), b.code()) == (a < b),
        (a.code() == b.code()) == (a == b),
{
    let s = seq![a];
    let t = seq![b];
    assert(a.code() == s && b.code() == t);
    assert(s[0] == a && t[0] == b);
    if a < b {
        assert(crate::order::lex_lt_at(s, t, 0));
    }
    if crate::order::lex_lt(s, t) {
        let k = choose|k: int| crate::order::lex_lt_at(s, t, k);
        assert(crate::order::lex_lt_at(s, t, k));
    }
}

/// Sorts an entity's partitions, and the entries of each.
pub fn sort_node(n: NodeDatabaseUpdates) -> (m: NodeDatabaseUpdates)
    requires
        n.wf(),
    ensures
        m.content() == n.content(),
        m.wf(),
        m.sorted(),
{
    let ghost all = n.partition_updates@;
    let mut rest = n.partition_updates;
    let mut mid: Vec<(u8, PartitionDatabaseUpdates)> = Vec::new();
    while rest.len() > 0
        invariant
            rest@ == all.take(rest@.len() as int),
            rest@.len() + mid@.len() == all.len(),
            forall|i: int| 0 <= i < all.len() ==> (#[trigger] all[i]).1.wf(),
            forall|i: int|
                0 <= i < mid@.len() ==> {
                    &&& (#[trigger] mid@[i]).0 == all[all.len() - 1 - i].0
                    &&& mid@[i].1.content() == all[all.len() - 1 - i].1.content()
                    &&& mid@[i].1.wf()
                    &&& mid@[i].1.sorted()
                },
        decreases rest@.len(),
    {
        let ghost k = rest@.len() - 1;
        match rest.pop() {
            Some((number, partition)) => {
                assert((number, partition) == all[k]);
                mid.push((number, sort_partition(partition)));
            },
            None => {},
        }
    }
    let ghost s = mid@;
    proof {
        let a = parts_view(all);
        let b = parts_view(s);
        assert(b =~= a.reverse());
        assert forall|i: int, j: int| 0 <= i < s.len() && 0 <= j < s.len() && i != j implies (
        #[trigger] s[i]).0.code() != (#[trigger] s[j]).0.code() by {
            lemma_byte_order(s[i].0, s[j].0);
            assert(a[all.len() - 1 - i].0 != a[all.len() - 1 - j].0);
        }
        assert(distinct(b)) by {
            assert forall|i: int, j: int|
                0 <= i < b.len() && 0 <= j < b.len() && i != j implies (#[trigger] b[i]).0 != (
            #[trigger] b[j]).0 by {
                assert(a[all.len() - 1 - i].0 != a[all.len() - 1 - j].0);
            }
        }
        assert(rearranged(b, a)) by {
            assert forall|i: int| 0 <= i < b.len() implies a.contains(#[trigger] b[i]) by {
                assert(a[a.len() - 1 - i] == b[i]);
            }
            assert forall|i: int| 0 <= i < a.len() implies b.contains(#[trigger] a[i]) by {
                assert(b[a.len() - 1 - i] == a[i]);
            }
        }
        lemma_rearranged_holds_same(b, a);
    }
    let out = sort_entries(mid);
    proof {
        let t = out@;
        let b = parts_view(s);
        let c = parts_view(t);
        assert forall|i: int| 0 <= i < c.len() implies b.contains(#[trigger] c[i]) by {
            assert(s.contains(t[i]));
            let j = s.index_of(t[i]);
            assert(b[j] == c[i]);
        }
        assert forall|i: int| 0 <= i < b.len() implies c.contains(#[trigger] b[i]) by {
            assert(t.contains(s[i]));
            let j = t.index_of(s[i]);
            assert(c[j] == b[i]);
        }
        assert(numbered(c)) by {
            assert forall|i: int, j: int| 0 <= i < j < c.len() implies (#[trigger] c[i]).0 < (
            #[trigger] c[j]).0 by {
                lemma_byte_order(t[i].0, t[j].0);
            }
        }
        assert(distinct(c)) by {
            assert forall|i: int, j: int|
                0 <= i < c.len() && 0 <= j < c.len() && i != j implies (#[trigger] c[i]).0 != (
            #[trigger] c[j]).0 by {
                if i < j {
                    assert(c[i].0 < c[j].0);
                } else {
                    assert(c[j].0 < c[i].0);
                }
            }
        }
        lemma_rearranged_holds_same(c, b);
        assert forall|i: int| 0 <= i < t.len() implies (#[trigger] t[i]).1.wf() && t[i].1.sorted() by {
            assert(s.contains(t[i]));
            let j = s.index_of(t[i]);
            assert(s[j] == t[i]);
        }
    }
    NodeDatabaseUpdates { partition_updates: out }
}

/// Sorts updates by key at every level. What they come to stays the same.
pub fn sort_database_updates(updates: &mut DatabaseUpdates)
    requires
        old(updates).wf(),
    ensures
        final(updates).content() == old(updates).content(),
        final(updates).wf(),
        final(updates).sorted(),
        final(updates).node_updates@.len() == old(updates).node_updates@.len(),
{
    let ghost all = updates.node_updates@;
    let mut rest: Vec<(Vec<u8>, NodeDatabaseUpdates)> = Vec::new();
    std::mem::swap(&mut rest, &mut updates.node_updates);
    let mut mid: Vec<(Vec<u8>, NodeDatabaseUpdates)> = Vec::new();
    while rest.len() > 0
        invariant
            rest@ == all.take(rest@.len() as int),
            rest@.len() + mid@.len() == all.len(),
            forall|i: int| 0 <= i < all.len() ==> (#[trigger] all[i]).1.wf(),
            forall|i: int|
                0 <= i < mid@.len() ==> {
                    &&& (#[trigger] mid@[i]).0@ == all[all.len() - 1 - i].0@
                    &&& mid@[i].1.content() == all[all.len() - 1 - i].1.content()
                    &&& mid@[i].1.wf()
                    &&& mid@[i].1.sorted()
                },
        decreases rest@.len(),
    {
        let ghost k = rest@.len() - 1;
        match rest.pop() {
            Some((key, node)) => {
                assert((key, node) == all[k]);
                mid.push((key, sort_node(node)));
            },
            None => {},
        }
    }
    let ghost s = mid@;
    proof {
        let a = nodes_view(all);
        let b = nodes_view(s);
        assert(b =~= a.reverse());
        assert forall|i: int, j: int| 0 <= i < s.len() && 0 <= j < s.len() && i != j implies (
        #[trigger] s[i]).0.code() != (#[trigger] s[j]).0.code() by {
            assert(s[i].0.code() == s[i].0@ && s[j].0.code() == s[j].0@);
            assert(a[all.len() - 1 - i].0 != a[all.len() - 1 - j].0);
        }
        assert(distinct(b)) by {
            assert forall|i: int, j: int|
                0 <= i < b.len() && 0 <= j < b.len() && i != j implies (#[trigger] b[i]).0 != (
            #[trigger] b[j]).0 by {
                assert(a[all.len() - 1 - i].0 != a[all.len() - 1 - j].0);
            }
        }
        assert(rearranged(b, a)) by {
            assert forall|i: int| 0 <= i < b.len() implies a.contains(#[trigger] b[i]) by {
                assert(a[a.len() - 1 - i] == b[i]);
            }
            assert forall|i: int| 0 <= i < a.len() implies b.contains(#[trigger] a[i]) by {
                assert(b[a.len() - 1 - i] == a[i]);
            }
        }
        lemma_rearranged_holds_same(b, a);
    }
    let out = sort_entries(mid);
    proof {
        let t = out@;
        let b = nodes_view(s);
        let c = nodes_view(t);
        assert forall|i: int| 0 <= i < c.len() implies b.contains(#[trigger] c[i]) by {
            assert(s.contains(t[i]));
            let j = s.index_of(t[i]);
            assert(b[j] == c[i]);
        }
        assert forall|i: int| 0 <= i < b.len() implies c.contains(#[trigger] b[i]) by {
            assert(t.contains(s[i]));
            let j = t.index_of(s[i]);
            assert(c[j] == b[i]);
        }
        assert forall|i: int, j: int| 0 <= i < j < c.len() implies crate::order::lex_lt(
            (#[trigger] c[i]).0,
            (#[trigger] c[j]).0,
        ) by {
            assert(t[i].0.code() == t[i].0@ && t[j].0.code() == t[j].0@);
        }
        lemma_ascending_distinct(c);
        lemma_rearranged_holds_same(c, b);
        assert forall|i: int| 0 <= i < t.len() implies (#[trigger] t[i]).1.wf() && t[i].1.sorted() by {
            assert(s.contains(t[i]));
            let j = s.index_of(t[i]);
            assert(s[j] == t[i]);
        }
    }
    updates.node_updates = out;
}

/// The most entries or bytes that one collection or string of the encoding may
/// have.
pub const MAX_ENCODED_LEN: usize = 0x0FFF_FFFF;

/// No substate is past the encoding's length limit, by its key or its value.
pub open spec fn compact_partition(partition: PartitionContent) -> bool {
    &&& partition.1.dom().len() <= MAX_ENCODED_LEN
    &&& forall|k: Seq<u8>| #[trigger]
        partition.1.contains_key(k) ==> k.len() <= MAX_ENCODED_LEN && match partition.1[k] {
            Some(value) => value.len() <= MAX_ENCODED_LEN,
            None => true,
        }
}

/// Nothing in the updates is past the encoding's length limit.
pub open spec fn compact(content: Map<Seq<u8>, NodeContent>) -> bool {
    &&& content.dom().len() <= MAX_ENCODED_LEN
    &&& forall|node: Seq<u8>| #[trigger]
        content.contains_key(node) ==> node.len() <= MAX_ENCODED_LEN && forall|p: u8| #[trigger]
            content[node].contains_key(p) ==> compact_partition(content[node][p])
}

/// The encoding of updates whose keys ascend.
pub uninterp spec fn updates_payload(content: Map<Seq<u8>, NodeContent>) -> Seq<u8>;

/// Builds a `radix_substate_store_interface` `DatabaseUpdates` and calls
/// `radix_common` `basic_encode`. Claims that updates whose keys ascend encode
/// exactly where no length in them is past the limit, since they nest far
/// within the depth that `basic_encode` admits, and that the encoding is then a
/// function of what the updates come to.
#[verifier::external_body]
fn encode_updates(u: DatabaseUpdates) -> (r: Option<Vec<u8>>)
    requires
        u.sorted(),
    ensures
        match r {
            Some(b) => compact(u.content()) && b@ == updates_payload(u.content()),
            None => !compact(u.content()) && r is None,
        },
{
    let nodes = u.node_updates.into_iter().map(|(k, n)| (k, OuterNode {
        partition_updates: n.partition_updates.into_iter().map(|(i, p)| (i, match p {
            PartitionDatabaseUpdates::Delta { substate_updates: s } => OuterPartition::Delta {
                substate_updates: s.into_iter().map(|(k, v)| (DbSortKey(k), match v {
                    DatabaseUpdate::Put(b) => OuterUpdate::Set(b),
                    DatabaseUpdate::Delete => OuterUpdate::Delete })).collect() },
            PartitionDatabaseUpdates::Reset { new_substate_values: s } => OuterPartition::Reset {
                new_substate_values: s.into_iter().map(|(k, v)| (DbSortKey(k), v)).collect() },
        })).collect() }));
    basic_encode(&OuterUpdates { node_updates: nodes.collect() }).ok()
}

/// The root over what updates come to: zero for none, else the hash of the
/// canonical encoding; none, where they are past the encoding's length limit.
pub open spec fn writes_root(content: Map<Seq<u8>, NodeContent>) -> Option<Seq<u8>> {
    if content == Map::<Seq<u8>, NodeContent>::empty() {
        Some(Seq::new(32, |i: int| 0u8))
    } else {
        if compact(content) {
            Some(blake3_digest(updates_payload(content)))
        } else {
            None
        }
    }
}

/// A copy of a byte string.
pub fn copy_bytes(b: &Vec<u8>) -> (c: Vec<u8>)
    ensures
        c@ == b@,
{
    let mut c: Vec<u8> = Vec::new();
    c.extend_from_slice(b.as_slice());
    assert(c@ =~= b@);
    c
}

/// A copy of a change.
pub fn copy_change(u: &DatabaseUpdate) -> (c: DatabaseUpdate)
    ensures
        change_view(c) == change_view(*u),
{
    match u {
        DatabaseUpdate::Put(v) => DatabaseUpdate::Put(copy_bytes(v)),
        DatabaseUpdate::Delete => DatabaseUpdate::Delete,
    }
}

/// A copy of a partition's updates.
pub fn copy_partition(p: &PartitionDatabaseUpdates) -> (q: PartitionDatabaseUpdates)
    ensures
        q.entries() == p.entries(),
        q.content() == p.content(),
{
    match p {
        PartitionDatabaseUpdates::Delta { substate_updates } => {
            let mut out: Vec<(Vec<u8>, DatabaseUpdate)> = Vec::new();
            let mut i: usize = 0;
            while i < substate_updates.len()
                invariant
                    i <= substate_updates@.len(),
                    delta_view(out@) =~= delta_view(substate_updates@).take(i as int),
                decreases substate_updates@.len() - i,
            {
                let ghost before = out@;
                out.push((copy_bytes(&substate_updates[i].0), copy_change(&substate_updates[i].1)));
                proof {
                    assert(delta_view(out@) =~= delta_view(before).push(
                        delta_view(substate_updates@)[i as int],
                    ));
                }
                i = i + 1;
            }
            let q = PartitionDatabaseUpdates::Delta { substate_updates: out };
            assert(q.entries() =~= p.entries());
            q
        },
        PartitionDatabaseUpdates::Reset { new_substate_values } => {
            let mut out: Vec<(Vec<u8>, Vec<u8>)> = Vec::new();
            let mut i: usize = 0;
            while i < new_substate_values.len()
                invariant
                    i <= new_substate_values@.len(),
                    reset_view(out@) =~= reset_view(new_substate_values@).take(i as int),
                decreases new_substate_values@.len() - i,
            {
                let ghost before = out@;
                out.push(
                    (copy_bytes(&new_substate_values[i].0), copy_bytes(&new_substate_values[i].1)),
                );
                proof {
                    assert(reset_view(out@) =~= reset_view(before).push(
                        reset_view(new_substate_values@)[i as int],
                    ));
                }
                i = i + 1;
            }
            let q = PartitionDatabaseUpdates::Reset { new_substate_values: out };
            assert(q.entries() =~= p.entries());
            q
        },
    }
}

/// A copy of an entity's updates.
pub fn copy_node(n: &NodeDatabaseUpdates) -> (m: NodeDatabaseUpdates)
    ensures
        m.content() == n.content(),
        n.wf() ==> m.wf(),
        n.sorted() ==> m.sorted(),
{
    let mut out: Vec<(u8, PartitionDatabaseUpdates)> = Vec::new();
    let mut i: usize = 0;
    while i < n.partition_updates.len()
        invariant
            i <= n.partition_updates@.len(),
            out@.len() == i,
            forall|j: int|
                0 <= j < i ==> (#[trigger] out@[j]).0 == n.partition_updates@[j].0
                    && out@[j].1.entries() == n.partition_updates@[j].1.entries()
                    && out@[j].1.content() == n.partition_updates@[j].1.content(),
        decreases n.partition_updates@.len() - i,
    {
        out.push((n.partition_updates[i].0, copy_partition(&n.partition_updates[i].1)));
        i = i + 1;
    }
    proof {
        assert(parts_view(out@) =~= parts_view(n.partition_updates@));
    }
    NodeDatabaseUpdates { partition_updates: out }
}

/// An entity whose key is an owner that routes to a shard.
pub open spec fn belongs(key: Seq<u8>, shard: ShardId, trie: ShardTrie) -> bool {
    names_owner(key) && trie.shard_of(key) == shard
}

/// The entries that belong to a shard, in order.
pub open spec fn kept(s: Seq<(Seq<u8>, NodeContent)>, shard: ShardId, trie: ShardTrie) -> Seq<
    (Seq<u8>, NodeContent),
> {
    s.filter(|e: (Seq<u8>, NodeContent)| belongs(e.0, shard, trie))
}

/// Keeps the updates of the entities whose owner prefix routes to a shard, in
/// their order.
#[must_use]
pub fn filter_updates_for_shard(
    updates: &DatabaseUpdates,
    local_shard: ShardId,
    shard_trie: &ShardTrie,
) -> (filtered: DatabaseUpdates)
    requires
        shard_trie.wf(),
        updates.wf(),
    ensures
        nodes_view(filtered.node_updates@) == kept(
            nodes_view(updates.node_updates@),
            local_shard,
            *shard_trie,
        ),
        filtered.wf(),
        filtered.content() == updates.content().restrict(
            Set::new(
                |k: Seq<u8>|
                    updates.content().contains_key(k) && belongs(k, local_shard, *shard_trie),
            ),
        ),
{
    let ghost all = nodes_view(updates.node_updates@);
    let ghost keep = |e: (Seq<u8>, NodeContent)| belongs(e.0, local_shard, *shard_trie);
    let mut out: Vec<(Vec<u8>, NodeDatabaseUpdates)> = Vec::new();
    let mut i: usize = 0;
    while i < updates.node_updates.len()
        invariant
            i <= updates.node_updates@.len(),
            shard_trie.wf(),
            updates.wf(),
            all == nodes_view(updates.node_updates@),
            keep == (|e: (Seq<u8>, NodeContent)| belongs(e.0, local_shard, *shard_trie)),
            nodes_view(out@) =~= all.take(i as int).filter(keep),
            forall|j: int| 0 <= j < out@.len() ==> (#[trigger] out@[j]).1.wf(),
        decreases updates.node_updates@.len() - i,
    {
        let entry = &updates.node_updates[i];
        let ghost before = out@;
        proof {
            assert(all.take(i + 1).drop_last() =~= all.take(i as int));
            assert(all.take(i + 1).last() == all[i as int]);
            reveal(Seq::filter);
        }
        let mine = match vm_db_node_key_owner(&entry.0) {
            Some(owner) => shard_trie.shard_for_prefix(&owner) == local_shard,
            None => false,
        };
        if mine {
            out.push((copy_bytes(&entry.0), copy_node(&entry.1)));
            proof {
                assert(nodes_view(out@) =~= nodes_view(before).push(all[i as int]));
            }
        }
        i = i + 1;
    }
    let filtered = DatabaseUpdates { node_updates: out };
    proof {
        assert(all.take(all.len() as int) =~= all);
        let f = all.filter(keep);
        lemma_filter_distinct(all, keep);
        let want = updates.content().restrict(
            Set::new(
                |k: Seq<u8>|
                    updates.content().contains_key(k) && belongs(k, local_shard, *shard_trie),
            ),
        );
        assert forall|k: Seq<u8>| table(f).contains_key(k) == want.contains_key(k) by {
            if table(f).contains_key(k) {
                let j = choose|j: int| 0 <= j < f.len() && (#[trigger] f[j]).0 == k;
                lemma_filter_members(all, keep, j);
                let m = all.index_of(f[j]);
                crate::storage::updates::lemma_table_at(all, m);
            }
            if want.contains_key(k) {
                let m = choose|m: int| 0 <= m < all.len() && (#[trigger] all[m]).0 == k;
                crate::storage::updates::lemma_table_at(all, m);
                lemma_filter_keeps(all, keep, m);
                let j = f.index_of(all[m]);
                assert(f[j].0 == k);
            }
        }
        assert forall|k: Seq<u8>| table(f).contains_key(k) implies table(f)[k] == want[k] by {
            let j = choose|j: int| 0 <= j < f.len() && (#[trigger] f[j]).0 == k;
            lemma_filter_members(all, keep, j);
            let m = all.index_of(f[j]);
            crate::storage::updates::lemma_table_at(all, m);
            crate::storage::updates::lemma_table_at(f, j);
        }
        assert(table(f) =~= want);
    }
    filtered
}

proof fn lemma_filter_members<T>(s: Seq<T>, keep: spec_fn(T) -> bool, j: int)
    requires
        0 <= j < s.filter(keep).len(),
    ensures
        s.contains(s.filter(keep)[j]),
        keep(s.filter(keep)[j]),
    decreases s.len(),
{
    reveal(Seq::filter);
    if s.len() > 0 {
        let t = s.drop_last();
        if j < t.filter(keep).len() {
            lemma_filter_members(t, keep, j);
            let k = t.index_of(t.filter(keep)[j]);
            assert(s[k] == t[k]);
        } else {
            assert(s.filter(keep)[j] == s.last());
            assert(s[s.len() - 1] == s.last());
        }
    }
}

proof fn lemma_filter_keeps<T>(s: Seq<T>, keep: spec_fn(T) -> bool, i: int)
    requires
        0 <= i < s.len(),
        keep(s[i]),
    ensures
        s.filter(keep).contains(s[i]),
    decreases s.len(),
{
    reveal(Seq::filter);
    let t = s.drop_last();
    if i < t.len() {
        lemma_filter_keeps(t, keep, i);
        let k = t.filter(keep).index_of(t[i]);
        assert(s.filter(keep)[k] == s[i]);
    } else {
        assert(s.filter(keep)[t.filter(keep).len() as int] == s[i]);
    }
}

proof fn lemma_filter_distinct<K, V>(s: Seq<(K, V)>, keep: spec_fn((K, V)) -> bool)
    requires
        distinct(s),
    ensures
        distinct(s.filter(keep)),
    decreases s.len(),
{
    reveal(Seq::filter);
    if s.len() > 0 {
        let t = s.drop_last();
        assert(distinct(t)) by {
            assert forall|i: int, j: int|
                0 <= i < t.len() && 0 <= j < t.len() && i != j implies (#[trigger] t[i]).0 != (
            #[trigger] t[j]).0 by {
                assert(s[i].0 != s[j].0);
            }
        }
        lemma_filter_distinct(t, keep);
        let f = t.filter(keep);
        let g = s.filter(keep);
        if keep(s.last()) {
            assert(g == f.push(s.last()));
            assert forall|i: int, j: int|
                0 <= i < g.len() && 0 <= j < g.len() && i != j implies (#[trigger] g[i]).0 != (
            #[trigger] g[j]).0 by {
                let last = s.len() - 1;
                if i == g.len() - 1 {
                    lemma_filter_members(t, keep, j);
                    let k = t.index_of(f[j]);
                    assert(s[k] == f[j]);
                    assert(s[k].0 != s[last].0);
                } else if j == g.len() - 1 {
                    lemma_filter_members(t, keep, i);
                    let k = t.index_of(f[i]);
                    assert(s[k] == f[i]);
                    assert(s[k].0 != s[last].0);
                } else {
                    assert(f[i].0 != f[j].0);
                }
            }
        }
    }
}

/// The genesis updates that a shard's tree is built from: those whose owner
/// routes to it. What every shard's store holds for reading is not part of
/// every shard's tree.
#[must_use]
pub fn filter_genesis_updates_for_shard(
    merged: &DatabaseUpdates,
    local_shard: ShardId,
    shard_trie: &ShardTrie,
) -> (filtered: DatabaseUpdates)
    requires
        shard_trie.wf(),
        merged.wf(),
    ensures
        nodes_view(filtered.node_updates@) == kept(
            nodes_view(merged.node_updates@),
            local_shard,
            *shard_trie,
        ),
        filtered.wf(),
        filtered.content() == merged.content().restrict(
            Set::new(
                |k: Seq<u8>|
                    merged.content().contains_key(k) && belongs(k, local_shard, *shard_trie),
            ),
        ),
{
    filter_updates_for_shard(merged, local_shard, shard_trie)
}

/// Whether a partition is replaced.
pub fn has_partition_reset(updates: &DatabaseUpdates) -> (r: bool)
    requires
        updates.wf(),
    ensures
        r == !updates.delta_only(),
{
    let ghost all = nodes_view(updates.node_updates@);
    let mut i: usize = 0;
    while i < updates.node_updates.len()
        invariant
            i <= updates.node_updates@.len(),
            updates.wf(),
            all == nodes_view(updates.node_updates@),
            forall|a: int, b: int|
                0 <= a < i && 0 <= b < updates.node_updates@[a].1.partition_updates@.len() ==> (
                #[trigger] updates.node_updates@[a].1.partition_updates@[b]).1 is Delta,
        decreases updates.node_updates@.len() - i,
    {
        let node = &updates.node_updates[i].1;
        let mut j: usize = 0;
        while j < node.partition_updates.len()
            invariant
                i < updates.node_updates@.len(),
                j <= node.partition_updates@.len(),
                updates.wf(),
                *node == updates.node_updates@[i as int].1,
                all == nodes_view(updates.node_updates@),
                forall|b: int|
                    0 <= b < j ==> (#[trigger] node.partition_updates@[b]).1 is Delta,
            decreases node.partition_updates@.len() - j,
        {
            match &node.partition_updates[j].1 {
                PartitionDatabaseUpdates::Reset { .. } => {
                    proof {
                        let parts = parts_view(node.partition_updates@);
                        assert(updates.node_updates@[i as int].1.wf());
                        crate::storage::updates::lemma_table_at(all, i as int);
                        crate::storage::updates::lemma_table_at(parts, j as int);
                        let k = all[i as int].0;
                        let p = parts[j as int].0;
                        assert(updates.content()[k] == table(parts));
                        assert(updates.content()[k].contains_key(p));
                        assert(updates.content()[k][p].0);
                    }
                    return true;
                },
                PartitionDatabaseUpdates::Delta { .. } => {},
            }
            j = j + 1;
        }
        i = i + 1;
    }
    proof {
        let c = updates.content();
        assert forall|k: Seq<u8>, p: u8|
            c.contains_key(k) && #[trigger] c[k].contains_key(p) implies !c[k][p].0 by {
            let a = choose|a: int| 0 <= a < all.len() && (#[trigger] all[a]).0 == k;
            crate::storage::updates::lemma_table_at(all, a);
            let node = updates.node_updates@[a].1;
            let parts = parts_view(node.partition_updates@);
            assert(updates.node_updates@[a].1.wf());
            let b = choose|b: int| 0 <= b < parts.len() && (#[trigger] parts[b]).0 == p;
            crate::storage::updates::lemma_table_at(parts, b);
            assert(updates.node_updates@[a].1.partition_updates@[b].1 is Delta);
        }
    }
    false
}

/// A copy of updates.
pub fn copy_updates(u: &DatabaseUpdates) -> (w: DatabaseUpdates)
    requires
        u.wf(),
    ensures
        w.wf(),
        w.content() == u.content(),
        w.node_updates@.len() == u.node_updates@.len(),
{
    let mut out: Vec<(Vec<u8>, NodeDatabaseUpdates)> = Vec::new();
    let mut i: usize = 0;
    while i < u.node_updates.len()
        invariant
            i <= u.node_updates@.len(),
            u.wf(),
            out@.len() == i,
            forall|j: int|
                0 <= j < i ==> (#[trigger] out@[j]).0@ == u.node_updates@[j].0@
                    && out@[j].1.content() == u.node_updates@[j].1.content() && out@[j].1.wf(),
        decreases u.node_updates@.len() - i,
    {
        out.push((copy_bytes(&u.node_updates[i].0), copy_node(&u.node_updates[i].1)));
        i = i + 1;
    }
    proof {
        assert(nodes_view(out@) =~= nodes_view(u.node_updates@));
    }
    DatabaseUpdates { node_updates: out }
}

/// The root over what updates come to; nothing, where an entry is past the
/// encoding's size limit.
#[must_use]
pub fn compute_writes_root(updates: &DatabaseUpdates) -> (r: Option<Hash32>)
    requires
        updates.wf(),
    ensures
        match r {
            Some(root) => writes_root(updates.content()) == Some(root.0@),
            None => writes_root(updates.content()) is None,
        },
{
    if updates.node_updates.len() == 0 {
        let zero = Hash32([0; 32]);
        proof {
            assert(updates.content() =~= Map::<Seq<u8>, NodeContent>::empty());
            assert(zero.0@ =~= Seq::new(32, |i: int| 0u8));
        }
        return Some(zero);
    }
    proof {
        crate::storage::updates::lemma_table_at(nodes_view(updates.node_updates@), 0);
    }
    let mut canonical = copy_updates(updates);
    sort_database_updates(&mut canonical);
    match encode_updates(canonical) {
        Some(encoded) => Some(Hash32(blake3_hash(encoded.as_slice()))),
        None => None,
    }
}

/// Validators that build the same updates agree on the root, in whatever order
/// they came about.
pub proof fn law_root_ignores_order(a: DatabaseUpdates, b: DatabaseUpdates)
    requires
        a.wf(),
        b.wf(),
        rearranged(nodes_view(a.node_updates@), nodes_view(b.node_updates@)),
    ensures
        writes_root(a.content()) == writes_root(b.content()),
{
    lemma_rearranged_holds_same(nodes_view(a.node_updates@), nodes_view(b.node_updates@));
}

/// Every owned entity is kept by exactly one shard.
pub proof fn law_shards_keep_each_entity_once(key: Seq<u8>, trie: ShardTrie, shard: ShardId)
    requires
        names_owner(key),
    ensures
        belongs(key, shard, trie) <==> shard == trie.shard_of(key),
{
}

/// What a shard keeps of a list of entities: every one whose key is an owner of
/// sixteen bytes that the partition gives it, as it was and in order, and no
/// other.
pub proof fn law_a_shard_keeps_all_that_routes_to_it(
    s: Seq<(Seq<u8>, NodeContent)>,
    shard: ShardId,
    trie: ShardTrie,
)
    ensures
        kept(s, shard, trie) == s.filter(
            |e: (Seq<u8>, NodeContent)| e.0.len() == 16 && trie.shard_of(e.0) == shard,
        ),
{
    lemma_filter_by(
        s,
        |e: (Seq<u8>, NodeContent)| belongs(e.0, shard, trie),
        |e: (Seq<u8>, NodeContent)| e.0.len() == 16 && trie.shard_of(e.0) == shard,
    );
}

/// The root over no update is thirty-two zero bytes. Over any other it is the
/// digest of the canonical encoding, and there is none exactly where a list, a
/// key or a value is past the encoding's length limit.
pub proof fn law_a_root_is_its_encodings_digest(content: Map<Seq<u8>, NodeContent>)
    ensures
        content.dom() =~= Set::<Seq<u8>>::empty() ==> writes_root(content) is Some && writes_root(
            content,
        )->0.len() == 32 && forall|i: int|
            0 <= i < 32 ==> #[trigger] writes_root(content)->0[i] == 0,
        !(content.dom() =~= Set::<Seq<u8>>::empty()) && writes_root(content) is Some
            ==> writes_root(content)->0 == blake3_digest(updates_payload(content)),
        writes_root(content) is None ==> content.dom().len() > 0x0FFF_FFFF || exists|
            node: Seq<u8>,
        | #[trigger]
            content.contains_key(node) && (node.len() > 0x0FFF_FFFF || exists|p: u8| #[trigger]
                content[node].contains_key(p) && (content[node][p].1.dom().len() > 0x0FFF_FFFF
                    || exists|k: Seq<u8>| #[trigger]
                    content[node][p].1.contains_key(k) && (k.len() > 0x0FFF_FFFF || (
                    content[node][p].1[k] is Some && content[node][p].1[k]->0.len()
                        > 0x0FFF_FFFF)))),
        forall|node: Seq<u8>, p: u8, k: Seq<u8>|
            #![trigger content[node][p].1.contains_key(k)]
            content.contains_key(node) && content[node].contains_key(p)
                && content[node][p].1.contains_key(k) && (k.len() > 0x0FFF_FFFF || (
            content[node][p].1[k] is Some && content[node][p].1[k]->0.len() > 0x0FFF_FFFF))
                ==> writes_root(content) is None,
{
    if content.dom() =~= Set::<Seq<u8>>::empty() {
        assert(content =~= Map::empty());
    }
    assert forall|node: Seq<u8>, p: u8, k: Seq<u8>|
        #![trigger content[node][p].1.contains_key(k)]
        content.contains_key(node) && content[node].contains_key(p)
            && content[node][p].1.contains_key(k) && (k.len() > 0x0FFF_FFFF || (
        content[node][p].1[k] is Some && content[node][p].1[k]->0.len() > 0x0FFF_FFFF)) implies
        writes_root(content) is None by {
        if compact(content) {
            assert(compact_partition(content[node][p]));
        }
        if content == Map::<Seq<u8>, NodeContent>::empty() {
            assert(!content.contains_key(node));
        }
    }
    if writes_root(content) is None && content.dom().len() <= 0x0FFF_FFFF {
        assert(!compact(content));
        let node = choose|node: Seq<u8>|
            content.contains_key(node) && !(node.len() <= MAX_ENCODED_LEN && forall|p: u8|
                #[trigger] content[node].contains_key(p) ==> compact_partition(content[node][p]));
        assert(content.contains_key(node));
        if node.len() <= 0x0FFF_FFFF {
            let p = choose|p: u8|
                content[node].contains_key(p) && !compact_partition(content[node][p]);
            assert(content[node].contains_key(p));
            if content[node][p].1.dom().len() <= 0x0FFF_FFFF {
                let k = choose|k: Seq<u8>|
                    content[node][p].1.contains_key(k) && !(k.len() <= MAX_ENCODED_LEN && match
                        content[node][p].1[k] {
                        Some(value) => value.len() <= MAX_ENCODED_LEN,
                        None => true,
                    });
                assert(content[node][p].1.contains_key(k));
            }
        }
    }
}

} // verus!
