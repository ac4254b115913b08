//! Flat storage keys: the byte layout every backend and overlay shares.
//!
//! A key is the node key, the partition number in one byte, and the sort key.
use vstd::prelude::*;

use crate::order::{lex_lt, lex_lt_at};

verus! {

/// A partition of a node.
#[derive(Debug, PartialEq, Eq)]
pub struct DbPartitionKey {
    /// The node's key.
    pub node_key: Vec<u8>,
    /// The partition's number.
    pub partition_num: u8,
}

/// A key within a partition.
#[derive(Debug, PartialEq, Eq)]
pub struct DbSortKey(pub Vec<u8>);

impl DbPartitionKey {
    /// The bytes that every key of the partition starts with.
    pub open spec fn prefix(self) -> Seq<u8> {
        self.node_key@.push(self.partition_num)
    }
}

/// The flat storage key of a sort key in a partition.
#[must_use]
pub fn to_storage_key(partition_key: &DbPartitionKey, sort_key: &DbSortKey) -> (key: Vec<u8>)
    ensures
        key@ == partition_key.prefix() + sort_key.0@,
{
    let mut key: Vec<u8> = Vec::new();
    key.extend_from_slice(&partition_key.node_key);
    key.push(partition_key.partition_num);
    key.extend_from_slice(&sort_key.0);
    assert(key@ =~= partition_key.prefix() + sort_key.0@);
    key
}

/// The prefix that every storage key of a partition starts with.
#[must_use]
pub fn partition_prefix(partition_key: &DbPartitionKey) -> (prefix: Vec<u8>)
    ensures
        prefix@ == partition_key.prefix(),
{
    let mut prefix: Vec<u8> = Vec::new();
    prefix.extend_from_slice(&partition_key.node_key);
    prefix.push(partition_key.partition_num);
    assert(prefix@ =~= partition_key.prefix());
    prefix
}

/// Every byte from `i` on is the highest one.
pub open spec fn saturated_from(s: Seq<u8>, i: int) -> bool {
    forall|j: int| i <= j < s.len() ==> s[j] == 0xFF
}

/// The byte string with its last byte below the highest, at `i`, one up and
/// zeros behind it.
pub open spec fn carried(s: Seq<u8>, i: int) -> Seq<u8> {
    Seq::new(
        s.len(),
        |j: int|
            if j < i {
                s[j]
            } else if j == i {
                (s[j] + 1) as u8
            } else {
                0u8
            },
    )
}

/// The exclusive end key of a prefix scan; none when the prefix is all
/// highest bytes.
#[must_use]
pub fn next_prefix(prefix: &[u8]) -> (r: Option<Vec<u8>>)
    requires
        prefix@.len() > 0,
    ensures
        match r {
            Some(next) => exists|i: int|
                0 <= i < prefix@.len() && prefix@[i] < 0xFF && saturated_from(prefix@, i + 1)
                    && next@ == #[trigger] carried(prefix@, i),
            None => saturated_from(prefix@, 0),
        },
{
    let mut next: Vec<u8> = Vec::new();
    next.extend_from_slice(prefix);
    assert(next@ =~= prefix@);
    let mut i: usize = prefix.len();
    while i > 0
        invariant
            i <= prefix@.len(),
            next@.len() == prefix@.len(),
            forall|j: int| 0 <= j < i ==> next@[j] == prefix@[j],
            forall|j: int| i <= j < next@.len() ==> next@[j] == 0,
            saturated_from(prefix@, i as int),
        decreases i,
    {
        i = i - 1;
        if next[i] < 255 {
            let byte: u8 = next[i] + 1;
            next.set(i, byte);
            assert(next@ =~= carried(prefix@, i as int));
            return Some(next);
        }
        next.set(i, 0);
    }
    None
}

/// Every byte string under the prefix is in the scan's range: not before the
/// prefix, and before the end key.
pub proof fn law_next_prefix_covers(prefix: Seq<u8>, i: int, key: Seq<u8>)
    requires
        0 <= i < prefix.len(),
        prefix[i] < 0xFF,
        saturated_from(prefix, i + 1),
        prefix.is_prefix_of(key),
    ensures
        !lex_lt(key, prefix),
        lex_lt(key, carried(prefix, i)),
{
    assert forall|j: int| 0 <= j < prefix.len() implies key[j] == prefix[j] by {
        assert(key.subrange(0, prefix.len() as int)[j] == prefix[j]);
    }
    if lex_lt(key, prefix) {
        let k = choose|k: int| lex_lt_at(key, prefix, k);
        assert(key[k] == prefix[k]);
    }
    assert(lex_lt_at(key, carried(prefix, i), i));
}

/// The scan's range holds nothing else, among byte strings at least as long
/// as the prefix.
pub proof fn law_next_prefix_excludes(prefix: Seq<u8>, i: int, key: Seq<u8>)
    requires
        0 <= i < prefix.len(),
        prefix[i] < 0xFF,
        saturated_from(prefix, i + 1),
        key.len() >= prefix.len(),
        !lex_lt(key, prefix),
        lex_lt(key, carried(prefix, i)),
    ensures
        prefix.is_prefix_of(key),
{
    let end = carried(prefix, i);
    let k = choose|k: int| lex_lt_at(key, end, k);
    assert(k < key.len());
    if k > i {
        assert(end[k] == 0);
    }
    assert forall|j: int| 0 <= j < k implies key[j] == prefix[j] by {
        assert(key[j] == end[j]);
    }
    if k < i {
        assert(lex_lt_at(key, prefix, k));
    }
    if key[i] < prefix[i] {
        assert(lex_lt_at(key, prefix, i));
    }
    lemma_saturated_prefix(prefix, i, key);
}

/// A string that agrees up to and at a byte behind which the prefix holds
/// only highest bytes, and does not come before it, starts with it.
proof fn lemma_saturated_prefix(prefix: Seq<u8>, i: int, key: Seq<u8>)
    requires
        0 <= i < prefix.len(),
        i < key.len(),
        forall|j: int| 0 <= j <= i ==> key[j] == prefix[j],
        saturated_from(prefix, i + 1),
        !lex_lt(key, prefix),
    ensures
        prefix.is_prefix_of(key),
{
    lemma_saturated_step(prefix, i + 1, key);
    assert(key.subrange(0, prefix.len() as int) =~= prefix);
}

proof fn lemma_saturated_step(prefix: Seq<u8>, n: int, key: Seq<u8>)
    requires
        0 < n <= prefix.len(),
        n <= key.len(),
        forall|j: int| 0 <= j < n ==> key[j] == prefix[j],
        saturated_from(prefix, n),
        !lex_lt(key, prefix),
    ensures
        key.len() >= prefix.len(),
        forall|j: int| 0 <= j < prefix.len() ==> key[j] == prefix[j],
    decreases prefix.len() - n,
{
    if n < prefix.len() {
        if n == key.len() || key[n] < prefix[n] {
            assert(lex_lt_at(key, prefix, n));
        }
        lemma_saturated_step(prefix, n + 1, key);
    }
}

/// How a flat key lies in its bytes: the node's key, one byte for the partition,
/// and the sort key behind it.
pub proof fn law_a_flat_key_is_laid_out_in_order(partition: DbPartitionKey, sort_key: DbSortKey)
    ensures
        ({
            let key = partition.prefix() + sort_key.0@;
            let n = partition.node_key@.len() as int;
            &&& key.len() == n + 1 + sort_key.0@.len()
            &&& key.take(n) == partition.node_key@
            &&& key[n] == partition.partition_num
            &&& key.skip(n + 1) == sort_key.0@
        }),
{
    let key = partition.prefix() + sort_key.0@;
    let n = partition.node_key@.len() as int;
    assert(key.take(n) =~= partition.node_key@);
    assert(key.skip(n + 1) =~= sort_key.0@);
}

} // verus!
