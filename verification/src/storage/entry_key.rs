//! Keys of the ordered-collection entry index.
use vstd::prelude::*;

use crate::bytes::{
    be_bytes, be_value, lemma_be_canonical, lemma_be_order, lemma_be_round_trip, lemma_widths,
    u128_be, u128_from_be, u64_be, u64_from_be,
};
use crate::order::{lex_lt, lex_lt_at, rank_bytes, Rank};
use crate::types::SubstateKey;

verus! {

/// The encoded width of an entry's identity: owner, collection, order.
pub const ENTRY_KEY_LEN: usize = 64;

/// The encoded width of a version.
pub const VERSION_LEN: usize = 8;

/// An entry of an ordered collection.
#[derive(Clone, Copy, Debug, PartialEq, Eq)]
pub struct EntryKey {
    /// The collection's owner.
    pub owner: [u8; 32],
    /// The collection.
    pub collection: [u8; 16],
    /// The entry's order.
    pub order: u128,
}

impl EntryKey {
    /// Owner, collection, then the order highest byte first.
    pub open spec fn code(self) -> Seq<u8> {
        self.owner@ + self.collection@ + be_bytes(self.order as nat, 16)
    }
}

/// An entry key behind which the version stands, highest byte first.
pub open spec fn versioned_code(key: EntryKey, version: u64) -> Seq<u8> {
    key.code() + be_bytes(version as nat, 8)
}

/// The codec of entry keys.
#[derive(Clone, Copy, Debug, Default)]
pub struct EntryKeyCodec;

fn array_at<const N: usize>(bytes: &[u8], from: usize) -> (a: [u8; N])
    requires
        from + N <= bytes@.len(),
    ensures
        a@ == bytes@.subrange(from as int, from + N),
{
    let mut a: [u8; N] = [0; N];
    let end: usize = bytes.len();
    let mut i: usize = 0;
    while i < N
        invariant
            i <= N,
            end == bytes@.len(),
            from + N <= end,
            forall|j: int| 0 <= j < i ==> a@[j] == bytes@[from + j],
        decreases N - i,
    {
        a[i] = bytes[from + i];
        i = i + 1;
    }
    assert(a@ =~= bytes@.subrange(from as int, from + N));
    a
}

impl EntryKeyCodec {
    /// Appends the key's bytes.
    pub fn encode_to(&self, value: &EntryKey, buf: &mut Vec<u8>)
        ensures
            final(buf)@ == old(buf)@ + value.code(),
    {
        let order = u128_be(value.order);
        buf.extend_from_slice(value.owner.as_slice());
        buf.extend_from_slice(value.collection.as_slice());
        buf.extend_from_slice(order.as_slice());
        assert(buf@ =~= old(buf)@ + value.code());
    }

    /// The key's bytes.
    pub fn encode(&self, value: &EntryKey) -> (buf: Vec<u8>)
        ensures
            buf@ == value.code(),
            buf@.len() == ENTRY_KEY_LEN,
    {
        let mut buf: Vec<u8> = Vec::new();
        self.encode_to(value, &mut buf);
        proof {
            lemma_widths();
            lemma_be_round_trip(value.order as nat, 16);
            assert(buf@ =~= value.code());
        }
        buf
    }

    /// The key that the bytes are of.
    pub fn decode(&self, bytes: &[u8]) -> (key: EntryKey)
        requires
            bytes@.len() == ENTRY_KEY_LEN,
        ensures
            key.code() == bytes@,
    {
        let owner: [u8; 32] = array_at(bytes, 0);
        let collection: [u8; 16] = array_at(bytes, 32);
        let tail: [u8; 16] = array_at(bytes, 48);
        let order = u128_from_be(tail.as_slice());
        let key = EntryKey { owner, collection, order };
        proof {
            lemma_be_canonical(tail@);
            assert(key.code() =~= bytes@);
        }
        key
    }
}

/// The codec of versioned entry keys.
#[derive(Clone, Copy, Debug, Default)]
pub struct VersionedEntryKeyCodec;

impl VersionedEntryKeyCodec {
    /// Appends the bytes of a key and its version.
    pub fn encode_to(&self, value: &(EntryKey, u64), buf: &mut Vec<u8>)
        ensures
            final(buf)@ == old(buf)@ + versioned_code(value.0, value.1),
    {
        EntryKeyCodec.encode_to(&value.0, buf);
        let version = u64_be(value.1);
        buf.extend_from_slice(version.as_slice());
        assert(buf@ =~= old(buf)@ + versioned_code(value.0, value.1));
    }

    /// The bytes of a key and its version.
    pub fn encode(&self, value: &(EntryKey, u64)) -> (buf: Vec<u8>)
        ensures
            buf@ == versioned_code(value.0, value.1),
            buf@.len() == ENTRY_KEY_LEN + VERSION_LEN,
    {
        let mut buf: Vec<u8> = Vec::new();
        self.encode_to(value, &mut buf);
        proof {
            lemma_widths();
            lemma_be_round_trip(value.0.order as nat, 16);
            lemma_be_round_trip(value.1 as nat, 8);
            assert(buf@ =~= versioned_code(value.0, value.1));
        }
        buf
    }

    /// The key and version that the bytes are of.
    pub fn decode(&self, bytes: &[u8]) -> (r: (EntryKey, u64))
        requires
            bytes@.len() == ENTRY_KEY_LEN + VERSION_LEN,
        ensures
            versioned_code(r.0, r.1) == bytes@,
    {
        let head: [u8; 64] = array_at(bytes, 0);
        let tail: [u8; 8] = array_at(bytes, 64);
        let key = EntryKeyCodec.decode(head.as_slice());
        let version = u64_from_be(tail.as_slice());
        proof {
            lemma_be_canonical(tail@);
            assert(versioned_code(key, version) =~= bytes@);
        }
        (key, version)
    }
}

/// The codec of substate keys: the key's own 32 bytes.
#[derive(Clone, Copy, Debug, Default)]
pub struct SubstateKeyCodec;

impl SubstateKeyCodec {
    /// Appends the key's bytes.
    pub fn encode_to(&self, value: &SubstateKey, buf: &mut Vec<u8>)
        ensures
            final(buf)@ == old(buf)@ + value.bytes(),
    {
        let bytes = value.to_bytes();
        buf.extend_from_slice(bytes.as_slice());
        assert(buf@ =~= old(buf)@ + value.bytes());
    }

    /// The key that the bytes are of.
    pub fn decode(&self, bytes: &[u8]) -> (key: SubstateKey)
        requires
            bytes@.len() == 32,
        ensures
            key.bytes() == bytes@,
    {
        let owner: [u8; 16] = array_at(bytes, 0);
        let local: [u8; 16] = array_at(bytes, 16);
        let key = SubstateKey { owner, local };
        assert(key.bytes() =~= bytes@);
        key
    }
}

/// The bytes name one entry.
pub proof fn law_entry_code_determines_key(a: EntryKey, b: EntryKey)
    requires
        a.code() == b.code(),
    ensures
        a == b,
{
    lemma_widths();
    lemma_be_round_trip(a.order as nat, 16);
    lemma_be_round_trip(b.order as nat, 16);
    assert(a.owner@ =~= a.code().subrange(0, 32));
    assert(b.owner@ =~= b.code().subrange(0, 32));
    assert(a.collection@ =~= a.code().subrange(32, 48));
    assert(b.collection@ =~= b.code().subrange(32, 48));
    assert(be_bytes(a.order as nat, 16) =~= a.code().subrange(48, 64));
    assert(be_bytes(b.order as nat, 16) =~= b.code().subrange(48, 64));
    assert(a.owner =~= b.owner);
    assert(a.collection =~= b.collection);
}

/// The bytes name one entry and one version of it.
pub proof fn law_versioned_code_determines_key(a: EntryKey, v: u64, b: EntryKey, w: u64)
    requires
        versioned_code(a, v) == versioned_code(b, w),
    ensures
        a == b,
        v == w,
{
    lemma_widths();
    lemma_be_round_trip(a.order as nat, 16);
    lemma_be_round_trip(b.order as nat, 16);
    lemma_be_round_trip(v as nat, 8);
    lemma_be_round_trip(w as nat, 8);
    assert(a.code() =~= versioned_code(a, v).take(64));
    assert(b.code() =~= versioned_code(b, w).take(64));
    assert(be_bytes(v as nat, 8) =~= versioned_code(a, v).skip(64));
    assert(be_bytes(w as nat, 8) =~= versioned_code(b, w).skip(64));
    law_entry_code_determines_key(a, b);
}

/// A common head does not change which of two tails comes first.
pub proof fn lemma_lex_head(head: Seq<u8>, a: Seq<u8>, b: Seq<u8>)
    ensures
        lex_lt(head + a, head + b) == lex_lt(a, b),
{
    if lex_lt(a, b) {
        let i = choose|i: int| lex_lt_at(a, b, i);
        assert(lex_lt_at(head + a, head + b, head.len() + i));
    }
    if lex_lt(head + a, head + b) {
        let k = choose|k: int| lex_lt_at(head + a, head + b, k);
        let i = k - head.len();
        if i < 0 {
            assert((head + a)[k] == head[k]);
            assert((head + b)[k] == head[k]);
            assert(false);
        }
        assert forall|j: int| 0 <= j < i implies a[j] == b[j] by {
            assert((head + a)[head.len() + j] == (head + b)[head.len() + j]);
        }
        if i < a.len() {
            assert((head + a)[k] == a[i]);
            assert((head + b)[k] == b[i]);
        }
        assert(lex_lt_at(a, b, i));
    }
}

/// What follows strings of one length that differ does not change their order.
pub proof fn lemma_lex_tail(a: Seq<u8>, s: Seq<u8>, b: Seq<u8>, t: Seq<u8>)
    requires
        a.len() == b.len(),
        lex_lt(a, b),
    ensures
        lex_lt(a + s, b + t),
{
    let i = choose|i: int| lex_lt_at(a, b, i);
    assert(i < a.len());
    assert(lex_lt_at(a + s, b + t, i));
}

/// Entries of one collection sort by their order.
pub proof fn law_entries_sort_by_order(a: EntryKey, b: EntryKey)
    requires
        a.owner == b.owner,
        a.collection == b.collection,
    ensures
        lex_lt(a.code(), b.code()) <==> a.order < b.order,
{
    lemma_widths();
    lemma_be_order(a.order as nat, b.order as nat, 16);
    lemma_lex_head(
        a.owner@ + a.collection@,
        be_bytes(a.order as nat, 16),
        be_bytes(b.order as nat, 16),
    );
}

/// Versions of one entry sort ascending.
pub proof fn law_versions_sort_ascending(key: EntryKey, v: u64, w: u64)
    ensures
        lex_lt(versioned_code(key, v), versioned_code(key, w)) <==> v < w,
{
    lemma_widths();
    lemma_be_order(v as nat, w as nat, 8);
    lemma_lex_head(key.code(), be_bytes(v as nat, 8), be_bytes(w as nat, 8));
}

/// Nine bytes past every version.
pub open spec fn past_versions() -> Seq<u8> {
    Seq::new(9, |i: int| 0xFFu8)
}

/// The raw-key interval of `[lo, hi]` of one collection: it starts at the key
/// of `lo` and ends past every version of `hi`.
#[must_use]
pub fn entry_range_bounds(owner: [u8; 32], collection: [u8; 16], lo: u128, hi: u128) -> (r: (
    Vec<u8>,
    Vec<u8>,
))
    ensures
        r.0@ == (EntryKey { owner, collection, order: lo }).code(),
        r.1@ == (EntryKey { owner, collection, order: hi }).code() + past_versions(),
{
    let start = EntryKeyCodec.encode(&EntryKey { owner, collection, order: lo });
    let mut end = EntryKeyCodec.encode(&EntryKey { owner, collection, order: hi });
    let pad: [u8; 9] = [0xFF; 9];
    end.extend_from_slice(pad.as_slice());
    assert(pad@ =~= past_versions());
    (start, end)
}

/// The raw key stands in a half-open interval.
pub open spec fn in_interval(raw: Seq<u8>, start: Seq<u8>, end: Seq<u8>) -> bool {
    !lex_lt(raw, start) && lex_lt(raw, end)
}

/// The interval holds exactly the rows of the range, with or without a
/// version.
pub proof fn law_range_bounds_cover(key: EntryKey, version: u64, lo: u128, hi: u128)
    ensures
        ({
            let start = (EntryKey { owner: key.owner, collection: key.collection, order: lo }).code();
            let end = (EntryKey { owner: key.owner, collection: key.collection, order: hi }).code()
                + past_versions();
            &&& in_interval(key.code(), start, end) <==> lo <= key.order <= hi
            &&& in_interval(versioned_code(key, version), start, end) <==> lo <= key.order <= hi
        }),
{
    lemma_widths();
    let head = key.owner@ + key.collection@;
    let low = be_bytes(lo as nat, 16);
    let high = be_bytes(hi as nat, 16);
    let mine = be_bytes(key.order as nat, 16);
    let ver = be_bytes(version as nat, 8);
    lemma_be_round_trip(lo as nat, 16);
    lemma_be_round_trip(hi as nat, 16);
    lemma_be_round_trip(key.order as nat, 16);
    lemma_be_round_trip(version as nat, 8);
    lemma_be_order(key.order as nat, lo as nat, 16);
    lemma_be_order(lo as nat, key.order as nat, 16);
    lemma_be_order(key.order as nat, hi as nat, 16);
    lemma_be_order(hi as nat, key.order as nat, 16);
    let start = (EntryKey { owner: key.owner, collection: key.collection, order: lo }).code();
    let end = (EntryKey { owner: key.owner, collection: key.collection, order: hi }).code()
        + past_versions();
    assert(start == head + low);
    assert(end =~= head + (high + past_versions()));
    assert(key.code() == head + mine);
    assert(versioned_code(key, version) =~= head + (mine + ver));
    lemma_lex_head(head, mine, low);
    lemma_lex_head(head, mine + ver, low);
    lemma_lex_head(head, mine, high + past_versions());
    lemma_lex_head(head, mine + ver, high + past_versions());
    // Against the start.
    let empty = Seq::<u8>::empty();
    assert(low + empty =~= low);
    assert(mine + empty =~= mine);
    if key.order < lo {
        lemma_lex_tail(mine, ver, low, empty);
    } else if key.order == lo {
        assert(mine == low);
        if lex_lt(mine + ver, low) {
            let i = choose|i: int| lex_lt_at(mine + ver, low, i);
            assert((mine + ver)[i] == mine[i]);
        }
    } else {
        lemma_lex_tail(low, empty, mine, ver);
        crate::order::lemma_lex_asymmetric(low, mine + ver);
    }
    // Against the end.
    if key.order < hi {
        lemma_lex_tail(mine, empty, high, past_versions());
        lemma_lex_tail(mine, ver, high, past_versions());
    } else if key.order == hi {
        assert(mine == high);
        lemma_lex_head(mine, empty, past_versions());
        lemma_lex_head(mine, ver, past_versions());
        assert(lex_lt_at(empty, past_versions(), 0));
        lemma_below_past_versions(ver);
    } else {
        lemma_lex_tail(high, past_versions(), mine, empty);
        crate::order::lemma_lex_asymmetric(high + past_versions(), mine);
        lemma_lex_tail(high, past_versions(), mine, ver);
        crate::order::lemma_lex_asymmetric(high + past_versions(), mine + ver);
    }
}

/// Eight bytes come before nine that are full.
proof fn lemma_below_past_versions(ver: Seq<u8>)
    requires
        ver.len() == 8,
    ensures
        lex_lt(ver, past_versions()),
{
    if exists|i: int| 0 <= i < 8 && ver[i] != 0xFF {
        lemma_first_below(ver, 0);
    } else {
        assert(lex_lt_at(ver, past_versions(), 8));
    }
}

proof fn lemma_first_below(ver: Seq<u8>, i: int)
    requires
        ver.len() == 8,
        0 <= i < 8,
        forall|j: int| 0 <= j < i ==> ver[j] == 0xFF,
        exists|k: int| 0 <= k < 8 && ver[k] != 0xFF,
    ensures
        lex_lt(ver, past_versions()),
    decreases 8 - i,
{
    if ver[i] != 0xFF {
        assert(lex_lt_at(ver, past_versions(), i));
    } else {
        let k = choose|k: int| 0 <= k < 8 && ver[k] != 0xFF;
        assert(k > i);
        lemma_first_below(ver, i + 1);
    }
}

/// How many of the rows a walk yields: those before the first that reaches
/// `end`, and no more than `limit`.
pub open spec fn yielded(rows: Seq<(Vec<u8>, Vec<u8>)>, end: Seq<u8>, limit: Option<usize>, n: int) -> bool {
    &&& 0 <= n <= rows.len()
    &&& limit is Some ==> n <= limit->0
    &&& forall|i: int| 0 <= i < n ==> lex_lt((#[trigger] rows[i]).0@, end)
    &&& n == rows.len() || (limit is Some && n == limit->0) || !lex_lt(rows[n].0@, end)
}

/// Walks rows that ascend from the start of `[lo, hi]` of one collection,
/// yielding each order and value up to the end of the range, at most `limit`
/// of them.
pub fn scan_entries(
    rows: &Vec<(Vec<u8>, Vec<u8>)>,
    owner: [u8; 32],
    collection: [u8; 16],
    hi: u128,
    limit: Option<usize>,
) -> (hits: Vec<(u128, Vec<u8>)>)
    requires
        forall|i: int| 0 <= i < rows@.len() ==> (#[trigger] rows@[i]).0@.len() == ENTRY_KEY_LEN,
    ensures
        yielded(
            rows@,
            (EntryKey { owner, collection, order: hi }).code() + past_versions(),
            limit,
            hits@.len() as int,
        ),
        forall|i: int|
            0 <= i < hits@.len() ==> (#[trigger] hits@[i]).0 == be_value(
                rows@[i].0@.subrange(48, 64),
            ) && hits@[i].1@ == rows@[i].1@,
{
    let (_, end) = entry_range_bounds(owner, collection, 0, hi);
    let mut hits: Vec<(u128, Vec<u8>)> = Vec::new();
    let mut i: usize = 0;
    while i < rows.len()
        invariant
            i <= rows@.len(),
            hits@.len() == i,
            limit is Some ==> i <= limit->0,
            end@ == (EntryKey { owner, collection, order: hi }).code() + past_versions(),
            forall|j: int| 0 <= j < rows@.len() ==> (#[trigger] rows@[j]).0@.len() == ENTRY_KEY_LEN,
            forall|j: int| 0 <= j < i ==> lex_lt((#[trigger] rows@[j]).0@, end@),
            forall|j: int|
                0 <= j < i ==> (#[trigger] hits@[j]).0 == be_value(rows@[j].0@.subrange(48, 64))
                    && hits@[j].1@ == rows@[j].1@,
        decreases rows@.len() - i,
    {
        let full = match limit {
            Some(cap) => i >= cap,
            None => false,
        };
        if full {
            return hits;
        }
        match rank_bytes(rows[i].0.as_slice(), end.as_slice()) {
            Rank::Before => {},
            _ => {
                proof {
                    crate::order::lemma_lex_irreflexive(end@);
                    if lex_lt(end@, rows@[i as int].0@) {
                        crate::order::lemma_lex_asymmetric(end@, rows@[i as int].0@);
                    }
                }
                return hits;
            },
        }
        let key = EntryKeyCodec.decode(rows[i].0.as_slice());
        let value = crate::storage::canonical::copy_bytes(&rows[i].1);
        proof {
            lemma_widths();
            lemma_be_round_trip(key.order as nat, 16);
            assert(rows@[i as int].0@.subrange(48, 64) =~= be_bytes(key.order as nat, 16));
        }
        hits.push((key.order, value));
        i = i + 1;
    }
    hits
}

/// How an entry's key lies in its bytes: the owner, the collection, the order
/// highest byte first, and behind them the version highest byte first.
pub proof fn law_an_entry_key_is_laid_out_in_order(key: EntryKey, version: u64)
    ensures
        key.code().len() == 64,
        key.code().subrange(0, 32) == key.owner@,
        key.code().subrange(32, 48) == key.collection@,
        be_value(key.code().subrange(48, 64)) == key.order,
        versioned_code(key, version).len() == 72,
        versioned_code(key, version).subrange(0, 64) == key.code(),
        be_value(versioned_code(key, version).subrange(64, 72)) == version,
{
    lemma_widths();
    lemma_be_round_trip(key.order as nat, 16);
    lemma_be_round_trip(version as nat, 8);
    assert(key.code().subrange(0, 32) =~= key.owner@);
    assert(key.code().subrange(32, 48) =~= key.collection@);
    assert(key.code().subrange(48, 64) =~= be_bytes(key.order as nat, 16));
    assert(versioned_code(key, version).subrange(0, 64) =~= key.code());
    assert(versioned_code(key, version).subrange(64, 72) =~= be_bytes(version as nat, 8));
}

/// A scan of a collection yields the whole range: of rows that ascend by their
/// order, every one up to the highest order of the range, unless the limit comes
/// first, and none past it.
pub proof fn law_a_scan_yields_the_whole_range(
    rows: Seq<(Vec<u8>, Vec<u8>)>,
    owner: [u8; 32],
    collection: [u8; 16],
    orders: Seq<u128>,
    hi: u128,
    limit: Option<usize>,
    n: int,
)
    requires
        orders.len() == rows.len(),
        forall|i: int|
            0 <= i < rows.len() ==> (#[trigger] rows[i]).0@ == (EntryKey {
                owner,
                collection,
                order: orders[i],
            }).code(),
        forall|i: int, j: int|
            0 <= i < j < orders.len() ==> #[trigger] orders[i] < #[trigger] orders[j],
        yielded(
            rows,
            (EntryKey { owner, collection, order: hi }).code() + past_versions(),
            limit,
            n,
        ),
    ensures
        0 <= n <= rows.len(),
        limit is Some ==> n <= limit->0,
        forall|i: int| 0 <= i < n ==> #[trigger] orders[i] <= hi,
        limit is None || n < limit->0 ==> forall|i: int|
            n <= i < rows.len() ==> #[trigger] orders[i] > hi,
{
    let end = (EntryKey { owner, collection, order: hi }).code() + past_versions();
    assert forall|i: int| 0 <= i < rows.len() implies lex_lt((#[trigger] rows[i]).0@, end) == (
    orders[i] <= hi) by {
        let key = EntryKey { owner, collection, order: orders[i] };
        law_range_bounds_cover(key, 0, 0, hi);
        let low = EntryKey { owner, collection, order: 0 };
        law_entries_sort_by_order(key, low);
        assert(!lex_lt(key.code(), low.code()));
    }
    assert forall|i: int| 0 <= i < n implies #[trigger] orders[i] <= hi by {
        assert(lex_lt(rows[i].0@, end));
    }
    if limit is None || n < limit->0 {
        if n < rows.len() {
            assert(!lex_lt(rows[n].0@, end));
            assert(orders[n] > hi);
        }
    }
}

} // verus!
