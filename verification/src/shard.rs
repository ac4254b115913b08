//! Shards and the trie that assigns owner prefixes to them.
use vstd::arithmetic::power2::{lemma_pow2_pos, lemma_pow2_strictly_increases, lemma_pow2_unfold, pow2};
use vstd::prelude::*;

use crate::order::{OrdKey, Rank};

verus! {

/// A shard: a leaf of the prefix trie, by its depth and the bits that lead to
/// it, highest first.
#[derive(Clone, Copy, Debug, PartialEq, Eq, PartialOrd, Ord, Hash, Structural)]
pub struct ShardId {
    /// How many prefix bits the shard fixes.
    pub depth: u32,
    /// Those bits, as a number.
    pub path: u64,
}

impl ShardId {
    /// The leaf at `depth` that `path` leads to.
    pub fn leaf(depth: u32, path: u64) -> (s: Self)
        ensures
            s == (ShardId { depth, path }),
    {
        ShardId { depth, path }
    }

    /// The one shard of an undivided network.
    pub fn root() -> (s: Self)
        ensures
            s == (ShardId { depth: 0, path: 0 }),
    {
        ShardId { depth: 0, path: 0 }
    }
}

impl OrdKey for ShardId {
    open spec fn before(self, other: Self) -> bool {
        self.depth < other.depth || (self.depth == other.depth && self.path < other.path)
    }

    proof fn law_irreflexive(a: Self) {
    }

    proof fn law_transitive(a: Self, b: Self, c: Self) {
    }

    proof fn law_total(a: Self, b: Self) {
    }

    fn rank(&self, other: &Self) -> (r: Rank) {
        if self.depth < other.depth {
            Rank::Before
        } else if self.depth > other.depth {
            Rank::After
        } else if self.path < other.path {
            Rank::Before
        } else if self.path > other.path {
            Rank::After
        } else {
            Rank::Same
        }
    }
}

/// Bit `i` of a byte string, highest bit of the first byte first.
pub open spec fn bit_at(s: Seq<u8>, i: int) -> int {
    ((s[i / 8] >> ((7 - i % 8) as u8)) & 1u8) as int
}

/// The number that the first `n` bits spell.
pub open spec fn top_bits(s: Seq<u8>, n: nat) -> nat
    decreases n,
{
    if n == 0 {
        0
    } else {
        2 * top_bits(s, (n - 1) as nat) + (if bit_at(s, n - 1) == 1 {
            1nat
        } else {
            0nat
        })
    }
}

/// The prefix lies in the shard's span.
pub open spec fn spans(shard: ShardId, prefix: Seq<u8>) -> bool {
    top_bits(prefix, shard.depth as nat) == shard.path
}

/// A number of `n` bits is below two to the power of `n`.
pub proof fn lemma_top_bits_bound(s: Seq<u8>, n: nat)
    ensures
        top_bits(s, n) < pow2(n),
    decreases n,
{
    if n > 0 {
        lemma_top_bits_bound(s, (n - 1) as nat);
        lemma_pow2_unfold(n);
    } else {
        lemma_pow2_pos(0);
    }
}

/// Whether bit `i` of an owner prefix is set.
pub fn prefix_bit(prefix: &[u8], i: usize) -> (r: bool)
    requires
        i < 8 * prefix@.len(),
    ensures
        r == (bit_at(prefix@, i as int) == 1),
{
    let byte: u8 = prefix[i / 8];
    let shift: u8 = (7 - i % 8) as u8;
    (byte >> shift) & 1u8 == 1u8
}

/// The number that the first `n` bits of a prefix spell.
pub fn leading_bits(prefix: &[u8; 16], n: u32) -> (x: u64)
    requires
        n <= 63,
    ensures
        x == top_bits(prefix@, n as nat),
{
    let mut x: u64 = 0;
    let mut i: u32 = 0;
    while i < n
        invariant
            i <= n <= 63,
            x == top_bits(prefix@, i as nat),
        decreases n - i,
    {
        proof {
            lemma_top_bits_bound(prefix@, i as nat);
            if i < 62 {
                lemma_pow2_strictly_increases(i as nat, 62);
            }
            vstd::arithmetic::power2::lemma2_to64_rest();
        }
        let bit = prefix_bit(prefix, i as usize);
        x = 2 * x + if bit {
            1
        } else {
            0
        };
        i = i + 1;
    }
    x
}

/// How many times `count` halves down to one. `None` where it is no power of
/// two.
pub fn exact_log2(count: u64) -> (r: Option<u32>)
    ensures
        match r {
            Some(d) => d <= 63 && count == pow2(d as nat),
            None => forall|d: nat| count != #[trigger] pow2(d),
        },
{
    if count == 0 {
        proof {
            assert forall|d: nat| count != #[trigger] pow2(d) by {
                lemma_pow2_pos(d);
            }
        }
        return None;
    }
    let mut rest: u64 = count;
    let mut depth: u32 = 0;
    proof {
        vstd::arithmetic::power2::lemma2_to64_rest();
        vstd::arithmetic::power2::lemma2_to64();
        assert(rest as nat * pow2(0) == count) by (nonlinear_arith)
            requires
                rest == count,
                pow2(0) == 1,
        ;
    }
    while rest % 2 == 0
        invariant
            rest > 0,
            depth <= 63,
            rest as nat * pow2(depth as nat) == count,
            pow2(63) == 0x8000_0000_0000_0000,
            pow2(64) == 0x1_0000_0000_0000_0000,
        decreases rest,
    {
        proof {
            let d = depth as nat;
            lemma_pow2_unfold((d + 1) as nat);
            let half = (rest / 2) as nat;
            assert(half * pow2((d + 1) as nat) == count) by (nonlinear_arith)
                requires
                    rest as nat * pow2(d) == count,
                    rest == 2 * half,
                    pow2((d + 1) as nat) == 2 * pow2(d),
            ;
            if d == 63 {
                assert(count >= pow2(64)) by (nonlinear_arith)
                    requires
                        half * pow2((d + 1) as nat) == count,
                        half >= 1,
                        d == 63,
                ;
            }
        }
        rest = rest / 2;
        depth = depth + 1;
    }
    if rest != 1 {
        proof {
            assert forall|d: nat| count != #[trigger] pow2(d) by {
                lemma_odd_part(rest as nat, depth as nat, d);
            }
        }
        return None;
    }
    assert(pow2(depth as nat) == count) by (nonlinear_arith)
        requires
            rest as nat * pow2(depth as nat) == count,
            rest == 1,
    ;
    Some(depth)
}

/// Different depths have different leaf counts.
pub proof fn lemma_pow2_injective(a: nat, b: nat)
    requires
        pow2(a) == pow2(b),
    ensures
        a == b,
{
    if a < b {
        lemma_pow2_strictly_increases(a, b);
    } else if b < a {
        lemma_pow2_strictly_increases(b, a);
    }
}

/// The partition of the prefix space into shards.
pub struct ShardTrie {
    /// The leaves.
    pub leaves: Vec<ShardId>,
}

impl ShardTrie {
    /// Every prefix lies in the span of exactly one leaf.
    pub open spec fn wf(&self) -> bool {
        &&& forall|i: int| 0 <= i < self.leaves@.len() ==> (#[trigger] self.leaves@[i]).depth <= 63
        &&& forall|p: [u8; 16]| #[trigger] self.owned(p@)
        &&& forall|p: [u8; 16], i: int, j: int|
            0 <= i < self.leaves@.len() && 0 <= j < self.leaves@.len() && #[trigger] spans(
                self.leaves@[i],
                p@,
            ) && #[trigger] spans(self.leaves@[j], p@) ==> i == j
    }

    /// Some leaf spans the prefix.
    pub open spec fn owned(&self, prefix: Seq<u8>) -> bool {
        exists|i: int| 0 <= i < self.leaves@.len() && #[trigger] spans(self.leaves@[i], prefix)
    }

    /// The shard that owns a prefix.
    pub open spec fn shard_of(&self, prefix: Seq<u8>) -> ShardId {
        self.leaves@[choose|i: int|
            0 <= i < self.leaves@.len() && #[trigger] spans(self.leaves@[i], prefix)]
    }

    /// The trie of an undivided network.
    pub fn single() -> (t: Self)
        ensures
            t.wf(),
            t.leaves@ == seq![ShardId { depth: 0, path: 0 }],
    {
        proof {
            vstd::arithmetic::power2::lemma2_to64();
        }
        let t = Self::uniform(0);
        assert(t.leaves@ =~= seq![ShardId { depth: 0, path: 0 }]);
        t
    }

    /// The trie whose leaves all stand at `depth`.
    pub fn uniform(depth: u32) -> (t: Self)
        requires
            depth <= 63,
        ensures
            t.wf(),
            t.leaves@ == Seq::new(pow2(depth as nat), |i: int| ShardId { depth, path: i as u64 }),
    {
        let mut count: u64 = 1;
        let mut d: u32 = 0;
        proof {
            vstd::arithmetic::power2::lemma2_to64_rest();
            vstd::arithmetic::power2::lemma2_to64();
        }
        while d < depth
            invariant
                d <= depth <= 63,
                count == pow2(d as nat),
                pow2(63) == 0x8000_0000_0000_0000,
            decreases depth - d,
        {
            proof {
                lemma_pow2_unfold((d + 1) as nat);
                if d + 1 < 63 {
                    lemma_pow2_strictly_increases((d + 1) as nat, 63);
                }
            }
            count = 2 * count;
            d = d + 1;
        }
        let mut leaves: Vec<ShardId> = Vec::new();
        let mut i: u64 = 0;
        while i < count
            invariant
                i <= count,
                leaves@.len() == i,
                forall|j: int| 0 <= j < i ==> leaves@[j] == (ShardId { depth, path: j as u64 }),
            decreases count - i,
        {
            leaves.push(ShardId { depth, path: i });
            i = i + 1;
        }
        let t = ShardTrie { leaves };
        proof {
            assert(t.leaves@ =~= Seq::new(
                pow2(depth as nat),
                |i: int| ShardId { depth, path: i as u64 },
            ));
            assert forall|p: [u8; 16]| #[trigger] t.owned(p@) by {
                lemma_top_bits_bound(p@, depth as nat);
                let k = top_bits(p@, depth as nat) as int;
                assert(spans(t.leaves@[k], p@));
            }
        }
        t
    }

    /// The trie with `count` leaves at one depth. `None` where `count` is no
    /// power of two.
    pub fn uniform_from_count(count: u64) -> (r: Option<Self>)
        ensures
            match r {
                Some(t) => t.wf() && exists|d: u32|
                    d <= 63 && count == #[trigger] pow2(d as nat) && t.leaves@ == Seq::new(
                        pow2(d as nat),
                        |i: int| ShardId { depth: d, path: i as u64 },
                    ),
                None => forall|d: nat| count != #[trigger] pow2(d),
            },
    {
        match exact_log2(count) {
            Some(depth) => Some(Self::uniform(depth)),
            None => None,
        }
    }

    /// The shard that owns a prefix.
    pub fn shard_for_prefix(&self, prefix: &[u8; 16]) -> (s: ShardId)
        requires
            self.wf(),
        ensures
            s == self.shard_of(prefix@),
            spans(s, prefix@),
            self.leaves@.contains(s),
    {
        let mut i: usize = 0;
        assert(self.owned(prefix@));
        while i < self.leaves.len()
            invariant
                i <= self.leaves.len(),
                self.wf(),
                self.owned(prefix@),
                forall|j: int| 0 <= j < i ==> !spans(#[trigger] self.leaves@[j], prefix@),
            decreases self.leaves.len() - i,
        {
            let leaf = self.leaves[i];
            if leading_bits(prefix, leaf.depth) == leaf.path {
                assert(spans(self.leaves@[i as int], prefix@));
                assert(self.leaves@.contains(self.leaves@[i as int]));
                return leaf;
            }
            i = i + 1;
        }
        proof {
            let k = choose|k: int|
                0 <= k < self.leaves@.len() && #[trigger] spans(self.leaves@[k], prefix@);
            assert(!spans(self.leaves@[k], prefix@));
        }
        ShardId { depth: 0, path: 0 }
    }
}

/// An odd number above one times a power of two is no power of two.
proof fn lemma_odd_part(odd: nat, d: nat, e: nat)
    requires
        odd % 2 == 1,
        odd > 1,
    ensures
        odd * pow2(d) != pow2(e),
    decreases d,
{
    if d == 0 {
        vstd::arithmetic::power2::lemma2_to64();
        assert(odd * pow2(0) == odd) by (nonlinear_arith)
            requires
                pow2(0) == 1,
        ;
        if e > 0 {
            lemma_pow2_unfold(e);
        }
    } else {
        lemma_pow2_unfold(d);
        let half = pow2((d - 1) as nat);
        assert(odd * pow2(d) == 2 * (odd * half)) by (nonlinear_arith)
            requires
                pow2(d) == 2 * half,
        ;
        if e > 0 {
            lemma_pow2_unfold(e);
            lemma_odd_part(odd, (d - 1) as nat, (e - 1) as nat);
        } else {
            vstd::arithmetic::power2::lemma2_to64();
        }
    }
}

/// Shards partition the prefixes: a leaf spans a prefix exactly when it is
/// the shard that owns it.
pub proof fn law_shards_partition(trie: ShardTrie, prefix: [u8; 16], i: int)
    requires
        trie.wf(),
        0 <= i < trie.leaves@.len(),
    ensures
        spans(trie.leaves@[i], prefix@) <==> trie.leaves@[i] == trie.shard_of(prefix@),
{
    assert(trie.owned(prefix@));
    let k = choose|k: int|
        0 <= k < trie.leaves@.len() && #[trigger] spans(trie.leaves@[k], prefix@);
    assert(spans(trie.leaves@[k], prefix@));
}

/// Eight bits spell a byte.
proof fn lemma_byte_bits(b: u8)
    ensures
        128 * ((b >> 7u8) & 1u8) + 64 * ((b >> 6u8) & 1u8) + 32 * ((b >> 5u8) & 1u8) + 16 * ((b
            >> 4u8) & 1u8) + 8 * ((b >> 3u8) & 1u8) + 4 * ((b >> 2u8) & 1u8) + 2 * ((b >> 1u8)
            & 1u8) + ((b >> 0u8) & 1u8) == b,
        (b >> 7u8) & 1u8 <= 1,
        (b >> 6u8) & 1u8 <= 1,
        (b >> 5u8) & 1u8 <= 1,
        (b >> 4u8) & 1u8 <= 1,
        (b >> 3u8) & 1u8 <= 1,
        (b >> 2u8) & 1u8 <= 1,
        (b >> 1u8) & 1u8 <= 1,
        (b >> 0u8) & 1u8 <= 1,
{
    assert(128 * ((b >> 7u8) & 1u8) + 64 * ((b >> 6u8) & 1u8) + 32 * ((b >> 5u8) & 1u8) + 16 * ((b
        >> 4u8) & 1u8) + 8 * ((b >> 3u8) & 1u8) + 4 * ((b >> 2u8) & 1u8) + 2 * ((b >> 1u8) & 1u8)
        + ((b >> 0u8) & 1u8) == b && (b >> 7u8) & 1u8 <= 1 && (b >> 6u8) & 1u8 <= 1 && (b >> 5u8)
        & 1u8 <= 1 && (b >> 4u8) & 1u8 <= 1 && (b >> 3u8) & 1u8 <= 1 && (b >> 2u8) & 1u8 <= 1 && (b
        >> 1u8) & 1u8 <= 1 && (b >> 0u8) & 1u8 <= 1) by (bit_vector);
}

/// The first bits of a prefix spell it highest byte first: each further byte
/// shifts what was spelled by 256 and adds itself, and dropping the last bit
/// halves.
pub proof fn law_leading_bits_spell_the_prefix(s: Seq<u8>, k: nat, n: nat)
    requires
        k < s.len(),
    ensures
        top_bits(s, 0) == 0,
        top_bits(s, 8 * (k + 1)) == 256 * top_bits(s, 8 * k) + s[k as int],
        top_bits(s, n) == top_bits(s, n + 1) / 2,
{
    let b = s[k as int];
    lemma_byte_bits(b);
    let m: nat = 8 * k;
    assert forall|j: int| 0 <= j < 8 implies (#[trigger] (m + j)) / 8 == k && (m + j) % 8 == j by {}
    assert(m / 8 == k && m % 8 == 0);
    assert((m + 1) / 8 == k && (m + 1) % 8 == 1);
    assert((m + 2) / 8 == k && (m + 2) % 8 == 2);
    assert((m + 3) / 8 == k && (m + 3) % 8 == 3);
    assert((m + 4) / 8 == k && (m + 4) % 8 == 4);
    assert((m + 5) / 8 == k && (m + 5) % 8 == 5);
    assert((m + 6) / 8 == k && (m + 6) % 8 == 6);
    assert((m + 7) / 8 == k && (m + 7) % 8 == 7);
    assert(top_bits(s, m + 1) == 2 * top_bits(s, m) + ((b >> 7u8) & 1u8) as nat);
    assert(top_bits(s, m + 2) == 2 * top_bits(s, m + 1) + ((b >> 6u8) & 1u8) as nat);
    assert(top_bits(s, m + 3) == 2 * top_bits(s, m + 2) + ((b >> 5u8) & 1u8) as nat);
    assert(top_bits(s, m + 4) == 2 * top_bits(s, m + 3) + ((b >> 4u8) & 1u8) as nat);
    assert(top_bits(s, m + 5) == 2 * top_bits(s, m + 4) + ((b >> 3u8) & 1u8) as nat);
    assert(top_bits(s, m + 6) == 2 * top_bits(s, m + 5) + ((b >> 2u8) & 1u8) as nat);
    assert(top_bits(s, m + 7) == 2 * top_bits(s, m + 6) + ((b >> 1u8) & 1u8) as nat);
    assert(top_bits(s, m + 8) == 2 * top_bits(s, m + 7) + ((b >> 0u8) & 1u8) as nat);
}

/// The shard that owns a prefix is a leaf, and the leaf's path is what the
/// prefix's leading bits spell at the leaf's depth; no other leaf's is.
pub proof fn law_an_owner_leads_to_its_shard(trie: ShardTrie, prefix: [u8; 16])
    requires
        trie.wf(),
    ensures
        trie.leaves@.contains(trie.shard_of(prefix@)),
        top_bits(prefix@, trie.shard_of(prefix@).depth as nat) == trie.shard_of(prefix@).path,
        forall|i: int|
            0 <= i < trie.leaves@.len() && #[trigger] trie.leaves@[i] != trie.shard_of(prefix@)
                ==> top_bits(prefix@, trie.leaves@[i].depth as nat) != trie.leaves@[i].path,
{
    assert(trie.owned(prefix@));
    let k = choose|k: int|
        0 <= k < trie.leaves@.len() && #[trigger] spans(trie.leaves@[k], prefix@);
    assert(spans(trie.leaves@[k], prefix@));
    assert(trie.leaves@[k] == trie.shard_of(prefix@)) by {
        law_shards_partition(trie, prefix, k);
    }
    assert forall|i: int|
        0 <= i < trie.leaves@.len() && #[trigger] trie.leaves@[i] != trie.shard_of(
            prefix@,
        ) implies top_bits(prefix@, trie.leaves@[i].depth as nat) != trie.leaves@[i].path by {
        law_shards_partition(trie, prefix, i);
    }
}

} // verus!
