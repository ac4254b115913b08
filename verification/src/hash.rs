//! The protocol hash: blake3, domain-separated and length-framed.
use vstd::prelude::*;

use crate::bytes::{le_bytes, le_value, lemma_le_round_trip, lemma_widths, u64_le};

verus! {

/// The blake3 digest of a byte string.
pub uninterp spec fn blake3_digest(bytes: Seq<u8>) -> Seq<u8>;

/// Calls `blake3::hash`. Claims that the result is the digest of the bytes it
/// was given.
#[verifier::external_body]
pub(crate) fn blake3_hash(bytes: &[u8]) -> (d: [u8; 32])
    ensures
        d@ == blake3_digest(bytes@),
{
    *blake3::hash(bytes).as_bytes()
}

/// The hash behind the kernel's hashing host function and the derivation of
/// fresh identities.
pub fn protocol_hash(data: &[u8]) -> (d: [u8; 32])
    ensures
        d@ == blake3_digest(data@),
{
    blake3_hash(data)
}

/// A 32-byte digest.
#[derive(Clone, Copy, Debug, PartialEq, Eq, PartialOrd, Ord, Hash)]
pub struct Hash32(pub [u8; 32]);

/// A byte string behind its length in eight bytes, lowest first.
pub open spec fn framed(part: Seq<u8>) -> Seq<u8> {
    le_bytes(part.len(), 8) + part
}

/// Each part framed, one after the other.
pub open spec fn framed_all(parts: Seq<Seq<u8>>) -> Seq<u8>
    decreases parts.len(),
{
    if parts.len() == 0 {
        Seq::empty()
    } else {
        framed_all(parts.drop_last()) + framed(parts.last())
    }
}

/// What the protocol hash covers: the framed domain, then the framed parts.
pub open spec fn preimage(domain: Seq<u8>, parts: Seq<Seq<u8>>) -> Seq<u8> {
    framed(domain) + framed_all(parts)
}

/// The protocol hash of parts under a domain.
pub open spec fn protocol_digest(domain: Seq<u8>, parts: Seq<Seq<u8>>) -> Seq<u8> {
    blake3_digest(preimage(domain, parts))
}

/// The bytes of each part.
pub open spec fn part_views(parts: Seq<&[u8]>) -> Seq<Seq<u8>> {
    parts.map_values(|p: &[u8]| p@)
}

fn push_framed(buf: &mut Vec<u8>, part: &[u8])
    ensures
        final(buf)@ == old(buf)@ + framed(part@),
{
    let ghost before = buf@;
    let len = u64_le(part.len() as u64);
    buf.extend_from_slice(&len);
    buf.extend_from_slice(part);
    assert(buf@ =~= before + framed(part@));
}

/// The protocol hash: blake3 over the length-framed domain and parts.
#[derive(Clone, Copy, Debug, Default)]
pub struct ProtocolHasher;

impl ProtocolHasher {
    /// The digest of `parts` under `domain`.
    pub fn hash(&self, domain: &[u8], parts: &[&[u8]]) -> (d: Hash32)
        ensures
            d.0@ == protocol_digest(domain@, part_views(parts@)),
    {
        let mut buf: Vec<u8> = Vec::new();
        push_framed(&mut buf, domain);
        let ghost all = part_views(parts@);
        let mut i: usize = 0;
        assert(all.take(0) =~= Seq::<Seq<u8>>::empty());
        assert(buf@ =~= framed(domain@) + framed_all(all.take(0)));
        while i < parts.len()
            invariant
                i <= parts.len(),
                all == part_views(parts@),
                buf@ == framed(domain@) + framed_all(all.take(i as int)),
            decreases parts.len() - i,
        {
            push_framed(&mut buf, parts[i]);
            proof {
                assert(all.take(i + 1).drop_last() =~= all.take(i as int));
                assert(buf@ =~= framed(domain@) + framed_all(all.take(i + 1)));
            }
            i = i + 1;
        }
        assert(all.take(i as int) =~= all);
        Hash32(blake3_hash(&buf))
    }
}

/// The framed parts open with the first one.
pub proof fn lemma_framed_front(parts: Seq<Seq<u8>>)
    requires
        parts.len() > 0,
    ensures
        framed_all(parts) == framed(parts[0]) + framed_all(parts.skip(1)),
    decreases parts.len(),
{
    if parts.len() == 1 {
        assert(parts.drop_last() =~= Seq::<Seq<u8>>::empty());
        assert(parts.skip(1) =~= Seq::<Seq<u8>>::empty());
        assert(framed_all(parts) =~= framed(parts[0]) + framed_all(parts.skip(1)));
    } else {
        lemma_framed_front(parts.drop_last());
        assert(parts.drop_last().skip(1) =~= parts.skip(1).drop_last());
        assert(parts.skip(1).last() == parts.last());
        assert(framed_all(parts) =~= framed(parts[0]) + framed_all(parts.skip(1)));
    }
}

/// A framed part and what follows it can be told apart.
pub proof fn lemma_framed_splits(a: Seq<u8>, b: Seq<u8>, x: Seq<u8>, y: Seq<u8>)
    requires
        a.len() <= u64::MAX,
        b.len() <= u64::MAX,
        framed(a) + x == framed(b) + y,
    ensures
        a == b,
        x == y,
{
    lemma_widths();
    lemma_le_round_trip(a.len(), 8);
    lemma_le_round_trip(b.len(), 8);
    let s = framed(a) + x;
    let t = framed(b) + y;
    assert(s.take(8) =~= le_bytes(a.len(), 8));
    assert(t.take(8) =~= le_bytes(b.len(), 8));
    assert(a.len() == b.len());
    assert(s.subrange(8, 8 + a.len() as int) =~= a);
    assert(t.subrange(8, 8 + b.len() as int) =~= b);
    assert(s.skip(8 + a.len() as int) =~= x);
    assert(t.skip(8 + b.len() as int) =~= y);
}

/// Part boundaries are semantic: what is hashed determines the domain and
/// every part.
pub proof fn law_preimage_determines_parts(
    d: Seq<u8>,
    p: Seq<Seq<u8>>,
    e: Seq<u8>,
    q: Seq<Seq<u8>>,
)
    requires
        preimage(d, p) == preimage(e, q),
        d.len() <= u64::MAX,
        e.len() <= u64::MAX,
        forall|i: int| 0 <= i < p.len() ==> (#[trigger] p[i]).len() <= u64::MAX,
        forall|i: int| 0 <= i < q.len() ==> (#[trigger] q[i]).len() <= u64::MAX,
    ensures
        d == e,
        p == q,
{
    lemma_framed_splits(d, e, framed_all(p), framed_all(q));
    lemma_parts_equal(p, q);
}

proof fn lemma_parts_equal(p: Seq<Seq<u8>>, q: Seq<Seq<u8>>)
    requires
        framed_all(p) == framed_all(q),
        forall|i: int| 0 <= i < p.len() ==> (#[trigger] p[i]).len() <= u64::MAX,
        forall|i: int| 0 <= i < q.len() ==> (#[trigger] q[i]).len() <= u64::MAX,
    ensures
        p == q,
    decreases p.len(),
{
    lemma_widths();
    if p.len() == 0 {
        if q.len() > 0 {
            lemma_framed_front(q);
            lemma_le_round_trip(q[0].len(), 8);
            assert(framed_all(q).len() >= 8);
        }
        assert(p =~= q);
    } else if q.len() == 0 {
        lemma_framed_front(p);
        lemma_le_round_trip(p[0].len(), 8);
        assert(framed_all(p).len() >= 8);
    } else {
        lemma_framed_front(p);
        lemma_framed_front(q);
        lemma_framed_splits(p[0], q[0], framed_all(p.skip(1)), framed_all(q.skip(1)));
        lemma_parts_equal(p.skip(1), q.skip(1));
        assert(p =~= seq![p[0]] + p.skip(1));
        assert(q =~= seq![q[0]] + q.skip(1));
    }
}

/// What is hashed: each part behind the count of its bytes, which takes eight
/// bytes, lowest first; the domain before the parts, and the parts in order.
pub proof fn law_a_preimage_frames_every_part(domain: Seq<u8>, parts: Seq<Seq<u8>>)
    requires
        domain.len() <= u64::MAX,
    ensures
        le_value(preimage(domain, parts).take(8)) == domain.len(),
        preimage(domain, parts).subrange(8, 8 + domain.len() as int) == domain,
        preimage(domain, parts).skip(8 + domain.len() as int) == parts.map_values(
            |p: Seq<u8>| le_bytes(p.len(), 8) + p,
        ).flatten(),
{
    lemma_widths();
    lemma_le_round_trip(domain.len(), 8);
    let all = preimage(domain, parts);
    assert(all.take(8) =~= le_bytes(domain.len(), 8));
    assert(all.subrange(8, 8 + domain.len() as int) =~= domain);
    assert(all.skip(8 + domain.len() as int) =~= framed_all(parts));
    lemma_framed_flat(parts);
}

proof fn lemma_framed_flat(parts: Seq<Seq<u8>>)
    ensures
        framed_all(parts) == parts.map_values(|p: Seq<u8>| le_bytes(p.len(), 8) + p).flatten(),
    decreases parts.len(),
{
    let lists = parts.map_values(|p: Seq<u8>| le_bytes(p.len(), 8) + p);
    lists.lemma_flatten_and_flatten_alt_are_equivalent();
    if parts.len() > 0 {
        lemma_framed_flat(parts.drop_last());
        let before = parts.drop_last().map_values(|p: Seq<u8>| le_bytes(p.len(), 8) + p);
        before.lemma_flatten_and_flatten_alt_are_equivalent();
        assert(lists.drop_last() =~= before);
    }
}

/// The protocol hash of parts is the digest of their preimage under the domain.
pub proof fn law_a_protocol_hash_is_a_digest(domain: Seq<u8>, parts: Seq<Seq<u8>>)
    ensures
        protocol_digest(domain, parts) == blake3_digest(
            le_bytes(domain.len(), 8) + domain + parts.map_values(
                |p: Seq<u8>| le_bytes(p.len(), 8) + p,
            ).flatten(),
        ),
{
    lemma_framed_flat(parts);
}

} // verus!
