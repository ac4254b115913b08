//! Consensus keypairs.
use blst::min_pk::SecretKey;
use rand::Rng;
use vstd::prelude::*;

use crate::bytes::{le_bytes, le_value, lemma_le_round_trip, lemma_widths, u64_le};
use crate::crypto::role::ConsensusPublicKey;

verus! {

/// The scalar that the scheme's key generation derives from 32 bytes.
pub uninterp spec fn bls_scalar(seed: Seq<u8>) -> Seq<u8>;

/// The compressed public key of a scalar.
pub uninterp spec fn bls_public(scalar: Seq<u8>) -> Seq<u8>;

/// Calls `blst::min_pk::SecretKey::key_gen` with no key info, then
/// `SecretKey::to_bytes`. Claims that the scalar is a function of the seed.
/// The call fails only on fewer than 32 bytes. It hashes the seed, and nothing
/// is claimed of whether two seeds can come to one scalar.
#[verifier::external_body]
fn bls_key_gen(seed: &[u8; 32]) -> (secret: [u8; 32])
    ensures
        secret@ == bls_scalar(seed@),
{
    SecretKey::key_gen(seed, &[]).unwrap().to_bytes()
}

/// Calls `blst::min_pk::SecretKey::key_gen`, then `SecretKey::sk_to_pk` and
/// `PublicKey::to_bytes`. Claims that the key is a function of the scalar that
/// key generation derives from the seed.
#[verifier::external_body]
fn bls_public_key(seed: &[u8; 32]) -> (public: [u8; 48])
    ensures
        public@ == bls_public(bls_scalar(seed@)),
{
    SecretKey::key_gen(seed, &[]).unwrap().sk_to_pk().to_bytes()
}

/// Calls `rand::rng` and fills 32 bytes from it. Nothing is claimed of them.
#[verifier::external_body]
fn random_seed() -> (seed: [u8; 32])
{
    let mut seed = [0u8; 32];
    rand::rng().fill_bytes(&mut seed);
    seed
}

/// A consensus private key.
pub struct PrivateKey {
    secret: [u8; 32],
    public: ConsensusPublicKey,
}

impl PrivateKey {
    /// The scalar's bytes.
    pub closed spec fn scalar(&self) -> Seq<u8> {
        self.secret@
    }

    /// The public key.
    pub closed spec fn public(&self) -> ConsensusPublicKey {
        self.public
    }

    /// The key is the one that `seed` derives.
    pub open spec fn derives_from(&self, seed: Seq<u8>) -> bool {
        self.scalar() == bls_scalar(seed) && self.public().bytes() == bls_public(
            bls_scalar(seed),
        )
    }

    /// The public key.
    pub fn public_key(&self) -> (k: ConsensusPublicKey)
        ensures
            k == self.public(),
    {
        self.public
    }

    /// The scalar's bytes.
    pub fn to_bytes(&self) -> (b: [u8; 32])
        ensures
            b@ == self.scalar(),
    {
        self.secret
    }
}

/// Generates a keypair from a random seed.
#[must_use]
pub fn generate_bls_keypair() -> (key: PrivateKey)
    ensures
        exists|seed: [u8; 32]| key.derives_from(#[trigger] seed@),
{
    let seed = random_seed();
    bls_keypair_from_seed(&seed)
}

/// The keypair of a seed. Any 32 bytes name a key.
#[must_use]
pub fn bls_keypair_from_seed(seed: &[u8; 32]) -> (key: PrivateKey)
    ensures
        key.derives_from(seed@),
{
    PrivateKey {
        secret: bls_key_gen(seed),
        public: ConsensusPublicKey::new(bls_public_key(seed)),
    }
}

/// A small integer as seed bytes: little-endian in the low eight positions,
/// zeros behind.
pub open spec fn wide_seed(seed: u64) -> Seq<u8> {
    le_bytes(seed as nat, 8) + Seq::new(24, |i: int| 0u8)
}

/// The seed bytes of a small integer.
pub fn wide_seed_bytes(seed: u64) -> (bytes: [u8; 32])
    ensures
        bytes@ == wide_seed(seed),
{
    let low = u64_le(seed);
    let mut bytes: [u8; 32] = [0u8; 32];
    let mut i: usize = 0;
    while i < 8
        invariant
            i <= 8,
            low@.len() == 8,
            forall|j: int| 0 <= j < i ==> bytes@[j] == low@[j],
            forall|j: int| i <= j < 32 ==> bytes@[j] == 0,
        decreases 8 - i,
    {
        bytes[i] = low[i];
        i = i + 1;
    }
    assert(bytes@ =~= wide_seed(seed));
    bytes
}

/// The keypair of a small integer, widened into the seed space.
#[must_use]
pub fn signer_from_u64_seed(seed: u64) -> (key: PrivateKey)
    ensures
        key.derives_from(wide_seed(seed)),
{
    bls_keypair_from_seed(&wide_seed_bytes(seed))
}

/// The public key of [`signer_from_u64_seed`] for the same integer.
#[must_use]
pub fn public_key_from_u64_seed(seed: u64) -> (k: ConsensusPublicKey)
    ensures
        k.bytes() == bls_public(bls_scalar(wide_seed(seed))),
{
    signer_from_u64_seed(seed).public_key()
}

/// Key generation is deterministic: whoever derives keys from one seed has the
/// same scalar and the same public key, and the public key follows from the
/// scalar alone.
pub proof fn law_seed_determines_the_keypair(a: PrivateKey, b: PrivateKey, s: Seq<u8>, t: Seq<u8>)
    requires
        a.derives_from(s),
        b.derives_from(t),
    ensures
        s == t ==> a.scalar() == b.scalar(),
        a.scalar() == b.scalar() ==> a.public().bytes() == b.public().bytes(),
{
}

/// The seed bytes of an integer are the integer in the first eight, lowest byte
/// first, and zeros behind; so two integers have two seeds.
pub proof fn law_a_wide_seed_is_its_integer(a: u64, b: u64)
    ensures
        wide_seed(a).len() == 32,
        le_value(wide_seed(a).take(8)) == a,
        forall|i: int| 8 <= i < 32 ==> #[trigger] wide_seed(a)[i] == 0,
        wide_seed(a) == wide_seed(b) ==> a == b,
{
    lemma_widths();
    lemma_le_round_trip(a as nat, 8);
    lemma_le_round_trip(b as nat, 8);
    assert(wide_seed(a).take(8) =~= le_bytes(a as nat, 8));
    assert(wide_seed(b).take(8) =~= le_bytes(b as nat, 8));
}

} // verus!
