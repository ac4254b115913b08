//! Role newtypes for consensus key and signature material.
//!
//! Each type names the role the bytes play in the protocol, not the scheme
//! that produced them. They are opaque byte containers, as wide as the
//! scheme's compressed encodings.
use vstd::prelude::*;

verus! {

/// Wire length of a [`ConsensusPublicKey`] in bytes.
pub const CONSENSUS_PUBLIC_KEY_BYTES: usize = 48;

/// Wire length of a [`ConsensusSignature`] in bytes.
pub const CONSENSUS_SIGNATURE_BYTES: usize = 96;

/// Wire length of an [`AggregateSignature`] in bytes.
pub const AGGREGATE_SIGNATURE_BYTES: usize = 96;

/// A validator's consensus public key.
#[derive(Debug, Clone, Copy, PartialEq, Eq, Hash, PartialOrd, Ord)]
pub struct ConsensusPublicKey([u8; CONSENSUS_PUBLIC_KEY_BYTES]);

impl ConsensusPublicKey {
    /// All-zero placeholder key, never a real validator's key.
    #[must_use]
    pub fn zero() -> (k: Self)
        ensures
            k.bytes() == Seq::new(CONSENSUS_PUBLIC_KEY_BYTES as nat, |i: int| 0u8),
    {
        let k = ConsensusPublicKey([0u8; CONSENSUS_PUBLIC_KEY_BYTES]);
        assert(k.bytes() =~= Seq::new(CONSENSUS_PUBLIC_KEY_BYTES as nat, |i: int| 0u8));
        k
    }

    /// The underlying bytes.
    pub closed spec fn bytes(self) -> Seq<u8> {
        self.0@
    }

    /// Builds the value from raw bytes.
    #[must_use]
    pub fn new(bytes: [u8; CONSENSUS_PUBLIC_KEY_BYTES]) -> (k: Self)
        ensures
            k.bytes() == bytes@,
    {
        ConsensusPublicKey(bytes)
    }

    /// The underlying bytes.
    #[must_use]
    pub fn as_bytes(&self) -> (b: &[u8; CONSENSUS_PUBLIC_KEY_BYTES])
        ensures
            b@ == self.bytes(),
    {
        &self.0
    }
}

/// The bytes name one value.
pub proof fn law_public_key_is_its_bytes(a: ConsensusPublicKey, b: ConsensusPublicKey)
    requires
        a.bytes() == b.bytes(),
    ensures
        a == b,
{
    assert(a.0 =~= b.0);
}

/// A single validator's signature over a consensus message.
#[derive(Debug, Clone, Copy, PartialEq, Eq, Hash)]
pub struct ConsensusSignature([u8; CONSENSUS_SIGNATURE_BYTES]);

impl ConsensusSignature {
    /// All-zero placeholder signature, used where a sentinel is structural.
    #[must_use]
    pub fn zero() -> (k: Self)
        ensures
            k.bytes() == Seq::new(CONSENSUS_SIGNATURE_BYTES as nat, |i: int| 0u8),
    {
        let k = ConsensusSignature([0u8; CONSENSUS_SIGNATURE_BYTES]);
        assert(k.bytes() =~= Seq::new(CONSENSUS_SIGNATURE_BYTES as nat, |i: int| 0u8));
        k
    }

    /// The underlying bytes.
    pub closed spec fn bytes(self) -> Seq<u8> {
        self.0@
    }

    /// Builds the value from raw bytes.
    #[must_use]
    pub fn new(bytes: [u8; CONSENSUS_SIGNATURE_BYTES]) -> (k: Self)
        ensures
            k.bytes() == bytes@,
    {
        ConsensusSignature(bytes)
    }

    /// The underlying bytes.
    #[must_use]
    pub fn as_bytes(&self) -> (b: &[u8; CONSENSUS_SIGNATURE_BYTES])
        ensures
            b@ == self.bytes(),
    {
        &self.0
    }
}

/// The bytes name one value.
pub proof fn law_signature_is_its_bytes(a: ConsensusSignature, b: ConsensusSignature)
    requires
        a.bytes() == b.bytes(),
    ensures
        a == b,
{
    assert(a.0 =~= b.0);
}

/// A multi-signer aggregate over one or more consensus messages.
#[derive(Debug, Clone, Copy, PartialEq, Eq, Hash)]
pub struct AggregateSignature([u8; AGGREGATE_SIGNATURE_BYTES]);

impl AggregateSignature {
    /// All-zero placeholder aggregate, never verified.
    #[must_use]
    pub fn zero() -> (k: Self)
        ensures
            k.bytes() == Seq::new(AGGREGATE_SIGNATURE_BYTES as nat, |i: int| 0u8),
    {
        let k = AggregateSignature([0u8; AGGREGATE_SIGNATURE_BYTES]);
        assert(k.bytes() =~= Seq::new(AGGREGATE_SIGNATURE_BYTES as nat, |i: int| 0u8));
        k
    }

    /// The underlying bytes.
    pub closed spec fn bytes(self) -> Seq<u8> {
        self.0@
    }

    /// Builds the value from raw bytes.
    #[must_use]
    pub fn new(bytes: [u8; AGGREGATE_SIGNATURE_BYTES]) -> (k: Self)
        ensures
            k.bytes() == bytes@,
    {
        AggregateSignature(bytes)
    }

    /// The underlying bytes.
    #[must_use]
    pub fn as_bytes(&self) -> (b: &[u8; AGGREGATE_SIGNATURE_BYTES])
        ensures
            b@ == self.bytes(),
    {
        &self.0
    }
}

/// The bytes name one value.
pub proof fn law_aggregate_is_its_bytes(a: AggregateSignature, b: AggregateSignature)
    requires
        a.bytes() == b.bytes(),
    ensures
        a == b,
{
    assert(a.0 =~= b.0);
}

} // verus!
