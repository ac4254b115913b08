//! Transaction signing keys.
use radix_common::crypto::Ed25519PrivateKey as SigningKey;
use vstd::prelude::*;

verus! {

/// The public key of the signing key with these 32 bytes.
pub uninterp spec fn ed25519_public(secret: Seq<u8>) -> Seq<u8>;

/// The signature of a message under the signing key with these 32 bytes.
pub uninterp spec fn ed25519_signature(secret: Seq<u8>, message: Seq<u8>) -> Seq<u8>;

/// Calls `radix_common::crypto::Ed25519PrivateKey::from_bytes`, which fails
/// only on another length than 32, then `public_key`. Claims that the public
/// key is a function of the secret bytes.
#[verifier::external_body]
fn public_of(secret: &[u8; 32]) -> (public: [u8; 32])
    ensures
        public@ == ed25519_public(secret@),
{
    SigningKey::from_bytes(secret).unwrap().public_key().0
}

/// Calls `radix_common::crypto::Ed25519PrivateKey::from_bytes`, then `sign`.
/// Claims that the signature is a function of the secret bytes and the
/// message.
#[verifier::external_body]
fn signature_of(secret: &[u8; 32], message: &[u8]) -> (signature: [u8; 64])
    ensures
        signature@ == ed25519_signature(secret@, message@),
{
    SigningKey::from_bytes(secret).unwrap().sign(message).0
}

/// A transaction signing key.
#[derive(Clone, Copy)]
pub struct Ed25519PrivateKey {
    secret: [u8; 32],
}

impl Ed25519PrivateKey {
    /// The secret bytes.
    pub closed spec fn secret(&self) -> Seq<u8> {
        self.secret@
    }

    /// The public key.
    pub fn public_key(&self) -> (k: [u8; 32])
        ensures
            k@ == ed25519_public(self.secret()),
    {
        public_of(&self.secret)
    }

    /// Signs a message.
    pub fn sign(&self, message: &[u8]) -> (s: [u8; 64])
        ensures
            s@ == ed25519_signature(self.secret(), message@),
    {
        signature_of(&self.secret, message)
    }
}

/// The signing key with these secret bytes.
pub fn ed25519_keypair_from_seed(seed: &[u8; 32]) -> (key: Ed25519PrivateKey)
    ensures
        key.secret() == seed@,
{
    Ed25519PrivateKey { secret: *seed }
}

} // verus!
