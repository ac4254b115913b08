use hyperscale::crypto::bls::{
    bls_keypair_from_seed, generate_bls_keypair, public_key_from_u64_seed, signer_from_u64_seed,
};
use hyperscale::crypto::role::{AggregateSignature, ConsensusPublicKey, ConsensusSignature};

#[test]
fn bls_keypair_from_seed_is_deterministic_and_seed_sensitive() {
    let seed = [42u8; 32];
    assert_eq!(
        bls_keypair_from_seed(&seed).public_key(),
        bls_keypair_from_seed(&seed).public_key()
    );

    let mut seed_a = [0u8; 32];
    seed_a[30] = 0x30;
    seed_a[31] = 0x39;
    let mut seed_b = [0u8; 32];
    seed_b[30] = 0x30;
    seed_b[31] = 0x3a;
    assert_ne!(
        bls_keypair_from_seed(&seed_a).public_key(),
        bls_keypair_from_seed(&seed_b).public_key()
    );
}

#[test]
fn zero_sentinels() {
    assert_eq!(ConsensusPublicKey::zero().as_bytes(), &[0u8; 48]);
    assert_eq!(ConsensusSignature::zero().as_bytes(), &[0u8; 96]);
    assert_eq!(AggregateSignature::zero().as_bytes(), &[0u8; 96]);
}

#[test]
fn wide_seeds_name_the_same_key_as_their_bytes() {
    let mut bytes = [0u8; 32];
    bytes[0] = 7;
    assert_eq!(
        signer_from_u64_seed(7).public_key(),
        bls_keypair_from_seed(&bytes).public_key()
    );
    assert_eq!(public_key_from_u64_seed(7), signer_from_u64_seed(7).public_key());
}

#[test]
fn a_secret_is_expanded_from_its_seed() {
    let key = bls_keypair_from_seed(&[42u8; 32]);
    assert_ne!(key.to_bytes(), [42u8; 32]);
    assert_ne!(key.public_key().as_bytes()[..32], key.to_bytes()[..]);
    assert_ne!(
        generate_bls_keypair().public_key(),
        generate_bls_keypair().public_key()
    );
}

#[test]
fn key_material_is_its_bytes() {
    assert_eq!(ConsensusPublicKey::new([3; 48]).as_bytes(), &[3; 48]);
    assert_eq!(ConsensusSignature::new([4; 96]).as_bytes(), &[4; 96]);
    assert_eq!(AggregateSignature::new([5; 96]).as_bytes(), &[5; 96]);
    assert_ne!(ConsensusPublicKey::new([3; 48]), ConsensusPublicKey::zero());
}
