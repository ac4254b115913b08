//! Key and signature material.
pub mod bls;
pub mod ed25519;
pub mod role;
