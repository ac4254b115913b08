//! The binding between published packages, signed envelopes and the effect
//! vocabulary.
pub mod account;
pub mod alike;
pub mod artifact;
pub mod checks;
pub mod codec;
pub mod depth;
pub mod envelope;
pub mod error;
pub mod expr;
pub mod forms;
pub mod metadata;
pub mod package;
pub mod roles;
pub mod same;
pub mod sbor_value;
pub mod signature;
pub mod staking;
pub mod statics;
pub mod value;
pub mod wire;
