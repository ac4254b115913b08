//! Deterministic casts, funding and judgements for whole-network scenarios.
pub mod ballast;
pub mod cast;
pub mod envelopes;
pub mod funding;
pub mod judgements;
pub mod modest;
pub mod storm;
pub mod straddle;
