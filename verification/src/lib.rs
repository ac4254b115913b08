//! Shard state, mempool admission and effect metadata for a sharded ledger.
pub mod bridge;
pub mod bytes;
pub mod crypto;
pub mod engine;
pub mod execution;
pub mod hash;
pub mod index;
pub mod list;
pub mod mempool;
pub mod node;
pub mod order;
pub mod scenarios;
pub mod shard;
pub mod sorted;
pub mod storage;
pub mod text;
pub mod time;
pub mod types;
