//! What a node decides around its shard: which provisions it serves, what it
//! proposes, and what it observes.
pub mod observer;
pub mod proposal;
pub mod provisions;
pub mod serve;
