//! What a shard does around the execution of a wave: tracking what other shards
//! provision, and splitting what came out.
pub mod actions;
pub mod history;
pub mod outputs;
pub mod provisioning;
