//! Substate storage: keys, writes and historical reads.
pub mod canonical;
pub mod database;
pub mod entry_key;
pub mod history;
pub mod keys;
pub mod state_key;
pub mod updates;
pub mod writes;
