//! Mempool admission: declared-key locks and the ready set.
pub mod lock_tracker;
pub mod ready_set;
