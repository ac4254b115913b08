//! Execution of a wave's batch and the projection of its outputs.
pub mod baseline;
pub mod batch;
pub mod commit;
pub mod deploy;
pub mod executed;
pub mod executor;
pub mod fees;
pub mod fold;
pub mod genesis;
pub mod packages;
pub mod plan;
pub mod preview;
pub mod receipt;
pub mod run;
pub mod runner;
