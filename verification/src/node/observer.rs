//! The routing overlay's observer.
use vstd::prelude::*;

use crate::hash::Hash32;
use crate::types::TxHash;

verus! {

/// Records the routing digest of every admitted transaction. Observes only: no
/// admission hangs on it.
#[derive(Clone, Copy, Debug, Default)]
pub struct BridgeRoutingObserver;

/// What the observer records of an admission.
#[derive(Clone, Copy, Debug, PartialEq, Eq)]
pub struct RoutingRecord {
    /// The transaction.
    pub tx_hash: TxHash,
    /// The digest of where it was routed.
    pub digest: Hash32,
}

impl BridgeRoutingObserver {
    /// What is recorded when a transaction is admitted.
    pub fn on_admitted(&self, tx_hash: TxHash, digest: Hash32) -> (r: RoutingRecord)
        ensures
            r == (RoutingRecord { tx_hash, digest }),
    {
        RoutingRecord { tx_hash, digest }
    }
}

} // verus!
