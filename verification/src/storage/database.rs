//! Read access to a store.
use vstd::prelude::*;

use crate::storage::history::{value_at, value_at_version, SimSnapshot};
use crate::storage::writes::left;
use crate::types::SubstateKey;

verus! {

/// Read access to the cells of a store.
pub trait SubstateDatabase {
    /// The value of a cell, if it holds one.
    spec fn cell(&self, key: SubstateKey) -> Option<Seq<u8>>;

    /// The value of a cell, if it holds one.
    fn substate(&self, key: SubstateKey) -> (r: Option<Vec<u8>>)
        ensures
            left(r) == self.cell(key),
    ;
}

/// A store that holds nothing.
#[derive(Clone, Copy, Debug, Default)]
pub struct EmptyDatabase;

impl SubstateDatabase for EmptyDatabase {
    open spec fn cell(&self, key: SubstateKey) -> Option<Seq<u8>> {
        None
    }

    fn substate(&self, key: SubstateKey) -> (r: Option<Vec<u8>>) {
        None
    }
}

/// A store that holds nothing.
#[must_use]
pub fn empty_substate_database() -> (db: EmptyDatabase)
    ensures
        forall|key: SubstateKey| #[trigger] db.cell(key) is None,
{
    EmptyDatabase
}

impl SubstateDatabase for SimSnapshot {
    open spec fn cell(&self, key: SubstateKey) -> Option<Seq<u8>> {
        value_at(
            self.current_state@,
            self.state_history@,
            key,
            self.version,
            self.current_version,
        )
    }

    fn substate(&self, key: SubstateKey) -> (r: Option<Vec<u8>>) {
        value_at_version(
            &self.current_state,
            &self.state_history,
            key,
            self.version,
            self.current_version,
        )
    }
}

/// The bound that node-side code threads a store by.
pub trait ShardStorage: SubstateDatabase + Send + Sync + 'static {

}

impl<S: SubstateDatabase + Send + Sync + 'static> ShardStorage for S {

}

} // verus!
