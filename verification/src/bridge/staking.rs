//! A recognised pool's events, read as beacon facts.
use vstd::prelude::*;

use crate::bridge::value::Value;
use crate::bytes::{le_bytes, le_value, lemma_le_canonical, lemma_widths, u128_from_le};
use crate::order::same_bytes;
use crate::sorted::SortedMap;

verus! {

/// The content address of a package.
#[derive(Clone, Copy, Debug, PartialEq, Eq)]
pub struct PackageHash(pub [u8; 32]);

/// What an instance runs and how it is configured.
#[derive(Debug, PartialEq, Eq)]
pub struct InstanceMeta {
    /// The package whose code it runs.
    pub package: PackageHash,
    /// Its configuration.
    pub config: Vec<Value>,
}

/// The instances there are, by address.
pub struct InstanceRegistry {
    instances: SortedMap<[u8; 16], InstanceMeta>,
}

impl View for InstanceRegistry {
    type V = Map<[u8; 16], InstanceMeta>;

    closed spec fn view(&self) -> Map<[u8; 16], InstanceMeta> {
        self.instances@
    }
}

impl InstanceRegistry {
    /// No instances.
    pub fn new() -> (r: Self)
        ensures
            r@ == Map::<[u8; 16], InstanceMeta>::empty(),
    {
        InstanceRegistry { instances: SortedMap::new() }
    }

    /// Files an instance under its address.
    pub fn register(&mut self, address: [u8; 16], meta: InstanceMeta)
        ensures
            final(self)@ == old(self)@.insert(address, meta),
    {
        self.instances.insert(address, meta);
    }

    /// The instance at an address.
    pub fn get(&self, address: &[u8; 16]) -> (r: Option<&InstanceMeta>)
        ensures
            match r {
                Some(m) => self@.dom().contains(*address) && *m == self@[*address],
                None => !self@.dom().contains(*address),
            },
    {
        self.instances.get(address)
    }
}

/// The identifier that the beacon folds a pool under.
#[derive(Clone, Copy, Debug, PartialEq, Eq, Structural)]
pub struct StakePoolId(pub u32);

/// The pools that the beacon folds for, by instance address.
pub struct PoolRegistry {
    pools: SortedMap<[u8; 16], StakePoolId>,
}

impl View for PoolRegistry {
    type V = Map<[u8; 16], StakePoolId>;

    closed spec fn view(&self) -> Map<[u8; 16], StakePoolId> {
        self.pools@
    }
}

impl PoolRegistry {
    /// No pools: no instance speaks to the beacon.
    #[must_use]
    pub fn new() -> (r: Self)
        ensures
            r@ == Map::<[u8; 16], StakePoolId>::empty(),
    {
        PoolRegistry { pools: SortedMap::new() }
    }

    /// Recognises an address as the pool folded under `id`.
    pub fn register(&mut self, address: [u8; 16], id: StakePoolId)
        ensures
            final(self)@ == old(self)@.insert(address, id),
    {
        self.pools.insert(address, id);
    }

    /// The pool that an address is recognised as.
    #[must_use]
    pub fn pool_of(&self, address: &[u8; 16]) -> (r: Option<StakePoolId>)
        ensures
            match r {
                Some(id) => self@.dom().contains(*address) && id == self@[*address],
                None => !self@.dom().contains(*address),
            },
    {
        match self.pools.get(address) {
            Some(id) => Some(*id),
            None => None,
        }
    }

    /// Whether no pool is recognised.
    #[must_use]
    pub fn is_empty(&self) -> (r: bool)
        ensures
            r == (self@ == Map::<[u8; 16], StakePoolId>::empty()),
    {
        self.pools.is_empty()
    }
}

/// An event that an instance emitted.
#[derive(Debug, PartialEq, Eq)]
pub struct VmEvent {
    /// The instance.
    pub emitter: [u8; 16],
    /// Which type of its package's event table.
    pub event_type: u32,
    /// What the event carries.
    pub payload: Vec<u8>,
}

/// A fact that the beacon folds. Amounts are in the smallest unit.
#[derive(Clone, Copy, Debug, PartialEq, Eq, Structural)]
pub enum BeaconWitnessEvent {
    /// A pool gained stake.
    StakeDeposit {
        /// The pool.
        pool_id: StakePoolId,
        /// How much.
        amount: u128,
    },
    /// A pool lost stake.
    StakeWithdraw {
        /// The pool.
        pool_id: StakePoolId,
        /// How much.
        amount: u128,
    },
}

/// The event index of a deposit.
pub const STAKED: u32 = 0;

/// The event index of a withdrawal.
pub const UNSTAKED: u32 = 1;

/// The amount that a payload is the 16-byte little-endian cell of.
pub open spec fn cell_amount(payload: Seq<u8>) -> Option<u128> {
    if payload.len() == 16 {
        Some(le_value(payload) as u128)
    } else {
        None
    }
}

/// The amount that a payload is the cell of; nothing for another length.
pub fn amount_of(payload: &[u8]) -> (r: Option<u128>)
    ensures
        r == cell_amount(payload@),
{
    if payload.len() == 16 {
        Some(u128_from_le(payload))
    } else {
        None
    }
}

/// The address is a recognised pool that runs the stake pool's code.
pub open spec fn speaks(
    emitter: [u8; 16],
    pools: Map<[u8; 16], StakePoolId>,
    instances: Map<[u8; 16], InstanceMeta>,
    staking_package: PackageHash,
) -> bool {
    &&& pools.dom().contains(emitter)
    &&& instances.dom().contains(emitter)
    &&& instances[emitter].package == staking_package
}

/// The fact that an event records, if its emitter may speak.
pub open spec fn witness_of(
    event: VmEvent,
    pools: Map<[u8; 16], StakePoolId>,
    instances: Map<[u8; 16], InstanceMeta>,
    staking_package: PackageHash,
) -> Option<BeaconWitnessEvent> {
    if !speaks(event.emitter, pools, instances, staking_package) {
        None
    } else {
        match cell_amount(event.payload@) {
            None => None,
            Some(amount) => if event.event_type == STAKED {
                Some(BeaconWitnessEvent::StakeDeposit { pool_id: pools[event.emitter], amount })
            } else if event.event_type == UNSTAKED {
                Some(BeaconWitnessEvent::StakeWithdraw { pool_id: pools[event.emitter], amount })
            } else {
                None
            },
        }
    }
}

/// The beacon fact that an event records; nothing, if it is none.
#[must_use]
pub fn witness_from_event(
    event: &VmEvent,
    pools: &PoolRegistry,
    instances: &InstanceRegistry,
    staking_package: PackageHash,
) -> (r: Option<BeaconWitnessEvent>)
    ensures
        r == witness_of(*event, pools@, instances@, staking_package),
{
    let pool_id = match pools.pool_of(&event.emitter) {
        Some(pool_id) => pool_id,
        None => {
            return None;
        },
    };
    match instances.get(&event.emitter) {
        Some(meta) => {
            if !same_bytes(meta.package.0.as_slice(), staking_package.0.as_slice()) {
                return None;
            }
            assert(meta.package.0 =~= staking_package.0);
        },
        None => {
            return None;
        },
    }
    let amount: u128 = match amount_of(event.payload.as_slice()) {
        Some(amount) => amount,
        None => {
            return None;
        },
    };
    if event.event_type == STAKED {
        Some(BeaconWitnessEvent::StakeDeposit { pool_id, amount })
    } else if event.event_type == UNSTAKED {
        Some(BeaconWitnessEvent::StakeWithdraw { pool_id, amount })
    } else {
        None
    }
}

/// Only a recognised pool speaks: an event is a fact only if its emitter is
/// registered and runs the stake pool's code, and the fact is about that pool
/// and no other.
pub proof fn law_only_recognised_pools_speak(
    event: VmEvent,
    pools: Map<[u8; 16], StakePoolId>,
    instances: Map<[u8; 16], InstanceMeta>,
    staking_package: PackageHash,
)
    requires
        witness_of(event, pools, instances, staking_package) is Some,
    ensures
        speaks(event.emitter, pools, instances, staking_package),
        match witness_of(event, pools, instances, staking_package)->0 {
            BeaconWitnessEvent::StakeDeposit { pool_id, amount } => pool_id
                == pools[event.emitter] && event.payload@.len() == 16 && amount == le_value(
                event.payload@,
            ) as u128,
            BeaconWitnessEvent::StakeWithdraw { pool_id, amount } => pool_id
                == pools[event.emitter] && event.payload@.len() == 16 && amount == le_value(
                event.payload@,
            ) as u128,
        },
{
}

/// A network without pools has no facts.
pub proof fn law_empty_registry_recognises_nothing(
    event: VmEvent,
    instances: Map<[u8; 16], InstanceMeta>,
    staking_package: PackageHash,
)
    ensures
        witness_of(
            event,
            Map::<[u8; 16], StakePoolId>::empty(),
            instances,
            staking_package,
        ) is None,
{
}

/// What a recognised pool says of its stake is a fact whenever it can be read: an
/// event records one exactly where its emitter is registered, runs the stake
/// pool's code, is a deposit or a withdrawal and carries sixteen bytes. A
/// deposit is told from a withdrawal, and the amount's bytes are the payload.
pub proof fn law_a_recognised_pools_word_is_a_fact(
    event: VmEvent,
    pools: Map<[u8; 16], StakePoolId>,
    instances: Map<[u8; 16], InstanceMeta>,
    staking_package: PackageHash,
)
    ensures
        ({
            let fact = witness_of(event, pools, instances, staking_package);
            &&& fact is Some <==> pools.contains_key(event.emitter) && instances.contains_key(
                event.emitter,
            ) && instances[event.emitter].package == staking_package && event.payload@.len() == 16
                && (event.event_type == 0 || event.event_type == 1)
            &&& fact is Some ==> (fact->0 is StakeDeposit <==> event.event_type == 0)
            &&& fact matches Some(BeaconWitnessEvent::StakeDeposit { pool_id, amount }) ==> pool_id
                == pools[event.emitter] && le_bytes(amount as nat, 16) == event.payload@
            &&& fact matches Some(BeaconWitnessEvent::StakeWithdraw { pool_id, amount }) ==> pool_id
                == pools[event.emitter] && le_bytes(amount as nat, 16) == event.payload@
        }),
{
    lemma_widths();
    lemma_le_canonical(event.payload@);
}

} // verus!
