use hyperscale::bridge::staking::{
    amount_of, witness_from_event, BeaconWitnessEvent, InstanceMeta, InstanceRegistry, PackageHash,
    PoolRegistry, StakePoolId, VmEvent, STAKED, UNSTAKED,
};
use hyperscale::hash::{protocol_hash, ProtocolHasher};

const POOL: [u8; 16] = [0x50; 16];
const IMPOSTOR: [u8; 16] = [0x51; 16];
const POOL_ID: u32 = 7;

fn package(tag: u8) -> PackageHash {
    PackageHash([tag; 32])
}

fn world() -> (PoolRegistry, InstanceRegistry) {
    let mut pools = PoolRegistry::new();
    pools.register(POOL, StakePoolId(POOL_ID));
    let mut instances = InstanceRegistry::new();
    for address in [POOL, IMPOSTOR] {
        instances.register(
            address,
            InstanceMeta {
                package: package(1),
                config: Vec::new(),
            },
        );
    }
    (pools, instances)
}

fn event(emitter: [u8; 16], event_type: u32, amount: u128) -> VmEvent {
    VmEvent {
        emitter,
        event_type,
        payload: amount.to_le_bytes().to_vec(),
    }
}

#[test]
fn a_recognised_pools_events_read_as_beacon_facts() {
    let (pools, instances) = world();
    assert_eq!(
        witness_from_event(&event(POOL, STAKED, 500), &pools, &instances, package(1)),
        Some(BeaconWitnessEvent::StakeDeposit {
            pool_id: StakePoolId(POOL_ID),
            amount: 500,
        }),
    );
    assert_eq!(
        witness_from_event(&event(POOL, UNSTAKED, 40), &pools, &instances, package(1)),
        Some(BeaconWitnessEvent::StakeWithdraw {
            pool_id: StakePoolId(POOL_ID),
            amount: 40,
        }),
    );
}

/// The whole point of the registry: running the pool's code is not
/// enough. An unrecognised instance of the very same package — which
/// anyone may create — speaks to nobody.
#[test]
fn an_unrecognised_instance_of_the_same_package_is_not_a_pool() {
    let (pools, instances) = world();
    assert_eq!(
        witness_from_event(
            &event(IMPOSTOR, STAKED, 1_000_000),
            &pools,
            &instances,
            package(1)
        ),
        None,
    );
}

/// And the converse: a recognised address running code that is not the
/// pool's speaks to nobody either, so neither authority is trusted to
/// carry the other's claim.
#[test]
fn a_recognised_address_running_other_code_is_not_a_pool() {
    let (pools, instances) = world();
    assert_eq!(
        witness_from_event(&event(POOL, STAKED, 500), &pools, &instances, package(2)),
        None,
    );
}

#[test]
fn an_event_the_table_does_not_declare_is_not_a_fact() {
    let (pools, instances) = world();
    assert_eq!(
        witness_from_event(&event(POOL, 2, 500), &pools, &instances, package(1)),
        None,
    );
}

#[test]
fn a_payload_that_is_not_an_amount_cell_is_not_a_fact() {
    let (pools, instances) = world();
    for payload in [Vec::new(), vec![1; 8], vec![1; 17]] {
        let event = VmEvent {
            emitter: POOL,
            event_type: STAKED,
            payload,
        };
        assert_eq!(
            witness_from_event(&event, &pools, &instances, package(1)),
            None,
        );
    }
}

/// An empty registry is the state every network starts in and the one
/// a network without staking stays in: nothing is a fact.
#[test]
fn an_empty_registry_recognises_nothing() {
    let (_, instances) = world();
    let pools = PoolRegistry::new();
    assert!(pools.is_empty());
    assert_eq!(
        witness_from_event(&event(POOL, STAKED, 500), &pools, &instances, package(1)),
        None,
    );
}

#[test]
fn the_protocol_hasher_is_deterministic_framed_and_domain_separated() {
    let a = ProtocolHasher.hash(b"d", &[b"ab", b"c"]);
    assert_eq!(a, ProtocolHasher.hash(b"d", &[b"ab", b"c"]));
    // Part boundaries are semantic.
    assert_ne!(a, ProtocolHasher.hash(b"d", &[b"a", b"bc"]));
    assert_ne!(a, ProtocolHasher.hash(b"d", &[b"abc"]));
    // Domains separate.
    assert_ne!(a, ProtocolHasher.hash(b"e", &[b"ab", b"c"]));
}

#[test]
fn a_protocol_hash_is_the_digest_of_its_framed_parts() {
    let mut framed = Vec::new();
    for part in [&b"d"[..], b"ab", b"c"] {
        framed.extend_from_slice(&(part.len() as u64).to_le_bytes());
        framed.extend_from_slice(part);
    }
    assert_eq!(
        ProtocolHasher.hash(b"d", &[b"ab", b"c"]).0,
        *blake3::hash(&framed).as_bytes()
    );
    assert_eq!(protocol_hash(&framed), *blake3::hash(&framed).as_bytes());
}

#[test]
fn an_amount_is_a_little_endian_cell() {
    assert_eq!(amount_of(&7u128.to_le_bytes()), Some(7));
    assert_eq!(amount_of(&[0; 15]), None);
}
