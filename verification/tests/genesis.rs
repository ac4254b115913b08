use hyperscale::bridge::account::{vm_account_address, VM_XRD};
use hyperscale::bridge::checks::MetadataLimits;
use hyperscale::bridge::error::VmStaticsError;
use hyperscale::bridge::expr::{Expr, RoleId};
use hyperscale::bridge::metadata::PackageMetadata;
use hyperscale::bridge::package::admit_package;
use hyperscale::bridge::roles::CellRole;
use hyperscale::bridge::signature::{
    AbiParam, Accessibility, Clause, MethodSignature, ModeExpr, ParamType, TargetExpr,
};
use hyperscale::bridge::staking::{PackageHash, StakePoolId};
use hyperscale::crypto::role::ConsensusPublicKey;
use hyperscale::engine::fold::encode_amount;
use hyperscale::engine::genesis::{
    account_artifact, genesis_world, genesis_world_with_pools, stake_unit, staking_artifact,
    vm_genesis_updates, GenesisConfig, StakePoolSeat, StdlibPackage, VmWorld, GENESIS_PUBLISHER,
};
use hyperscale::hash::ProtocolHasher;
use hyperscale::storage::state_key::{vm_db_node_key, vm_flat_key_parts, VM_PARTITION};
use hyperscale::storage::updates::{DatabaseUpdate, DatabaseUpdates, PartitionDatabaseUpdates};
use hyperscale::types::SubstateKey;

const LIMITS: MetadataLimits = MetadataLimits {
    max_bytes: 65_536,
    max_event_types: 64,
    max_clause_depth: 4,
    max_expr_depth: 8,
    max_value_depth: 8,
    max_effects: 128,
};

const VAULT: RoleId = RoleId(1);

fn vault_of(owner: Expr, resource: Expr) -> Expr {
    Expr::ChildKey { owner: Box::new(owner), role: VAULT, material: vec![resource] }
}

/// An account: it pays out of a vault, and is paid into one.
fn account_metadata() -> PackageMetadata {
    let mut metadata = PackageMetadata::default();
    metadata.insert_method(
        "withdraw".into(),
        MethodSignature {
            accessibility: Accessibility::RequiresTargetAuth,
            params: vec![ParamType::Address, ParamType::U128],
            abi: vec![AbiParam::Handle(0), AbiParam::Derived(Expr::Arg(1))],
            outputs: vec![Expr::Arg(0)],
            effects: vec![Clause::Effect {
                target: TargetExpr::Point(vault_of(Expr::SelfAddr, Expr::Arg(0))),
                mode: ModeExpr::Reserve(Expr::Arg(1)),
            }],
            calls: vec![],
        },
    );
    metadata.insert_method(
        "deposit".into(),
        MethodSignature {
            params: vec![ParamType::Bucket],
            abi: vec![AbiParam::Handle(0), AbiParam::Bucket(0)],
            effects: vec![Clause::Effect {
                target: TargetExpr::Point(vault_of(
                    Expr::SelfAddr,
                    Expr::ResourceOf(Box::new(Expr::Arg(0))),
                )),
                mode: ModeExpr::Delta,
            }],
            ..MethodSignature::default()
        },
    );
    metadata.events = vec!["withdrawn".into(), "deposited".into()];
    metadata
}

fn cell_key(role: CellRole) -> SubstateKey {
    let (owner, tag) = match role {
        CellRole::Vault { owner, resource } => (owner, [vec![0], resource.to_vec()].concat()),
        CellRole::Entropy { owner } => (owner, vec![1]),
        CellRole::Validator { owner, id } => (owner, [vec![2], id.to_le_bytes().to_vec()].concat()),
        CellRole::Package { owner, package } => (owner, [vec![3], package.to_vec()].concat()),
    };
    let mut local = [0u8; 16];
    local.copy_from_slice(&blake3::hash(&tag).as_bytes()[..16]);
    SubstateKey { owner, local }
}

/// A component exporting one no-argument function per name.
fn component_exporting(names: &[&str]) -> Vec<u8> {
    let mut source = String::from("(component\n  (core module $m\n");
    for index in 0..names.len() {
        source.push_str(&format!("    (func (export \"f{index}\"))\n"));
    }
    source.push_str("  )\n  (core instance $i (instantiate $m))\n");
    for (index, name) in names.iter().enumerate() {
        source.push_str(&format!(
            "  (func (export \"{name}\") (canon lift (core func $i \"f{index}\")))\n"
        ));
    }
    source.push(')');
    wat::parse_str(&source).expect("the component assembles")
}

fn account_component() -> Vec<u8> {
    component_exporting(&["deposit", "withdraw"])
}

fn account() -> Vec<u8> {
    account_artifact(&account_component(), &account_metadata(), &LIMITS).expect("attaches")
}

fn staking() -> Vec<u8> {
    let mut metadata = PackageMetadata::default();
    metadata.insert_method("stake".into(), MethodSignature::default());
    staking_artifact(&component_exporting(&["stake"]), &metadata, &LIMITS).expect("attaches")
}

fn package_hash(artifact: &[u8]) -> PackageHash {
    PackageHash(ProtocolHasher.hash(b"package", &[artifact]).0)
}

fn world(accounts: &[([u8; 16], u128)], pools: &[StakePoolSeat]) -> VmWorld {
    let (account, staking) = (account(), staking());
    genesis_world_with_pools(
        &StdlibPackage { hash: package_hash(&account), artifact: &account },
        &StdlibPackage { hash: package_hash(&staking), artifact: &staking },
        &LIMITS,
        accounts,
        pools,
        &cell_key,
    )
    .expect("the stdlib admits")
}

fn update_at(updates: &DatabaseUpdates, key: SubstateKey) -> Option<&DatabaseUpdate> {
    let (_, node) =
        updates.node_updates.iter().find(|(node, _)| *node == vm_db_node_key(&key.owner))?;
    let (_, partition) = node.partition_updates.iter().find(|(n, _)| *n == VM_PARTITION)?;
    let PartitionDatabaseUpdates::Delta { substate_updates } = partition else {
        panic!("VM genesis writes are Delta-only");
    };
    substate_updates.iter().find(|(k, _)| *k == key.local.to_vec()).map(|(_, u)| u)
}

#[test]
fn genesis_genesis_updates_are_identity_keyed_vault_cells() {
    let alice = [0x11u8; 16];
    let bob = [0x22u8; 16];
    let artifact = account();
    let package = StdlibPackage { hash: package_hash(&artifact), artifact: &artifact };
    let bare = vm_genesis_updates(None, &[(alice, 500), (bob, 700)], &[], &cell_key);
    assert_eq!(bare.node_updates.len(), 2);
    let updates = vm_genesis_updates(Some(package), &[(alice, 500), (bob, 700)], &[], &cell_key);
    // Two funded accounts, plus the stdlib package under the publisher no key
    // derives.
    assert_eq!(updates.node_updates.len(), 3);
    assert!(updates
        .node_updates
        .iter()
        .any(|(node, _)| *node == vm_db_node_key(&GENESIS_PUBLISHER)));
    let published = cell_key(CellRole::Package {
        owner: GENESIS_PUBLISHER,
        package: package_hash(&artifact).0,
    });
    assert_eq!(update_at(&updates, published), Some(&DatabaseUpdate::Put(artifact.clone())));

    for (owner, balance) in [(alice, 500u128), (bob, 700)] {
        let key = cell_key(CellRole::Vault { owner, resource: VM_XRD });
        assert_eq!(key.owner, owner);
        assert_eq!(
            update_at(&updates, key),
            Some(&DatabaseUpdate::Put(encode_amount(balance)))
        );

        // The flat key reassembles into the VM namespace.
        let mut flat = vm_db_node_key(&owner);
        flat.push(VM_PARTITION);
        flat.extend_from_slice(&key.local);
        assert_eq!(flat.len(), 33);
        assert_eq!(vm_flat_key_parts(&flat), Some(key));
    }
}

#[test]
fn genesis_the_stdlib_artifact_describes_itself() {
    let artifact = account();

    // The code is the committed blob and the section is what was added, so
    // the address covers both.
    assert!(artifact.starts_with(&account_component()));
    assert!(artifact.len() > account_component().len());
    assert_ne!(package_hash(&artifact), package_hash(&account_component()));

    // What genesis publishes is admitted out of the artifact by the publish
    // check, and it is the signature set the stdlib authors.
    let declared = admit_package(&artifact, &LIMITS).expect("publishes as a package");
    assert_eq!(declared, account_metadata());
    let world = world(&[], &[]);
    assert_eq!(world.cache.get(&world.account_package.0), Some(&declared));
    assert_eq!(world.account_package, package_hash(&artifact));
}

#[test]
fn the_stdlib_artifact_carries_resolvable_bindings() {
    let metadata = admit_package(&account(), &LIMITS).expect("the stdlib artifact admits");
    let abi = |name: &str| {
        &metadata.methods.iter().find(|entry| entry.name == name).unwrap().signature.abi
    };
    assert_eq!(
        *abi("withdraw"),
        vec![AbiParam::Handle(0), AbiParam::Derived(Expr::Arg(1))],
        "the binding decoded is the binding authored"
    );
    assert_eq!(
        *abi("deposit"),
        vec![AbiParam::Handle(0), AbiParam::Bucket(0)],
        "a bucket's amount is the one argument a signature cannot derive"
    );
}

#[test]
fn a_publish_that_is_not_a_package_never_reaches_execution() {
    // The whole publish verdict is a function of the artifact's bytes, so it
    // is reached at admission.
    let junk = b"\0asm\x01\0\0\0".to_vec();
    assert!(
        admit_package(&junk, &LIMITS).is_err(),
        "well-formed wasm framing is not a package"
    );
    assert!(admit_package(&account(), &LIMITS).is_ok(), "the stdlib artifact is one");
}

#[test]
fn genesis_the_world_binds_every_funded_account_to_the_stdlib_package() {
    let (account, staking) = (account(), staking());
    let world = genesis_world(
        &StdlibPackage { hash: package_hash(&account), artifact: &account },
        &StdlibPackage { hash: package_hash(&staking), artifact: &staking },
        &LIMITS,
        &[([0x11; 16], 1), ([0x22; 16], 2)],
        &cell_key,
    )
    .unwrap();
    assert!(world.cache.get(&world.account_package.0).is_some());
    for address in [[0x11; 16], [0x22; 16]] {
        assert_eq!(
            world.instances.get(&address).map(|m| m.package),
            Some(world.account_package)
        );
    }
    assert!(world.instances.get(&[0x33; 16]).is_none());
}

#[test]
fn genesis_account_addresses_derive_deterministically_from_keys() {
    let a = vm_account_address(&[7u8; 32]);
    assert_eq!(a, vm_account_address(&[7u8; 32]));
    assert_ne!(a, vm_account_address(&[8u8; 32]));
}

#[test]
fn a_seated_pool_is_bound_recognised_and_founded() {
    let seat = || StakePoolSeat {
        address: [0x50; 16],
        id: StakePoolId(3),
        operator: [0x60; 16],
        founding: vec![(9, ConsensusPublicKey::new([4; 48]))],
    };
    let world = world(&[([0x11; 16], 1)], &[seat()]);
    assert_eq!(world.pools.pool_of(&[0x50; 16]), Some(StakePoolId(3)));
    assert_eq!(world.pools.pool_of(&[0x11; 16]), None);
    assert_eq!(
        world.instances.get(&[0x50; 16]).map(|m| m.package),
        Some(world.staking_package)
    );
    let updates = vm_genesis_updates(None, &[], &[seat()], &cell_key);
    let founder = cell_key(CellRole::Validator { owner: [0x50; 16], id: 9 });
    assert!(matches!(update_at(&updates, founder), Some(DatabaseUpdate::Put(_))));
    let unit = stake_unit([0x50; 16], &cell_key);
    assert_ne!(unit, [0x50; 16]);
}

#[test]
fn a_world_over_an_unpublishable_artifact_is_refused() {
    let staking = staking();
    let bare = account_component();
    let refused = genesis_world(
        &StdlibPackage { hash: package_hash(&bare), artifact: &bare },
        &StdlibPackage { hash: package_hash(&staking), artifact: &staking },
        &LIMITS,
        &[],
        &cell_key,
    );
    assert_eq!(refused.err(), Some(VmStaticsError::Undeclared));
    let empty = GenesisConfig::default();
    assert!(empty.accounts.is_empty() && empty.pools.is_empty());
}
