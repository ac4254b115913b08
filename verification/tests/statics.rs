use hyperscale::bridge::account::{vm_account_address, VM_XRD};
use hyperscale::bridge::artifact::attach_metadata;
use hyperscale::bridge::checks::MetadataLimits;
use hyperscale::bridge::codec::encode;
use hyperscale::bridge::envelope::{
    decode_tree, encode_tree, Constraint, EdgeRef, EnvelopeTree, GraphArg, GraphNode, IntentDecl,
    ManifestGraph, Subintent, YieldBinding, YieldParam,
};
use hyperscale::bridge::error::{FramingFault, SignatureFault, VmStaticsError};
use hyperscale::bridge::metadata::PackageMetadata;
use hyperscale::bridge::roles::{
    child_key_parts, entropy_key, package_key, vault_key, CellRole, ChildKeyParts, KeyRole,
    Material, PACKAGE_ROLE,
};
use hyperscale::bridge::signature::MethodSignature;
use hyperscale::bridge::statics::{
    admission_key, fold_effects, key_owner, BridgeStatics, Effect, EffectTarget, Mode, SnapshotPin,
    TreeOutcome, TreeRouting, VmBody, VmDerived, VmSubintentSig, VmTransaction,
};
use hyperscale::bridge::value::Value;
use hyperscale::crypto::ed25519::{ed25519_keypair_from_seed, Ed25519PrivateKey};
use hyperscale::types::{DeclaredKey, SubstateKey};

const LIMITS: MetadataLimits = MetadataLimits {
    max_bytes: 65_536,
    max_event_types: 64,
    max_clause_depth: 4,
    max_expr_depth: 8,
    max_value_depth: 8,
    max_effects: 128,
};

const RES_X: [u8; 16] = [0xE1; 16];
const RES_Y: [u8; 16] = [0xE2; 16];

fn key(seed: u8) -> Ed25519PrivateKey {
    ed25519_keypair_from_seed(&[seed; 32])
}

fn composer_addr() -> [u8; 16] {
    vm_account_address(&key(7).public_key())
}

fn bob_addr() -> [u8; 16] {
    vm_account_address(&key(9).public_key())
}

/// A cell of `owner`, by its role and what it is for.
fn cell(owner: [u8; 16], role: u8, material: &[u8]) -> SubstateKey {
    let mut seed = vec![role];
    seed.extend_from_slice(&owner);
    seed.extend_from_slice(material);
    let mut local = [0u8; 16];
    local.copy_from_slice(&blake3::hash(&seed).as_bytes()[..16]);
    SubstateKey { owner, local }
}

fn vault(owner: [u8; 16], resource: [u8; 16]) -> SubstateKey {
    cell(owner, 1, &resource)
}

fn declared_hash(decl: &IntentDecl) -> [u8; 32] {
    *blake3::hash(&encode(decl, 64).unwrap()).as_bytes()
}

const STATICS: BridgeStatics = BridgeStatics { limits: LIMITS };
const PACKAGE: [u8; 32] = [6; 32];

fn cell_key(role: CellRole) -> SubstateKey {
    match role {
        CellRole::Vault { owner, resource } => vault(owner, resource),
        CellRole::Entropy { owner } => cell(owner, 3, &[]),
        CellRole::Validator { owner, id } => cell(owner, 4, &id.to_le_bytes()),
        CellRole::Package { owner, package } => cell(owner, 9, &package),
    }
}

/// Routes the withdrawals and deposits of every intent to the vaults they
/// move between. A bucket that nothing consumes is refused.
fn route(tree: &EnvelopeTree) -> TreeOutcome {
    let mut effects = Vec::new();
    let mut balance = 0i32;
    let mut hashes = Vec::new();
    let intents = std::iter::once((&tree.root, None))
        .chain(tree.subintents.iter().map(|s| (&s.decl, Some(s.signer))));
    for (decl, signer) in intents {
        for node in &decl.graph.nodes {
            if node.method == "withdraw" {
                let (GraphArg::Literal(Value::Address(resource)), GraphArg::Literal(Value::U128(amount))) =
                    (&node.args[0], &node.args[1])
                else {
                    return TreeOutcome::NotAdmitted("a withdrawal names no amount".into());
                };
                balance += 1;
                effects.push(Effect {
                    target: EffectTarget::Point(vault(node.target, *resource)),
                    mode: Mode::Reserve { amount: *amount },
                });
            } else {
                balance -= 1;
                effects.push(Effect {
                    target: EffectTarget::Point(vault(node.target, RES_X)),
                    mode: Mode::Delta,
                });
            }
        }
        if let Some(signer) = signer {
            let hash = declared_hash(decl);
            hashes.push(hash);
            effects.push(Effect {
                target: EffectTarget::Point(cell(signer, 2, &hash)),
                mode: Mode::Write,
            });
        }
    }
    if balance != 0 {
        return TreeOutcome::NotAdmitted("a bucket dangles".into());
    }
    TreeOutcome::Routed(TreeRouting {
        effects,
        subintent_hashes: hashes,
        snapshot_obligations: vec![],
    })
}

/// An outcome that nothing reads.
fn unread() -> TreeOutcome {
    TreeOutcome::NotAdmitted(String::new())
}

fn derived(vm: &VmTransaction, tree: &EnvelopeTree) -> Result<VmDerived, VmStaticsError> {
    STATICS.derive(vm, PACKAGE, route(tree), &cell_key)
}

fn withdraw(target: [u8; 16], resource: [u8; 16], amount: u128) -> GraphNode {
    GraphNode {
        target,
        method: "withdraw".into(),
        args: vec![
            GraphArg::Literal(Value::Address(resource)),
            GraphArg::Literal(Value::U128(amount)),
        ],
    }
}

fn deposit_edge(target: [u8; 16], producer: u32, resource: [u8; 16]) -> GraphNode {
    GraphNode {
        target,
        method: "deposit".into(),
        args: vec![GraphArg::Edge {
            edge: EdgeRef { producer, output: 0 },
            constraints: vec![Constraint::ResourceIs(resource)],
        }],
    }
}

fn deposit_param(target: [u8; 16], param: u32) -> GraphNode {
    GraphNode { target, method: "deposit".into(), args: vec![GraphArg::Param(param)] }
}

fn single_intent_tree(nodes: Vec<GraphNode>) -> EnvelopeTree {
    EnvelopeTree {
        root: IntentDecl { graph: ManifestGraph { nodes }, params: Vec::new() },
        root_bindings: Vec::new(),
        subintents: Vec::new(),
    }
}

/// The two-signer composition: the composer pays X for the subintent's Y.
fn composed_tree() -> EnvelopeTree {
    EnvelopeTree {
        root: IntentDecl {
            graph: ManifestGraph {
                nodes: vec![
                    withdraw(composer_addr(), RES_X, 100),
                    deposit_param(composer_addr(), 0),
                ],
            },
            params: vec![YieldParam {
                resource: RES_Y,
                constraints: vec![Constraint::MinAmount(10)],
            }],
        },
        root_bindings: vec![YieldBinding {
            intent: 1,
            edge: EdgeRef { producer: 0, output: 0 },
        }],
        subintents: vec![Subintent {
            decl: IntentDecl {
                graph: ManifestGraph {
                    nodes: vec![withdraw(bob_addr(), RES_Y, 10), deposit_param(bob_addr(), 0)],
                },
                params: vec![YieldParam {
                    resource: RES_X,
                    constraints: vec![Constraint::MinAmount(100)],
                }],
            },
            signer: bob_addr(),
            bindings: vec![YieldBinding { intent: 0, edge: EdgeRef { producer: 0, output: 0 } }],
        }],
    }
}

fn with_body(body: VmBody, subintent_sigs: Vec<VmSubintentSig>) -> VmTransaction {
    VmTransaction {
        body,
        subintent_sigs,
        fee_payer: composer_addr(),
        max_fee: 1_000,
        gas_limit: 1_000_000,
        snapshot_pins: Vec::new(),
        validity_start_ms: 0,
        validity_end_ms: 1_000_000,
        message: Vec::new(),
        signer: key(7).public_key(),
        signature: [0; 64],
    }
}

fn envelope(tree: &EnvelopeTree, subintent_keys: &[Ed25519PrivateKey]) -> VmTransaction {
    let sigs = tree
        .subintents
        .iter()
        .zip(subintent_keys)
        .map(|(subintent, signer)| VmSubintentSig {
            public_key: signer.public_key(),
            signature: signer.sign(&declared_hash(&subintent.decl)),
        })
        .collect();
    with_body(VmBody::Call(encode_tree(tree).unwrap()), sigs)
}

#[test]
fn the_tree_codec_round_trips() {
    let tree = composed_tree();
    let decoded = decode_tree(&encode_tree(&tree).unwrap()).unwrap();
    assert_eq!(decoded, tree);
    assert!(decode_tree(&[0xFF, 0x00]).is_err());
}

#[test]
fn a_transfer_derives_substate_keys_and_owner_prefixes() {
    let tree = single_intent_tree(vec![
        withdraw(composer_addr(), RES_X, 100),
        deposit_edge(bob_addr(), 0, RES_X),
    ]);
    let derived = derived(&envelope(&tree, &[]), &tree).expect("derives");

    // Reserve at the sender's vault and deltas at the recipient's: all
    // exclusive-class, substate-granular, under the two owners.
    let sender_vault = vault(composer_addr(), RES_X);
    assert!(derived
        .routing
        .write_keys
        .contains(&DeclaredKey::substate(composer_addr(), sender_vault.local)));
    assert!(derived.routing.read_keys.is_empty());
    // A commutative-only transfer provisions nothing at all.
    assert!(derived.routing.provision_keys.is_empty());
    assert!(derived.routing.provision_prefixes.is_empty());
    assert!(derived.subintent_hashes.is_empty());
    let mut owners = vec![composer_addr(), bob_addr()];
    owners.sort_unstable();
    assert_eq!(derived.routing.write_prefixes, owners);
    assert_eq!(derived.fee_vault_local, vault(composer_addr(), VM_XRD).local);
}

#[test]
fn a_composed_envelope_derives_the_nullifier_write() {
    let tree = composed_tree();
    let derived = derived(&envelope(&tree, &[key(9)]), &tree).expect("derives");

    let hash = declared_hash(&tree.subintents[0].decl);
    assert_eq!(derived.subintent_hashes, vec![hash]);
    let nullifier = cell(bob_addr(), 2, &hash);
    assert!(derived
        .routing
        .write_keys
        .contains(&DeclaredKey::substate(bob_addr(), nullifier.local)));
}

#[test]
fn a_fee_payer_the_composer_does_not_own_is_refused() {
    // The whole fee path debits whatever this field names, and the composer's
    // signature is the only authority in the envelope, so naming someone
    // else's account has to be refused before any of it runs.
    let tree = single_intent_tree(vec![
        withdraw(composer_addr(), RES_X, 100),
        deposit_edge(bob_addr(), 0, RES_X),
    ]);
    let mut stolen = envelope(&tree, &[]);
    stolen.fee_payer = bob_addr();

    assert_eq!(stolen.signer, key(7).public_key(), "the composer signed it");
    let refused = derived(&stolen, &tree).expect_err("refuses");
    assert_eq!(refused, VmStaticsError::FeePayer);

    // The composer paying from their own account is the admitted case, so the
    // check bites on ownership and not on fees at all.
    assert!(derived(&envelope(&tree, &[]), &tree).is_ok());
}

#[test]
fn a_mismatched_subintent_signer_is_refused() {
    // The tree binds BOB's address, but the carried key is another's.
    let tree = composed_tree();
    let refused = derived(&envelope(&tree, &[key(11)]), &tree);
    assert_eq!(refused, Err(VmStaticsError::SubintentSigner { index: 0 }));

    // A missing signature list is a distinct refusal.
    let mut unsigned = envelope(&tree, &[key(9)]);
    unsigned.subintent_sigs.clear();
    assert_eq!(
        derived(&unsigned, &tree),
        Err(VmStaticsError::SubintentCount { bound: 1, carried: 0 })
    );
}

#[test]
fn an_inadmissible_tree_is_refused() {
    // The produced bucket is never consumed: linearity refuses it.
    let tree = single_intent_tree(vec![withdraw(composer_addr(), RES_X, 100)]);
    let refused = derived(&envelope(&tree, &[]), &tree).expect_err("refuses");
    assert_eq!(refused, VmStaticsError::Admission { reason: "a bucket dangles".into() });
    assert_eq!(refused.text(&LIMITS), "admission: a bucket dangles");
}

#[test]
fn a_nullifier_hash_needs_a_subintent_hash_type() {
    // The routed hash is the declaration hash, reconstructible from the
    // decoded tree alone.
    let tree = composed_tree();
    let decoded = decode_tree(&encode_tree(&tree).unwrap()).unwrap();
    assert_eq!(
        declared_hash(&decoded.subintents[0].decl),
        declared_hash(&tree.subintents[0].decl)
    );
}

#[test]
fn every_refusal_of_an_envelope_names_its_reason() {
    let tree = single_intent_tree(vec![
        withdraw(composer_addr(), RES_X, 100),
        deposit_edge(bob_addr(), 0, RES_X),
    ]);
    let vm = envelope(&tree, &[]);
    assert_eq!(
        STATICS.derive(&vm, PACKAGE, TreeOutcome::NotRouted("nowhere".into()), &cell_key),
        Err(VmStaticsError::Routing { reason: "nowhere".into() })
    );
    let collection = TreeOutcome::Routed(TreeRouting {
        effects: vec![],
        subintent_hashes: vec![],
        snapshot_obligations: vec![EffectTarget::Entry {
            owner: composer_addr(),
            collection: 1,
            order: 2,
        }],
    });
    assert_eq!(
        STATICS.derive(&vm, PACKAGE, collection, &cell_key),
        Err(VmStaticsError::CollectionSnapshot)
    );
    let junk = with_body(VmBody::Call(vec![1, 2, 3]), vec![]);
    assert_eq!(
        STATICS
            .derive(&junk, PACKAGE, unread(), &cell_key)
            .map_err(|refused| refused.text(&LIMITS)),
        Err("tree decode: UnexpectedPayloadPrefix { expected: 91, actual: 1 }".to_owned())
    );
    let mut pinned = with_body(VmBody::Publish(vec![]), vec![]);
    pinned.snapshot_pins.push(SnapshotPin { key: vault(composer_addr(), VM_XRD), value: None });
    assert_eq!(
        STATICS.derive(&pinned, PACKAGE, unread(), &cell_key),
        Err(VmStaticsError::PublishExtras)
    );
}

#[test]
fn a_publish_writes_its_package_cell_and_its_payers_vault() {
    let component = wat::parse_str(
        "(component (core module $m (func (export \"f\"))) \
         (core instance $i (instantiate $m)) \
         (func (export \"ping\") (canon lift (core func $i \"f\"))))",
    )
    .unwrap();
    let mut metadata = PackageMetadata::default();
    metadata.insert_method("ping".into(), MethodSignature::default());
    let artifact = attach_metadata(&component, &metadata, &LIMITS).unwrap();
    let vm = with_body(VmBody::Publish(artifact), vec![]);
    let derived = STATICS.derive(&vm, PACKAGE, unread(), &cell_key).expect("derives");
    let mut written = vec![
        DeclaredKey::substate(composer_addr(), package_key(&cell_key, composer_addr(), PACKAGE).local),
        DeclaredKey::substate(composer_addr(), vault_key(&cell_key, composer_addr(), VM_XRD).local),
    ];
    written.sort();
    assert_eq!(derived.routing.write_keys, written);
    assert_eq!(derived.routing.write_prefixes, vec![composer_addr()]);
    assert!(derived.routing.read_keys.is_empty());
}

#[test]
fn effects_fold_by_what_their_modes_share() {
    let at = |owner: u8, mode: Mode| Effect {
        target: EffectTarget::Point(SubstateKey { owner: [owner; 16], local: [1; 16] }),
        mode,
    };
    let routing = fold_effects(&vec![
        at(3, Mode::Read),
        at(1, Mode::Write),
        at(2, Mode::Delta),
        at(4, Mode::Snapshot),
    ]);
    assert_eq!(routing.read_prefixes, vec![[3; 16]]);
    assert_eq!(routing.write_prefixes, vec![[1; 16], [2; 16]]);
    assert_eq!(routing.provision_prefixes, vec![[1; 16], [3; 16]]);
}

#[test]
fn collections_are_admitted_by_their_owner() {
    let entry = EffectTarget::Entry { owner: [5; 16], collection: 2, order: 9 };
    assert_eq!(admission_key(&entry), DeclaredKey::prefix([5; 16]));
    assert_eq!(key_owner(&admission_key(&entry)), [5; 16]);
}

#[test]
fn a_signature_depends_on_the_message_and_the_key() {
    let a = key(7).sign(b"one");
    assert_eq!(a, key(7).sign(b"one"));
    assert_ne!(a, key(7).sign(b"two"));
    assert_ne!(a, key(9).sign(b"one"));
    assert_ne!(key(7).public_key(), [7; 32]);
    assert_ne!(composer_addr(), bob_addr());
}

#[test]
fn cells_are_keyed_by_the_part_they_play() {
    assert_eq!(entropy_key(&cell_key, bob_addr()), cell(bob_addr(), 3, &[]));
    assert_ne!(
        vault_key(&cell_key, bob_addr(), RES_X),
        vault_key(&cell_key, bob_addr(), RES_Y)
    );
    assert_eq!(package_key(&cell_key, bob_addr(), PACKAGE).owner, bob_addr());
}

#[test]
fn child_keys_are_told_apart_by_role_and_material() {
    let owner = [1; 16];
    let parts = |role: CellRole| child_key_parts(&role).unwrap();
    assert_eq!(
        parts(CellRole::Vault { owner, resource: [2; 16] }),
        ChildKeyParts {
            owner,
            role: KeyRole::Vault,
            material: vec![Material::Address([2; 16])],
        }
    );
    assert_eq!(
        parts(CellRole::Entropy { owner }),
        ChildKeyParts { owner, role: KeyRole::Entropy, material: vec![] }
    );
    assert_eq!(
        parts(CellRole::Package { owner, package: [3; 32] }),
        ChildKeyParts {
            owner,
            role: KeyRole::Reserved(0xFFFE),
            material: vec![Material::Raw(vec![3; 32])],
        }
    );
    assert_eq!(PACKAGE_ROLE, 0xFFFE);
    assert!(child_key_parts(&CellRole::Validator { owner, id: 1 }).is_none());
}

/// A tree whose one literal is `inner` inside this many lists.
fn listed(inner: Value, lists: usize) -> EnvelopeTree {
    let mut literal = inner;
    for _ in 0..lists {
        literal = Value::List(vec![literal]);
    }
    single_intent_tree(vec![GraphNode {
        target: composer_addr(),
        method: "deposit".into(),
        args: vec![GraphArg::Literal(literal)],
    }])
}

#[test]
fn reading_counts_a_level_more_for_an_address_than_writing_does() {
    let address = || Value::Address(RES_X);
    let bytes = encode_tree(&listed(address(), 27)).unwrap();
    assert_eq!(decode_tree(&bytes).unwrap(), listed(address(), 27));
    let deepest = encode_tree(&listed(address(), 28)).expect("it is written");
    assert_eq!(
        decode_tree(&deepest),
        Err(VmStaticsError::TreeMalformed { reason: "MaxDepthExceeded(64)".into() })
    );
    assert!(encode_tree(&listed(address(), 29)).is_none());
    // A byte vector takes no level more to read.
    let bytes = || Value::Bytes(vec![7; 16]);
    let wire = encode_tree(&listed(bytes(), 28)).unwrap();
    assert_eq!(decode_tree(&wire).unwrap(), listed(bytes(), 28));
}

#[test]
fn every_refusal_says_what_is_wrong() {
    let text = |refused: VmStaticsError| refused.text(&LIMITS);
    assert_eq!(
        text(VmStaticsError::SubintentCount { bound: 1, carried: 0 }),
        "envelope binds 1 subintents but carries 0 signatures"
    );
    assert_eq!(
        text(VmStaticsError::SubintentSigner { index: 12 }),
        "subintent 12 signer address does not match its public key"
    );
    assert_eq!(text(VmStaticsError::FeePayer), "fee payer is not the composer's own account");
    assert_eq!(
        text(VmStaticsError::Method { method: "m".into(), fault: SignatureFault::Effects }),
        "method \"m\": signature declares more than 128 effects"
    );
    assert_eq!(
        text(VmStaticsError::Method { method: "m".into(), fault: SignatureFault::ExprDepth }),
        "method \"m\": expression nests deeper than 8"
    );
    assert_eq!(
        text(VmStaticsError::Unexported { method: "a\"b".into() }),
        "metadata declares method \"a\\\"b\", which the component does not export"
    );
    assert_eq!(
        text(VmStaticsError::MetadataOversized { bytes: 65_537 }),
        "metadata encodes to 65537 bytes, past the 65536 cap"
    );
    assert_eq!(
        text(VmStaticsError::SectionOversized { bytes: 70_000 }),
        "metadata section is 70000 bytes, past the 65536 cap"
    );
    assert_eq!(
        text(VmStaticsError::EventTable { types: 65 }),
        "event table names 65 types, past the 64 an event index can reach"
    );
    assert_eq!(
        text(VmStaticsError::MethodOrder { method: "a".into() }),
        "method table is not in ascending name order at \"a\""
    );
    assert_eq!(
        text(VmStaticsError::Framing(FramingFault::Duplicate)),
        "artifact declares the effect metadata section twice"
    );
}
