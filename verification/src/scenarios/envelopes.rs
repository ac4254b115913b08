//! Envelopes that the scenarios submit.
//!
//! A built envelope is complete but for the composer's signature over it.
use vstd::prelude::*;

use crate::bridge::account::{account_of, vm_account_address, VM_XRD};
use crate::bridge::codec::encodable;
use crate::bridge::envelope::{
    encode_tree, is_wire_of, Constraint, EdgeRef, EnvelopeTree, GraphArg, GraphNode, IntentDecl,
    ManifestGraph, Subintent, YieldBinding, YieldParam, TREE_DEPTH,
};
use crate::bridge::roles::{derives, CellRole};
use crate::bridge::sbor_value::{Tree, MAX_SBOR_SIZE};
use crate::bridge::staking::StakePoolId;
use crate::bridge::statics::{VmBody, VmSubintentSig, VmTransaction};
use crate::bridge::value::{bytes_tree, Value};
use crate::bridge::wire::Wire;
use crate::crypto::ed25519::{ed25519_public, ed25519_signature, Ed25519PrivateKey};
use crate::crypto::role::{ConsensusPublicKey, ConsensusSignature};
use crate::engine::genesis::{stake_unit, unit_of, StakePoolSeat};
use crate::scenarios::cast::{is_actor, seed_account};
use crate::scenarios::funding::{
    vm_pool_operator, vm_recipient, vm_sender, CONTENTION_RECIPIENT_BASE, CONTENTION_SENDER_BASE,
    OPERATOR_SEED, VM_MAX_FEE,
};
use crate::scenarios::modest::{
    lemma_call_made, lemma_composition_made, lemma_fed_fits, lemma_literals_fit, lemma_names_fit,
    lemma_withdrawal_fits, modest_decl, modest_node,
};
use crate::time::Duration;
use crate::types::SubstateKey;

verus! {

/// The fuel that every built envelope allows.
pub const VM_GAS_LIMIT: u64 = 1_000_000;

/// The fee ceiling that a publish signs.
pub const VM_PUBLISH_MAX_FEE: u128 = 1_000_000;

/// What a probe transfer moves.
pub const PROBE_PAYMENT: u128 = 100;

/// When a transaction is valid.
#[derive(Clone, Copy, Debug, PartialEq, Eq, Structural)]
pub struct TimestampRange {
    /// The first millisecond.
    pub start_ms: u64,
    /// The first millisecond past it.
    pub end_ms: u64,
}

/// The window around a moment: it opens five seconds before, or with the epoch,
/// and closes a hundred and fifty seconds after.
#[must_use]
pub fn validity_around(now: Duration) -> (r: TimestampRange)
    requires
        now.millis + 150_000 <= u64::MAX,
    ensures
        r.start_ms == (if now.millis >= 5_000 {
            now.millis - 5_000
        } else {
            0
        }),
        r.end_ms == now.millis + 150_000,
{
    TimestampRange { start_ms: now.millis.saturating_sub(5_000), end_ms: now.millis + 150_000 }
}

/// An argument, as it reads.
pub ghost enum ArgShape {
    /// A literal, by its wire form.
    Literal(Tree),
    /// The output of another node, and what must hold of it.
    Edge(EdgeRef, Seq<Constraint>),
    /// A yield parameter.
    Param(u32),
}

/// A call, as it reads.
pub ghost struct NodeShape {
    /// The called instance.
    pub target: [u8; 16],
    /// The called method.
    pub method: Seq<char>,
    /// Its arguments.
    pub args: Seq<ArgShape>,
}

/// A declaration, as it reads.
pub ghost struct DeclShape {
    /// Its calls.
    pub nodes: Seq<NodeShape>,
    /// What it expects to be yielded, each with its resource.
    pub params: Seq<([u8; 16], Seq<Constraint>)>,
}

/// A subintent, as it reads.
pub ghost struct SubintentShape {
    /// Its declaration.
    pub decl: DeclShape,
    /// Its signer's account.
    pub signer: [u8; 16],
    /// How its parameters are filled.
    pub bindings: Seq<YieldBinding>,
}

/// An envelope tree, as it reads.
pub ghost struct TreeShape {
    /// The composer's own intent.
    pub root: DeclShape,
    /// How its parameters are filled.
    pub root_bindings: Seq<YieldBinding>,
    /// The intents composed into it.
    pub subintents: Seq<SubintentShape>,
}

/// An argument, as it reads.
pub open spec fn arg_shape(a: GraphArg) -> ArgShape {
    match a {
        GraphArg::Literal(v) => ArgShape::Literal(v.tree()),
        GraphArg::Edge { edge, constraints } => ArgShape::Edge(edge, constraints@),
        GraphArg::Param(i) => ArgShape::Param(i),
    }
}

/// Arguments, as they read.
pub open spec fn arg_shapes(s: Seq<GraphArg>) -> Seq<ArgShape> {
    s.map_values(|a: GraphArg| arg_shape(a))
}

/// A call, as it reads.
pub open spec fn node_shape(n: GraphNode) -> NodeShape {
    NodeShape { target: n.target, method: n.method@, args: arg_shapes(n.args@) }
}

/// Calls, as they read.
pub open spec fn node_shapes(s: Seq<GraphNode>) -> Seq<NodeShape> {
    s.map_values(|n: GraphNode| node_shape(n))
}

/// A declaration, as it reads.
pub open spec fn decl_shape(d: IntentDecl) -> DeclShape {
    DeclShape {
        nodes: node_shapes(d.graph.nodes@),
        params: d.params@.map_values(|p: YieldParam| (p.resource, p.constraints@)),
    }
}

/// A subintent, as it reads.
pub open spec fn subintent_shape(s: Subintent) -> SubintentShape {
    SubintentShape { decl: decl_shape(s.decl), signer: s.signer, bindings: s.bindings@ }
}

/// An envelope tree, as it reads.
pub open spec fn tree_shape(t: EnvelopeTree) -> TreeShape {
    TreeShape {
        root: decl_shape(t.root),
        root_bindings: t.root_bindings@,
        subintents: t.subintents@.map_values(|s: Subintent| subintent_shape(s)),
    }
}

/// A literal address.
pub open spec fn address_arg(a: [u8; 16]) -> ArgShape {
    ArgShape::Literal(Value::Address(a).tree())
}

/// A literal amount.
pub open spec fn amount_arg(x: u128) -> ArgShape {
    ArgShape::Literal(Value::U128(x).tree())
}

/// A literal number.
pub open spec fn number_arg(x: u64) -> ArgShape {
    ArgShape::Literal(Value::U64(x).tree())
}

/// A literal byte string.
pub open spec fn bytes_arg(b: Seq<u8>) -> ArgShape {
    ArgShape::Literal(Tree::Variant(2u8, seq![bytes_tree(b)]))
}

/// The first output of a node, of one resource.
pub open spec fn bucket_arg(producer: u32, resource: [u8; 16]) -> ArgShape {
    ArgShape::Edge(EdgeRef { producer, output: 0 }, seq![Constraint::ResourceIs(resource)])
}

/// A withdrawal from an account.
pub open spec fn withdrawal(from: [u8; 16], resource: [u8; 16], amount: u128) -> NodeShape {
    NodeShape {
        target: from,
        method: "withdraw"@,
        args: seq![address_arg(resource), amount_arg(amount)],
    }
}

/// A call that is fed one bucket.
pub open spec fn fed(
    target: [u8; 16],
    method: Seq<char>,
    producer: u32,
    resource: [u8; 16],
) -> NodeShape {
    NodeShape { target, method, args: seq![bucket_arg(producer, resource)] }
}

/// A tree of one intent that expects nothing.
pub open spec fn single_intent(nodes: Seq<NodeShape>) -> TreeShape {
    TreeShape {
        root: DeclShape { nodes, params: Seq::empty() },
        root_bindings: Seq::empty(),
        subintents: Seq::empty(),
    }
}

/// The envelope carries nothing but a call, a payer, a window and the fee terms.
pub open spec fn terms(
    vm: VmTransaction,
    payer: Ed25519PrivateKey,
    max_fee: u128,
    validity: TimestampRange,
) -> bool {
    &&& vm.fee_payer@ == account_of(ed25519_public(payer.secret()))
    &&& vm.max_fee == max_fee
    &&& vm.gas_limit == VM_GAS_LIMIT
    &&& vm.snapshot_pins@.len() == 0
    &&& vm.validity_start_ms == validity.start_ms
    &&& vm.validity_end_ms == validity.end_ms
    &&& vm.message@.len() == 0
    &&& vm.signer@ == Seq::new(32, |i: int| 0u8)
    &&& vm.signature@ == Seq::new(64, |i: int| 0u8)
}

/// The signature of a subintent's signer over its declaration's hash.
pub open spec fn is_consent(
    sig: VmSubintentSig,
    signer: Ed25519PrivateKey,
    hash: Seq<u8>,
) -> bool {
    sig.public_key@ == ed25519_public(signer.secret()) && sig.signature@ == ed25519_signature(
        signer.secret(),
        hash,
    )
}

/// A tree of a shape was turned into an envelope body; nothing came of it,
/// exactly where it has no wire form.
pub open spec fn calls_tree(r: Option<VmTransaction>, tree: EnvelopeTree) -> bool {
    match r {
        Some(vm) => vm.body is Call && is_wire_of(vm.body->Call_0@, tree),
        None => !encodable(tree.tree(), TREE_DEPTH as int),
    }
}

/// An unsigned call of one intent.
pub open spec fn is_call(
    r: Option<VmTransaction>,
    nodes: Seq<NodeShape>,
    payer: Ed25519PrivateKey,
    validity: TimestampRange,
) -> bool {
    exists|tree: EnvelopeTree| #[trigger]
        calls_tree(r, tree) && tree_shape(tree) == single_intent(nodes) && (r is Some ==> terms(
            r->0,
            payer,
            VM_MAX_FEE,
            validity,
        ) && r->0.subintent_sigs@.len() == 0)
}

/// An unsigned call that composes one signed intent.
pub open spec fn is_composed(
    r: Option<VmTransaction>,
    shape: TreeShape,
    payer: Ed25519PrivateKey,
    signer: Ed25519PrivateKey,
    hash: Seq<u8>,
    validity: TimestampRange,
) -> bool {
    exists|tree: EnvelopeTree| #[trigger]
        calls_tree(r, tree) && tree_shape(tree) == shape && (r is Some ==> terms(
            r->0,
            payer,
            VM_MAX_FEE,
            validity,
        ) && r->0.subintent_sigs@.len() == 1 && is_consent(
            r->0.subintent_sigs@[0],
            signer,
            hash,
        ))
}

fn blank(
    body: VmBody,
    subintent_sigs: Vec<VmSubintentSig>,
    payer: &Ed25519PrivateKey,
    max_fee: u128,
    validity: TimestampRange,
) -> (vm: VmTransaction)
    ensures
        vm.body == body,
        vm.subintent_sigs == subintent_sigs,
        terms(vm, *payer, max_fee, validity),
{
    let vm = VmTransaction {
        body,
        subintent_sigs,
        fee_payer: vm_account_address(&payer.public_key()),
        max_fee,
        gas_limit: VM_GAS_LIMIT,
        snapshot_pins: Vec::new(),
        validity_start_ms: validity.start_ms,
        validity_end_ms: validity.end_ms,
        message: Vec::new(),
        signer: [0; 32],
        signature: [0; 64],
    };
    assert(vm.signer@ =~= Seq::new(32, |i: int| 0u8));
    assert(vm.signature@ =~= Seq::new(64, |i: int| 0u8));
    vm
}

/// Wraps the calls of one intent in an envelope; nothing, where they have no
/// wire form.
pub fn vm_envelope(
    graph: ManifestGraph,
    payer: &Ed25519PrivateKey,
    validity: TimestampRange,
) -> (r: Option<VmTransaction>)
    ensures
        is_call(r, node_shapes(graph.nodes@), *payer, validity),
{
    let ghost nodes = node_shapes(graph.nodes@);
    let tree = EnvelopeTree {
        root: IntentDecl { graph, params: Vec::new() },
        root_bindings: Vec::new(),
        subintents: Vec::new(),
    };
    proof {
        let shape = tree_shape(tree);
        assert(shape.root.params =~= Seq::empty());
        assert(shape.root_bindings =~= Seq::empty());
        assert(shape.subintents =~= Seq::empty());
    }
    let r = match encode_tree(&tree) {
        None => None,
        Some(bytes) => {
            let sigs: Vec<VmSubintentSig> = Vec::new();
            Some(blank(VmBody::Call(bytes), sigs, payer, VM_MAX_FEE, validity))
        },
    };
    assert(calls_tree(r, tree));
    r
}

fn literal_address(a: [u8; 16]) -> (g: GraphArg)
    ensures
        arg_shape(g) == address_arg(a),
{
    GraphArg::Literal(Value::Address(a))
}

fn literal_amount(x: u128) -> (g: GraphArg)
    ensures
        arg_shape(g) == amount_arg(x),
{
    GraphArg::Literal(Value::U128(x))
}

fn literal_number(x: u64) -> (g: GraphArg)
    ensures
        arg_shape(g) == number_arg(x),
{
    GraphArg::Literal(Value::U64(x))
}

fn literal_bytes(b: &[u8]) -> (g: GraphArg)
    ensures
        arg_shape(g) == bytes_arg(b@),
{
    let mut bytes: Vec<u8> = Vec::new();
    bytes.extend_from_slice(b);
    assert(bytes@ =~= b@);
    let v = Value::Bytes(bytes);
    assert(Value::tree(v) == Tree::Variant(2u8, seq![bytes_tree(b@)]));
    GraphArg::Literal(v)
}

fn bucket(producer: u32, resource: [u8; 16]) -> (g: GraphArg)
    ensures
        arg_shape(g) == bucket_arg(producer, resource),
{
    let mut constraints: Vec<Constraint> = Vec::new();
    constraints.push(Constraint::ResourceIs(resource));
    assert(constraints@ =~= seq![Constraint::ResourceIs(resource)]);
    GraphArg::Edge { edge: EdgeRef { producer, output: 0 }, constraints }
}

fn withdraw_node(from: [u8; 16], resource: [u8; 16], amount: u128) -> (n: GraphNode)
    ensures
        node_shape(n) == withdrawal(from, resource, amount),
{
    let mut args: Vec<GraphArg> = Vec::new();
    args.push(literal_address(resource));
    args.push(literal_amount(amount));
    assert(arg_shapes(args@) =~= seq![address_arg(resource), amount_arg(amount)]);
    GraphNode { target: from, method: "withdraw".to_string(), args }
}

fn fed_node(target: [u8; 16], method: &str, producer: u32, resource: [u8; 16]) -> (n: GraphNode)
    ensures
        node_shape(n) == fed(target, method@, producer, resource),
{
    let mut args: Vec<GraphArg> = Vec::new();
    args.push(bucket(producer, resource));
    assert(arg_shapes(args@) =~= seq![bucket_arg(producer, resource)]);
    GraphNode { target, method: method.to_string(), args }
}

/// What a transfer calls.
pub open spec fn transfer_nodes(from: [u8; 16], to: [u8; 16], amount: u128) -> Seq<NodeShape> {
    seq![withdrawal(from, VM_XRD, amount), fed(to, "deposit"@, 0, VM_XRD)]
}

/// A transfer between accounts.
pub fn build_vm_transfer_tx(
    payer: &Ed25519PrivateKey,
    from: [u8; 16],
    to: [u8; 16],
    amount: u128,
    validity: TimestampRange,
) -> (vm: VmTransaction)
    ensures
        is_call(
            Some(vm), transfer_nodes(from, to, amount), *payer, validity),
{
    let mut nodes: Vec<GraphNode> = Vec::new();
    nodes.push(withdraw_node(from, VM_XRD, amount));
    nodes.push(fed_node(to, "deposit", 0, VM_XRD));
    assert(node_shapes(nodes@) =~= transfer_nodes(from, to, amount));
    let r = vm_envelope(ManifestGraph { nodes }, payer, validity);
    proof {
        lemma_names_fit();
        lemma_withdrawal_fits(from, VM_XRD, amount);
        lemma_fed_fits(to, "deposit"@, 0, VM_XRD);
        lemma_call_made(r, transfer_nodes(from, to, amount), *payer, validity);
    }
    match r {
        Some(vm) => vm,
        None => vstd::pervasive::unreached(),
    }
}

/// A transfer from the first funded sender to the first recipient, for a
/// scenario that needs traffic and does not care what it does.
pub fn build_probe_transfer_tx(validity: TimestampRange) -> (vm: VmTransaction)
    ensures
        exists|actor: (Ed25519PrivateKey, [u8; 16]), to: [u8; 16]|
            is_actor(actor, CONTENTION_SENDER_BASE) && to@ == seed_account(
                CONTENTION_RECIPIENT_BASE,
            ) && #[trigger] is_call(
                Some(vm),
                transfer_nodes(actor.1, to, PROBE_PAYMENT),
                actor.0,
                validity,
            ),
{
    let actor = vm_sender(0);
    let to = vm_recipient(0);
    let vm = build_vm_transfer_tx(&actor.0, actor.1, to, PROBE_PAYMENT, validity);
    assert(is_call(
        Some(vm),
        transfer_nodes(actor.1, to, PROBE_PAYMENT),
        actor.0,
        validity,
    ));
    vm
}

/// What a fan-out calls for its first `n` recipients: a withdrawal and a
/// deposit for each, every amount one above the last.
pub open spec fn fan_out_nodes(
    from: [u8; 16],
    recipients: Seq<[u8; 16]>,
    amount: u128,
    n: nat,
) -> Seq<NodeShape>
    decreases n,
{
    if n == 0 {
        Seq::empty()
    } else {
        fan_out_nodes(from, recipients, amount, (n - 1) as nat).push(
            withdrawal(from, VM_XRD, (amount + (n - 1)) as u128),
        ).push(fed(recipients[n - 1], "deposit"@, (2 * (n - 1)) as u32, VM_XRD))
    }
}

proof fn lemma_fan_out_len(from: [u8; 16], recipients: Seq<[u8; 16]>, amount: u128, n: nat)
    ensures
        fan_out_nodes(from, recipients, amount, n).len() == 2 * n,
    decreases n,
{
    if n > 0 {
        lemma_fan_out_len(from, recipients, amount, (n - 1) as nat);
    }
}

proof fn lemma_fan_out_fits(from: [u8; 16], recipients: Seq<[u8; 16]>, amount: u128, n: nat)
    ensures
        fan_out_nodes(from, recipients, amount, n).len() == 2 * n,
        forall|i: int|
            0 <= i < 2 * n ==> modest_node(
                #[trigger] fan_out_nodes(from, recipients, amount, n)[i],
            ),
    decreases n,
{
    if n > 0 {
        lemma_fan_out_fits(from, recipients, amount, (n - 1) as nat);
        lemma_names_fit();
        lemma_withdrawal_fits(from, VM_XRD, (amount + (n - 1)) as u128);
        lemma_fed_fits(recipients[n - 1], "deposit"@, (2 * (n - 1)) as u32, VM_XRD);
    }
}

/// One payment to each recipient, all from one account in one envelope.
pub fn build_vm_fan_out_tx(
    payer: &Ed25519PrivateKey,
    from: [u8; 16],
    recipients: &[[u8; 16]],
    amount: u128,
    validity: TimestampRange,
) -> (vm: VmTransaction)
    requires
        2 * recipients@.len() <= MAX_SBOR_SIZE,
        amount + recipients@.len() <= u128::MAX,
    ensures
        is_call(
            Some(vm),
            fan_out_nodes(from, recipients@, amount, recipients@.len()),
            *payer,
            validity,
        ),
{
    let mut nodes: Vec<GraphNode> = Vec::new();
    let mut i: usize = 0;
    assert(node_shapes(nodes@) =~= fan_out_nodes(from, recipients@, amount, 0));
    while i < recipients.len()
        invariant
            i <= recipients@.len(),
            2 * recipients@.len() <= MAX_SBOR_SIZE,
            amount + recipients@.len() <= u128::MAX,
            node_shapes(nodes@) == fan_out_nodes(from, recipients@, amount, i as nat),
        decreases recipients@.len() - i,
    {
        proof {
            lemma_fan_out_len(from, recipients@, amount, i as nat);
            assert(node_shapes(nodes@).len() == nodes@.len());
        }
        let producer: u32 = nodes.len() as u32;
        let ghost before = nodes@;
        let paid = withdraw_node(from, VM_XRD, amount + i as u128);
        let banked = fed_node(recipients[i], "deposit", producer, VM_XRD);
        nodes.push(paid);
        nodes.push(banked);
        assert(node_shapes(nodes@) =~= node_shapes(before).push(node_shape(paid)).push(
            node_shape(banked),
        ));
        i = i + 1;
    }
    let r = vm_envelope(ManifestGraph { nodes }, payer, validity);
    proof {
        lemma_fan_out_fits(from, recipients@, amount, recipients@.len());
        lemma_call_made(r, fan_out_nodes(from, recipients@, amount, recipients@.len()), *payer, validity);
    }
    match r {
        Some(vm) => vm,
        None => vstd::pervasive::unreached(),
    }
}

/// What a delegation calls: a withdrawal, the stake, and a deposit of the units
/// that the pool issues.
pub open spec fn stake_nodes(from: [u8; 16], pool: [u8; 16], amount: u128, unit: [u8; 16]) -> Seq<
    NodeShape,
> {
    seq![
        withdrawal(from, VM_XRD, amount),
        fed(pool, "stake"@, 0, VM_XRD),
        fed(from, "deposit"@, 1, unit),
    ]
}

/// A delegation to a pool.
pub fn build_vm_stake_tx<K: Fn(CellRole) -> SubstateKey>(
    delegator: &Ed25519PrivateKey,
    from: [u8; 16],
    pool: [u8; 16],
    amount: u128,
    validity: TimestampRange,
    cell_key: &K,
) -> (vm: VmTransaction)
    requires
        derives(*cell_key),
    ensures
        is_call(
            Some(vm), stake_nodes(from, pool, amount, unit_of(pool, *cell_key)), *delegator, validity),
{
    let unit = stake_unit(pool, cell_key);
    let mut nodes: Vec<GraphNode> = Vec::new();
    nodes.push(withdraw_node(from, VM_XRD, amount));
    nodes.push(fed_node(pool, "stake", 0, VM_XRD));
    nodes.push(fed_node(from, "deposit", 1, unit));
    assert(node_shapes(nodes@) =~= stake_nodes(from, pool, amount, unit));
    let r = vm_envelope(ManifestGraph { nodes }, delegator, validity);
    proof {
        lemma_names_fit();
        lemma_withdrawal_fits(from, VM_XRD, amount);
        lemma_fed_fits(pool, "stake"@, 0, VM_XRD);
        lemma_fed_fits(from, "deposit"@, 1, unit);
        lemma_call_made(r, stake_nodes(from, pool, amount, unit), *delegator, validity);
    }
    match r {
        Some(vm) => vm,
        None => vstd::pervasive::unreached(),
    }
}

/// What unwinding a delegation calls: a withdrawal of units, handed back to
/// the pool.
pub open spec fn unstake_nodes(from: [u8; 16], pool: [u8; 16], amount: u128, unit: [u8; 16]) -> Seq<
    NodeShape,
> {
    seq![withdrawal(from, unit, amount), fed(pool, "unstake"@, 0, unit)]
}

/// A return of stake units to a pool.
pub fn build_vm_unstake_tx<K: Fn(CellRole) -> SubstateKey>(
    delegator: &Ed25519PrivateKey,
    from: [u8; 16],
    pool: [u8; 16],
    amount: u128,
    validity: TimestampRange,
    cell_key: &K,
) -> (vm: VmTransaction)
    requires
        derives(*cell_key),
    ensures
        is_call(
            Some(vm),
            unstake_nodes(from, pool, amount, unit_of(pool, *cell_key)),
            *delegator,
            validity,
        ),
{
    let unit = stake_unit(pool, cell_key);
    let mut nodes: Vec<GraphNode> = Vec::new();
    nodes.push(withdraw_node(from, unit, amount));
    nodes.push(fed_node(pool, "unstake", 0, unit));
    assert(node_shapes(nodes@) =~= unstake_nodes(from, pool, amount, unit));
    let r = vm_envelope(ManifestGraph { nodes }, delegator, validity);
    proof {
        lemma_names_fit();
        lemma_withdrawal_fits(from, unit, amount);
        lemma_fed_fits(pool, "unstake"@, 0, unit);
        lemma_call_made(r, unstake_nodes(from, pool, amount, unit), *delegator, validity);
    }
    match r {
        Some(vm) => vm,
        None => vstd::pervasive::unreached(),
    }
}

/// An action of a pool's operator: one call, no funds.
pub fn build_vm_operator_tx(
    operator: &Ed25519PrivateKey,
    pool: [u8; 16],
    method: &str,
    args: Vec<GraphArg>,
    validity: TimestampRange,
) -> (r: Option<VmTransaction>)
    ensures
        is_call(
            r,
            seq![NodeShape { target: pool, method: method@, args: arg_shapes(args@) }],
            *operator,
            validity,
        ),
        modest_node(NodeShape { target: pool, method: method@, args: arg_shapes(args@) })
            ==> r is Some,
{
    let ghost shapes = arg_shapes(args@);
    let mut nodes: Vec<GraphNode> = Vec::new();
    nodes.push(GraphNode { target: pool, method: method.to_string(), args });
    assert(node_shapes(nodes@) =~= seq![
        NodeShape { target: pool, method: method@, args: shapes },
    ]);
    let r = vm_envelope(ManifestGraph { nodes }, operator, validity);
    proof {
        let node = NodeShape { target: pool, method: method@, args: shapes };
        if modest_node(node) {
            lemma_call_made(r, seq![node], *operator, validity);
        }
    }
    r
}

/// A validator that a pool operates is retired.
pub fn build_vm_deactivate_tx(
    operator: &Ed25519PrivateKey,
    pool: [u8; 16],
    validator: u64,
    validity: TimestampRange,
) -> (vm: VmTransaction)
    ensures
        is_call(
            Some(vm),
            seq![
                NodeShape {
                    target: pool,
                    method: "deactivate-validator"@,
                    args: seq![number_arg(validator)],
                },
            ],
            *operator,
            validity,
        ),
{
    let mut args: Vec<GraphArg> = Vec::new();
    args.push(literal_number(validator));
    assert(arg_shapes(args@) =~= seq![number_arg(validator)]);
    proof {
        lemma_names_fit();
        lemma_literals_fit(pool, 0, validator, Seq::empty());
    }
    let r = build_vm_operator_tx(operator, pool, "deactivate-validator", args, validity);
    match r {
        Some(vm) => vm,
        None => vstd::pervasive::unreached(),
    }
}

/// A validator is registered with a pool, by its consensus key and the proof
/// that it holds that key.
pub fn build_vm_register_tx(
    operator: &Ed25519PrivateKey,
    pool: [u8; 16],
    validator: u64,
    pubkey: &ConsensusPublicKey,
    possession_proof: &ConsensusSignature,
    validity: TimestampRange,
) -> (vm: VmTransaction)
    ensures
        is_call(
            Some(vm),
            seq![
                NodeShape {
                    target: pool,
                    method: "register-validator"@,
                    args: seq![
                        number_arg(validator),
                        bytes_arg(pubkey.bytes()),
                        bytes_arg(possession_proof.bytes()),
                    ],
                },
            ],
            *operator,
            validity,
        ),
{
    let mut args: Vec<GraphArg> = Vec::new();
    args.push(literal_number(validator));
    args.push(literal_bytes(pubkey.as_bytes().as_slice()));
    args.push(literal_bytes(possession_proof.as_bytes().as_slice()));
    assert(arg_shapes(args@) =~= seq![
        number_arg(validator),
        bytes_arg(pubkey.bytes()),
        bytes_arg(possession_proof.bytes()),
    ]);
    proof {
        lemma_names_fit();
        lemma_literals_fit(pool, 0, validator, pubkey.bytes());
        lemma_literals_fit(pool, 0, validator, possession_proof.bytes());
    }
    let r = build_vm_operator_tx(operator, pool, "register-validator", args, validity);
    match r {
        Some(vm) => vm,
        None => vstd::pervasive::unreached(),
    }
}

/// The founding pool votes to retune the split threshold. Every governed
/// parameter travels: a vote is a whole proposal.
pub fn build_reshape_threshold_vote_tx(
    operator: &Ed25519PrivateKey,
    split_bytes: u64,
    impound_epochs: u64,
    activate_at: u64,
    validity: TimestampRange,
) -> (vm: VmTransaction)
    ensures
        is_call(
            Some(vm),
            seq![
                NodeShape {
                    target: VM_GENESIS_POOL,
                    method: "cast-param-vote"@,
                    args: seq![
                        number_arg(split_bytes),
                        number_arg(impound_epochs),
                        number_arg(activate_at),
                    ],
                },
            ],
            *operator,
            validity,
        ),
{
    let mut args: Vec<GraphArg> = Vec::new();
    args.push(literal_number(split_bytes));
    args.push(literal_number(impound_epochs));
    args.push(literal_number(activate_at));
    assert(arg_shapes(args@) =~= seq![
        number_arg(split_bytes),
        number_arg(impound_epochs),
        number_arg(activate_at),
    ]);
    proof {
        lemma_names_fit();
        lemma_literals_fit(VM_GENESIS_POOL, 0, split_bytes, Seq::empty());
        lemma_literals_fit(VM_GENESIS_POOL, 0, impound_epochs, Seq::empty());
        lemma_literals_fit(VM_GENESIS_POOL, 0, activate_at, Seq::empty());
    }
    let r = build_vm_operator_tx(operator, VM_GENESIS_POOL, "cast-param-vote", args, validity);
    match r {
        Some(vm) => vm,
        None => vstd::pervasive::unreached(),
    }
}

/// A declaration that stamps an account's leaf.
pub open spec fn stamp_shape(owner: [u8; 16]) -> DeclShape {
    DeclShape {
        nodes: seq![NodeShape { target: owner, method: "stamp-entropy"@, args: Seq::empty() }],
        params: Seq::empty(),
    }
}

fn stamp(owner: [u8; 16]) -> (d: IntentDecl)
    ensures
        decl_shape(d) == stamp_shape(owner),
{
    let mut nodes: Vec<GraphNode> = Vec::new();
    let args: Vec<GraphArg> = Vec::new();
    nodes.push(GraphNode { target: owner, method: "stamp-entropy".to_string(), args });
    let d = IntentDecl { graph: ManifestGraph { nodes }, params: Vec::new() };
    proof {
        assert(arg_shapes(args@) =~= Seq::empty());
        assert(decl_shape(d).nodes =~= stamp_shape(owner).nodes);
        assert(decl_shape(d).params =~= Seq::empty());
    }
    d
}

/// What composes a stamp of the payer's leaf with one of another account's.
pub open spec fn stamps_shape(left: [u8; 16], right: [u8; 16]) -> TreeShape {
    TreeShape {
        root: stamp_shape(left),
        root_bindings: Seq::empty(),
        subintents: seq![
            SubintentShape { decl: stamp_shape(right), signer: right, bindings: Seq::empty() },
        ],
    }
}

fn compose(
    root: IntentDecl,
    subintent: Subintent,
    composer: &Ed25519PrivateKey,
    signer_key: &Ed25519PrivateKey,
    hash: &[u8; 32],
    validity: TimestampRange,
) -> (r: Option<VmTransaction>)
    ensures
        is_composed(
            r,
            TreeShape {
                root: decl_shape(root),
                root_bindings: Seq::empty(),
                subintents: seq![subintent_shape(subintent)],
            },
            *composer,
            *signer_key,
            hash@,
            validity,
        ),
{
    let ghost first = decl_shape(root);
    let ghost second = subintent_shape(subintent);
    let mut subintents: Vec<Subintent> = Vec::new();
    subintents.push(subintent);
    let tree = EnvelopeTree { root, root_bindings: Vec::new(), subintents };
    proof {
        let shape = tree_shape(tree);
        assert(shape.root_bindings =~= Seq::empty());
        assert(shape.subintents =~= seq![second]);
    }
    let r = match encode_tree(&tree) {
        None => None,
        Some(bytes) => {
            let mut sigs: Vec<VmSubintentSig> = Vec::new();
            sigs.push(
                VmSubintentSig {
                    public_key: signer_key.public_key(),
                    signature: signer_key.sign(hash.as_slice()),
                },
            );
            Some(blank(VmBody::Call(bytes), sigs, composer, VM_MAX_FEE, validity))
        },
    };
    assert(calls_tree(r, tree));
    r
}

/// A stamp of two accounts' leaves in one envelope. Each account signs its own:
/// the payer the envelope, the other the hash of its declaration.
pub fn build_vm_stamp_tx(
    payer: &Ed25519PrivateKey,
    left: [u8; 16],
    right_key: &Ed25519PrivateKey,
    right_hash: &[u8; 32],
    validity: TimestampRange,
) -> (vm: VmTransaction)
    ensures
        exists|right: [u8; 16]|
            right@ == account_of(ed25519_public(right_key.secret())) && #[trigger] is_composed(
                Some(vm),
                stamps_shape(left, right),
                *payer,
                *right_key,
                right_hash@,
                validity,
            ),
{
    let right = vm_account_address(&right_key.public_key());
    let subintent = Subintent { decl: stamp(right), signer: right, bindings: Vec::new() };
    proof {
        assert(subintent.bindings@ =~= Seq::empty());
        assert(seq![subintent_shape(subintent)] =~= stamps_shape(left, right).subintents);
    }
    let r = compose(stamp(left), subintent, payer, right_key, right_hash, validity);
    proof {
        lemma_names_fit();
        let shape = stamps_shape(left, right);
        assert(modest_node(shape.root.nodes[0]));
        assert(modest_node(shape.subintents[0].decl.nodes[0]));
        assert(modest_decl(shape.subintents[0].decl));
        lemma_composition_made(r, shape, *payer, *right_key, right_hash@, validity);
    }
    match r {
        Some(vm) => {
            assert(is_composed(
                Some(vm),
                stamps_shape(left, right),
                *payer,
                *right_key,
                right_hash@,
                validity,
            ));
            vm
        },
        None => vstd::pervasive::unreached(),
    }
}

/// A payment request: whoever hands the signer at least this much, the signer
/// banks it.
pub open spec fn request_shape(signer: [u8; 16], amount: u128) -> DeclShape {
    DeclShape {
        nodes: seq![
            NodeShape { target: signer, method: "deposit"@, args: seq![ArgShape::Param(0)] },
        ],
        params: seq![(VM_XRD, seq![Constraint::MinAmount(amount)])],
    }
}

/// The payment request that a signer puts their name to.
#[must_use]
pub fn vm_payment_request(signer: [u8; 16], amount: u128) -> (d: IntentDecl)
    ensures
        decl_shape(d) == request_shape(signer, amount),
        modest_decl(decl_shape(d)),
{
    let mut args: Vec<GraphArg> = Vec::new();
    args.push(GraphArg::Param(0));
    let mut nodes: Vec<GraphNode> = Vec::new();
    nodes.push(GraphNode { target: signer, method: "deposit".to_string(), args });
    let mut constraints: Vec<Constraint> = Vec::new();
    constraints.push(Constraint::MinAmount(amount));
    let mut params: Vec<YieldParam> = Vec::new();
    params.push(YieldParam { resource: VM_XRD, constraints });
    let d = IntentDecl { graph: ManifestGraph { nodes }, params };
    proof {
        let want = request_shape(signer, amount);
        assert(arg_shapes(args@) =~= seq![ArgShape::Param(0)]);
        assert(decl_shape(d).nodes =~= want.nodes);
        assert(constraints@ =~= seq![Constraint::MinAmount(amount)]);
        assert(decl_shape(d).params =~= want.params);
        lemma_names_fit();
        assert(modest_node(want.nodes[0]));
    }
    d
}

/// What fills a request: a withdrawal by the composer, yielded to it.
pub open spec fn composed_shape(
    from: [u8; 16],
    amount: u128,
    request: DeclShape,
    signer: [u8; 16],
) -> TreeShape {
    TreeShape {
        root: DeclShape {
            nodes: seq![withdrawal(from, VM_XRD, amount)],
            params: Seq::empty(),
        },
        root_bindings: Seq::empty(),
        subintents: seq![
            SubintentShape {
                decl: request,
                signer,
                bindings: seq![
                    YieldBinding { intent: 0, edge: EdgeRef { producer: 0, output: 0 } },
                ],
            },
        ],
    }
}

/// Composes a signed request into an envelope that fills it.
pub fn build_vm_composed_tx(
    composer: &Ed25519PrivateKey,
    from: [u8; 16],
    signer_key: &Ed25519PrivateKey,
    request: IntentDecl,
    request_hash: &[u8; 32],
    amount: u128,
    validity: TimestampRange,
) -> (r: Option<VmTransaction>)
    ensures
        exists|signer: [u8; 16]|
            signer@ == account_of(ed25519_public(signer_key.secret())) && #[trigger] is_composed(
                r,
                composed_shape(from, amount, decl_shape(request), signer),
                *composer,
                *signer_key,
                request_hash@,
                validity,
            ),
        modest_decl(decl_shape(request)) ==> r is Some,
{
    let signer = vm_account_address(&signer_key.public_key());
    let ghost asked = decl_shape(request);
    let mut nodes: Vec<GraphNode> = Vec::new();
    nodes.push(withdraw_node(from, VM_XRD, amount));
    let root = IntentDecl { graph: ManifestGraph { nodes }, params: Vec::new() };
    let mut bindings: Vec<YieldBinding> = Vec::new();
    bindings.push(YieldBinding { intent: 0, edge: EdgeRef { producer: 0, output: 0 } });
    let subintent = Subintent { decl: request, signer, bindings };
    proof {
        let want = composed_shape(from, amount, asked, signer);
        assert(decl_shape(root).nodes =~= want.root.nodes);
        assert(decl_shape(root).params =~= Seq::empty());
        assert(bindings@ =~= want.subintents[0].bindings);
        assert(seq![subintent_shape(subintent)] =~= want.subintents);
    }
    let r = compose(root, subintent, composer, signer_key, request_hash, validity);
    assert(is_composed(
        r,
        composed_shape(from, amount, asked, signer),
        *composer,
        *signer_key,
        request_hash@,
        validity,
    ));
    proof {
        if modest_decl(asked) {
            let shape = composed_shape(from, amount, asked, signer);
            lemma_withdrawal_fits(from, VM_XRD, amount);
            assert(modest_node(shape.root.nodes[0]));
            assert(modest_decl(shape.subintents[0].decl));
            lemma_composition_made(r, shape, *composer, *signer_key, request_hash@, validity);
        }
    }
    r
}

/// A publish of an artifact, paid for by its publisher.
#[must_use]
pub fn build_vm_publish_tx(
    payer: &Ed25519PrivateKey,
    artifact: Vec<u8>,
    validity: TimestampRange,
) -> (vm: VmTransaction)
    ensures
        vm.body == VmBody::Publish(artifact),
        vm.subintent_sigs@.len() == 0,
        terms(vm, *payer, VM_PUBLISH_MAX_FEE, validity),
{
    let sigs: Vec<VmSubintentSig> = Vec::new();
    blank(VmBody::Publish(artifact), sigs, payer, VM_PUBLISH_MAX_FEE, validity)
}

/// The stake pool that the staking scenarios delegate to. No key derives its
/// address.
pub const VM_STAKE_POOL: [u8; 16] = [
    0x50, 0x50, 0x50, 0x50, 0x50, 0x50, 0x50, 0x50, 0x50, 0x50, 0x50, 0x50, 0x50, 0x50, 0x50, 0x50,
];

/// A second pool, for scenarios in which two pools disagree.
pub const VM_SECOND_POOL: [u8; 16] = [
    0x51, 0x51, 0x51, 0x51, 0x51, 0x51, 0x51, 0x51, 0x51, 0x51, 0x51, 0x51, 0x51, 0x51, 0x51, 0x51,
];

/// The pool that every founding validator belongs to.
pub const VM_GENESIS_POOL: [u8; 16] = [
    0x52, 0x52, 0x52, 0x52, 0x52, 0x52, 0x52, 0x52, 0x52, 0x52, 0x52, 0x52, 0x52, 0x52, 0x52, 0x52,
];

/// The identifier that the beacon folds the first pool under.
pub const VM_STAKE_POOL_ID: u32 = 7777;

/// The identifier that the beacon folds the second pool under.
pub const VM_SECOND_POOL_ID: u32 = 7778;

/// The identifier that the beacon folds the founding pool under.
pub const VM_GENESIS_POOL_ID: u32 = 0;

/// A seat of a pool that operates nobody yet.
pub open spec fn is_seat(seat: StakePoolSeat, address: [u8; 16], id: u32) -> bool {
    &&& seat.address == address
    &&& seat.id == StakePoolId(id)
    &&& seat.operator@ == seed_account(OPERATOR_SEED)
    &&& seat.founding@.len() == 0
}

/// The three pools, under one operator.
pub open spec fn is_staking_pools(list: Seq<StakePoolSeat>) -> bool {
    &&& list.len() == 3
    &&& is_seat(list[0], VM_STAKE_POOL, VM_STAKE_POOL_ID)
    &&& is_seat(list[1], VM_SECOND_POOL, VM_SECOND_POOL_ID)
    &&& is_seat(list[2], VM_GENESIS_POOL, VM_GENESIS_POOL_ID)
}

/// The pools that a staking cluster seats.
#[must_use]
pub fn vm_staking_pools() -> (list: Vec<StakePoolSeat>)
    ensures
        is_staking_pools(list@),
{
    let operator = vm_pool_operator().1;
    let mut list: Vec<StakePoolSeat> = Vec::new();
    list.push(
        StakePoolSeat {
            address: VM_STAKE_POOL,
            id: StakePoolId(VM_STAKE_POOL_ID),
            operator,
            founding: Vec::new(),
        },
    );
    list.push(
        StakePoolSeat {
            address: VM_SECOND_POOL,
            id: StakePoolId(VM_SECOND_POOL_ID),
            operator,
            founding: Vec::new(),
        },
    );
    list.push(
        StakePoolSeat {
            address: VM_GENESIS_POOL,
            id: StakePoolId(VM_GENESIS_POOL_ID),
            operator,
            founding: Vec::new(),
        },
    );
    list
}

/// The pools that every cluster recognises.
#[must_use]
pub fn vm_world_pools() -> (list: Vec<StakePoolSeat>)
    ensures
        is_staking_pools(list@),
{
    vm_staking_pools()
}

/// A call takes an amount of one resource out of an account.
pub open spec fn takes_out(
    n: NodeShape,
    account: [u8; 16],
    resource: [u8; 16],
    amount: int,
) -> bool {
    &&& n.target == account
    &&& n.method == "withdraw"@
    &&& n.args.len() == 2
    &&& n.args[0] == ArgShape::Literal(Value::Address(resource).tree())
    &&& 0 <= amount <= u128::MAX
    &&& n.args[1] == ArgShape::Literal(Value::U128(amount as u128).tree())
}

/// A call hands an instance the first output of an earlier call, which must be of
/// one resource.
pub open spec fn hands_on(
    n: NodeShape,
    target: [u8; 16],
    method: Seq<char>,
    producer: int,
    resource: [u8; 16],
) -> bool {
    &&& n.target == target
    &&& n.method == method
    &&& n.args.len() == 1
    &&& match n.args[0] {
        ArgShape::Edge(edge, constraints) => edge.producer == producer && edge.output == 0
            && constraints.len() == 1 && constraints[0] == Constraint::ResourceIs(resource),
        _ => false,
    }
}

/// A transfer takes the amount out of the one account and hands just that on to
/// the other.
pub proof fn law_a_transfer_hands_on_what_it_takes(from: [u8; 16], to: [u8; 16], amount: u128)
    ensures
        transfer_nodes(from, to, amount).len() == 2,
        takes_out(transfer_nodes(from, to, amount)[0], from, VM_XRD, amount as int),
        hands_on(transfer_nodes(from, to, amount)[1], to, "deposit"@, 0, VM_XRD),
{
}

/// A fan-out pays every recipient, in order: for each it takes an amount out of
/// the one account, one more than for the recipient before, and hands just that
/// on to the recipient.
pub proof fn law_a_fan_out_pays_every_recipient(
    from: [u8; 16],
    recipients: Seq<[u8; 16]>,
    amount: u128,
    n: nat,
    i: int,
)
    requires
        0 <= i < n,
        amount + n <= u128::MAX,
        2 * n <= u32::MAX,
    ensures
        ({
            let nodes = fan_out_nodes(from, recipients, amount, n);
            &&& nodes.len() == 2 * n
            &&& takes_out(nodes[2 * i], from, VM_XRD, amount + i)
            &&& hands_on(nodes[2 * i + 1], recipients[i], "deposit"@, 2 * i, VM_XRD)
        }),
    decreases n,
{
    lemma_fan_out_len(from, recipients, amount, n);
    lemma_fan_out_len(from, recipients, amount, (n - 1) as nat);
    if i < n - 1 {
        law_a_fan_out_pays_every_recipient(from, recipients, amount, (n - 1) as nat, i);
        let before = fan_out_nodes(from, recipients, amount, (n - 1) as nat);
        let nodes = fan_out_nodes(from, recipients, amount, n);
        assert(nodes[2 * i] == before[2 * i]);
        assert(nodes[2 * i + 1] == before[2 * i + 1]);
    }
}

/// A delegation takes the stake out of the delegator's account, hands it to the
/// pool, and hands the units that the pool gives for it back to the account.
/// Unwinding takes units out and hands them to the pool.
pub proof fn law_a_delegation_comes_back_as_units(
    from: [u8; 16],
    pool: [u8; 16],
    amount: u128,
    unit: [u8; 16],
)
    ensures
        ({
            let nodes = stake_nodes(from, pool, amount, unit);
            &&& nodes.len() == 3
            &&& takes_out(nodes[0], from, VM_XRD, amount as int)
            &&& hands_on(nodes[1], pool, "stake"@, 0, VM_XRD)
            &&& hands_on(nodes[2], from, "deposit"@, 1, unit)
        }),
        ({
            let nodes = unstake_nodes(from, pool, amount, unit);
            &&& nodes.len() == 2
            &&& takes_out(nodes[0], from, unit, amount as int)
            &&& hands_on(nodes[1], pool, "unstake"@, 0, unit)
        }),
{
}

/// A request is one deposit to its signer of what it is handed, of the one resource
/// and at least the amount. What fills it takes an amount out of the composer's
/// account and yields just that to the request, which keeps its declaration and
/// its signer.
pub proof fn law_a_request_is_filled_from_the_composers_account(
    from: [u8; 16],
    amount: u128,
    asked: u128,
    signer: [u8; 16],
)
    ensures
        ({
            let request = request_shape(signer, asked);
            let filled = composed_shape(from, amount, request, signer);
            &&& request.nodes.len() == 1
            &&& request.nodes[0].target == signer
            &&& request.nodes[0].method == "deposit"@
            &&& request.nodes[0].args.len() == 1 && request.nodes[0].args[0] == ArgShape::Param(0)
            &&& request.params.len() == 1
            &&& request.params[0].0 == VM_XRD
            &&& request.params[0].1.len() == 1 && request.params[0].1[0] == Constraint::MinAmount(
                asked,
            )
            &&& filled.root.nodes.len() == 1
            &&& takes_out(filled.root.nodes[0], from, VM_XRD, amount as int)
            &&& filled.root.params.len() == 0 && filled.root_bindings.len() == 0
            &&& filled.subintents.len() == 1
            &&& filled.subintents[0].decl == request
            &&& filled.subintents[0].signer == signer
            &&& filled.subintents[0].bindings.len() == 1
            &&& filled.subintents[0].bindings[0].intent == 0
            &&& filled.subintents[0].bindings[0].edge.producer == 0
            &&& filled.subintents[0].bindings[0].edge.output == 0
        }),
{
}

/// A stamp of two leaves calls each account's own stamp once, the payer's as its
/// own intent and the other's as one that the other signs.
pub proof fn law_a_stamp_reaches_both_leaves(left: [u8; 16], right: [u8; 16])
    ensures
        ({
            let shape = stamps_shape(left, right);
            &&& shape.root.nodes.len() == 1
            &&& shape.root.nodes[0].target == left
            &&& shape.root.nodes[0].method == "stamp-entropy"@
            &&& shape.root.nodes[0].args.len() == 0
            &&& shape.root.params.len() == 0 && shape.root_bindings.len() == 0
            &&& shape.subintents.len() == 1
            &&& shape.subintents[0].signer == right
            &&& shape.subintents[0].decl.nodes.len() == 1
            &&& shape.subintents[0].decl.nodes[0].target == right
            &&& shape.subintents[0].decl.nodes[0].method == "stamp-entropy"@
            &&& shape.subintents[0].decl.nodes[0].args.len() == 0
            &&& shape.subintents[0].decl.params.len() == 0
            &&& shape.subintents[0].bindings.len() == 0
        }),
{
}

/// A built call is on the payer's account and the caller's window, up to a fee of a
/// thousand and a million of fuel; it pins nothing, says nothing and is not yet
/// signed. Its body is the wire form of one intent with the calls asked for, in
/// order, and nothing besides.
pub proof fn law_a_built_call_is_what_was_asked_for(
    vm: VmTransaction,
    nodes: Seq<NodeShape>,
    payer: Ed25519PrivateKey,
    validity: TimestampRange,
)
    requires
        is_call(Some(vm), nodes, payer, validity),
    ensures
        vm.fee_payer@ == account_of(ed25519_public(payer.secret())),
        vm.max_fee == 1_000,
        vm.gas_limit == 1_000_000,
        vm.validity_start_ms == validity.start_ms,
        vm.validity_end_ms == validity.end_ms,
        vm.snapshot_pins@.len() == 0,
        vm.message@.len() == 0,
        vm.subintent_sigs@.len() == 0,
        forall|i: int| 0 <= i < 64 ==> #[trigger] vm.signature@[i] == 0,
        vm.body is Call,
        exists|tree: EnvelopeTree| #[trigger]
            is_wire_of(vm.body->Call_0@, tree) && tree.root_bindings@.len() == 0
                && tree.subintents@.len() == 0 && tree.root.params@.len() == 0
                && tree.root.graph.nodes@.len() == nodes.len() && forall|i: int|
                0 <= i < nodes.len() ==> {
                    let node = #[trigger] tree.root.graph.nodes@[i];
                    &&& node.target == nodes[i].target
                    &&& node.method@ == nodes[i].method
                    &&& node.args@.len() == nodes[i].args.len()
                    &&& forall|k: int|
                        0 <= k < node.args@.len() ==> match #[trigger] node.args@[k] {
                            GraphArg::Literal(v) => nodes[i].args[k] == ArgShape::Literal(v.tree()),
                            GraphArg::Edge { edge, constraints } => nodes[i].args[k]
                                == ArgShape::Edge(edge, constraints@),
                            GraphArg::Param(p) => nodes[i].args[k] == ArgShape::Param(p),
                        }
                },
{
    let tree = choose|tree: EnvelopeTree| #[trigger]
        calls_tree(Some(vm), tree) && tree_shape(tree) == single_intent(nodes) && terms(
            vm,
            payer,
            VM_MAX_FEE,
            validity,
        ) && vm.subintent_sigs@.len() == 0;
    let shape = tree_shape(tree);
    assert(shape.subintents.len() == 0);
    assert(shape.root.nodes == nodes);
    assert(shape.root.params.len() == 0);
    assert forall|i: int| 0 <= i < nodes.len() implies {
        let node = #[trigger] tree.root.graph.nodes@[i];
        &&& node.target == nodes[i].target
        &&& node.method@ == nodes[i].method
        &&& node.args@.len() == nodes[i].args.len()
        &&& forall|k: int|
            0 <= k < node.args@.len() ==> match #[trigger] node.args@[k] {
                GraphArg::Literal(v) => nodes[i].args[k] == ArgShape::Literal(v.tree()),
                GraphArg::Edge { edge, constraints } => nodes[i].args[k] == ArgShape::Edge(
                    edge,
                    constraints@,
                ),
                GraphArg::Param(p) => nodes[i].args[k] == ArgShape::Param(p),
            }
    } by {
        let node = tree.root.graph.nodes@[i];
        assert(nodes[i] == node_shape(node));
        assert forall|k: int| 0 <= k < node.args@.len() implies match #[trigger] node.args@[k] {
            GraphArg::Literal(v) => nodes[i].args[k] == ArgShape::Literal(v.tree()),
            GraphArg::Edge { edge, constraints } => nodes[i].args[k] == ArgShape::Edge(
                edge,
                constraints@,
            ),
            GraphArg::Param(p) => nodes[i].args[k] == ArgShape::Param(p),
        } by {
            assert(nodes[i].args[k] == arg_shape(node.args@[k]));
        }
    }
    assert(is_wire_of(vm.body->Call_0@, tree));
}

/// The staking cluster seats three pools under the one operator, at three
/// addresses and under three identifiers, and none of them operates anybody yet.
pub proof fn law_the_staking_pools_are_three(list: Seq<StakePoolSeat>)
    requires
        is_staking_pools(list),
    ensures
        list.len() == 3,
        list[0].id == StakePoolId(7777) && list[1].id == StakePoolId(7778) && list[2].id
            == StakePoolId(0),
        list[0].address == VM_STAKE_POOL && list[1].address == VM_SECOND_POOL && list[2].address
            == VM_GENESIS_POOL,
        forall|i: int|
            0 <= i < 3 ==> (#[trigger] list[i]).founding@.len() == 0 && list[i].operator
                == list[0].operator,
{
    assert(list[1].operator =~= list[0].operator);
    assert(list[2].operator =~= list[0].operator);
}

/// A composed call is on the composer's account and window, up to a fee of a
/// thousand, and carries one consent: the signer's key, and the signer's
/// signature over the hash of what the signer put their name to.
pub proof fn law_a_composition_carries_its_signers_consent(
    vm: VmTransaction,
    shape: TreeShape,
    payer: Ed25519PrivateKey,
    signer: Ed25519PrivateKey,
    hash: Seq<u8>,
    validity: TimestampRange,
)
    requires
        is_composed(Some(vm), shape, payer, signer, hash, validity),
    ensures
        vm.fee_payer@ == account_of(ed25519_public(payer.secret())),
        vm.max_fee == 1_000,
        vm.gas_limit == 1_000_000,
        vm.validity_start_ms == validity.start_ms,
        vm.validity_end_ms == validity.end_ms,
        vm.subintent_sigs@.len() == 1,
        vm.subintent_sigs@[0].public_key@ == ed25519_public(signer.secret()),
        vm.subintent_sigs@[0].signature@ == ed25519_signature(signer.secret(), hash),
        vm.body is Call,
        exists|tree: EnvelopeTree| #[trigger]
            is_wire_of(vm.body->Call_0@, tree) && tree_shape(tree) == shape,
{
    let tree = choose|tree: EnvelopeTree| #[trigger]
        calls_tree(Some(vm), tree) && tree_shape(tree) == shape && terms(
            vm,
            payer,
            VM_MAX_FEE,
            validity,
        ) && vm.subintent_sigs@.len() == 1 && is_consent(vm.subintent_sigs@[0], signer, hash);
    assert(is_wire_of(vm.body->Call_0@, tree));
}

/// A literal number and a literal byte string are the wire forms of just those.
pub proof fn law_literals_are_their_own_forms(x: u64, bytes: Vec<u8>)
    ensures
        number_arg(x) == ArgShape::Literal(Value::U64(x).tree()),
        bytes_arg(bytes@) == ArgShape::Literal(Value::Bytes(bytes).tree()),
{
}

} // verus!
