//! Walking a manifest: which guest call each node makes, what comes back of it,
//! and how the walk ends.
use vstd::prelude::*;

use crate::bridge::roles::{derive_key, derives, key_by, CellRole};
use crate::bridge::value::Value;
use crate::bytes::{le_value, lemma_le_round_trip, lemma_widths};
use crate::engine::fold::{amount_cell, encode_amount};
use crate::order::same_key;
use crate::storage::canonical::copy_bytes;
use crate::types::SubstateKey;

verus! {

/// The fuel that one guest call may consume.
pub const FUEL: u64 = 10_000_000;

/// A guest call of the account surface.
#[derive(Debug)]
pub enum Invocation<'a> {
    /// Takes an amount out of a vault.
    Withdraw {
        /// The vault's reserve handle.
        vault_rep: u32,
        /// The amount's cell bytes.
        amount: &'a [u8],
    },
    /// Puts a bucket into a vault.
    Deposit {
        /// The vault's delta handle.
        vault_rep: u32,
        /// The bucket's bytes.
        bucket: &'a [u8],
    },
    /// Requires a vault to hold a minimum.
    AssertBalance {
        /// The vault's snapshot handle.
        vault_rep: u32,
        /// The minimum's cell bytes.
        min: &'a [u8],
    },
    /// Writes the block's randomness into a leaf.
    StampEntropy {
        /// The leaf's write handle.
        leaf_rep: u32,
    },
}

/// What kind of cell a guest argument borrows.
#[derive(Clone, Copy, Debug, PartialEq, Eq, Structural)]
pub enum ResourceKind {
    /// A reservation.
    ReserveCell,
    /// A commutative amount.
    DeltaCell,
    /// A pinned value.
    SnapCell,
    /// An exclusive cell.
    WriteCell,
}

/// An argument of a guest export.
#[derive(Clone, Copy, Debug)]
pub enum GuestArg<'a> {
    /// A borrowed cell.
    Borrow(u32, ResourceKind),
    /// A byte string.
    Bytes(&'a [u8]),
}

/// What an argument says.
pub ghost enum ArgView {
    /// A borrowed cell.
    Borrow(u32, ResourceKind),
    /// A byte string.
    Bytes(Seq<u8>),
}

impl<'a> View for GuestArg<'a> {
    type V = ArgView;

    open spec fn view(&self) -> ArgView {
        match self {
            GuestArg::Borrow(rep, kind) => ArgView::Borrow(*rep, *kind),
            GuestArg::Bytes(b) => ArgView::Bytes(b@),
        }
    }
}

/// A call of a guest export.
pub struct GuestCall<'a> {
    /// The export's name.
    pub export: &'static str,
    /// The handle of the cell it works on.
    pub cell: GuestArg<'a>,
    /// What it is handed besides.
    pub bytes: Option<GuestArg<'a>>,
    /// Whether it hands a byte string back.
    pub has_output: bool,
}

impl<'a> Invocation<'a> {
    /// The export that an invocation calls, its arguments, and whether it
    /// hands a byte string back. Only a withdrawal does.
    pub fn guest_call(&self) -> (c: GuestCall<'a>)
        ensures
            c.has_output == (*self is Withdraw),
            match self {
                Invocation::Withdraw { vault_rep, amount } => c.export@ == "withdraw"@ && c.cell@
                    == ArgView::Borrow(*vault_rep, ResourceKind::ReserveCell) && c.bytes is Some
                    && c.bytes->0@ == ArgView::Bytes(amount@),
                Invocation::Deposit { vault_rep, bucket } => c.export@ == "deposit"@ && c.cell@
                    == ArgView::Borrow(*vault_rep, ResourceKind::DeltaCell) && c.bytes is Some
                    && c.bytes->0@ == ArgView::Bytes(bucket@),
                Invocation::AssertBalance { vault_rep, min } => c.export@ == "assert-balance"@
                    && c.cell@ == ArgView::Borrow(*vault_rep, ResourceKind::SnapCell)
                    && c.bytes is Some && c.bytes->0@ == ArgView::Bytes(min@),
                Invocation::StampEntropy { leaf_rep } => c.export@ == "stamp-entropy"@ && c.cell@
                    == ArgView::Borrow(*leaf_rep, ResourceKind::WriteCell) && c.bytes is None,
            },
    {
        match self {
            Invocation::Withdraw { vault_rep, amount } => GuestCall {
                export: "withdraw",
                cell: GuestArg::Borrow(*vault_rep, ResourceKind::ReserveCell),
                bytes: Some(GuestArg::Bytes(*amount)),
                has_output: true,
            },
            Invocation::Deposit { vault_rep, bucket } => GuestCall {
                export: "deposit",
                cell: GuestArg::Borrow(*vault_rep, ResourceKind::DeltaCell),
                bytes: Some(GuestArg::Bytes(*bucket)),
                has_output: false,
            },
            Invocation::AssertBalance { vault_rep, min } => GuestCall {
                export: "assert-balance",
                cell: GuestArg::Borrow(*vault_rep, ResourceKind::SnapCell),
                bytes: Some(GuestArg::Bytes(*min)),
                has_output: false,
            },
            Invocation::StampEntropy { leaf_rep } => GuestCall {
                export: "stamp-entropy",
                cell: GuestArg::Borrow(*leaf_rep, ResourceKind::WriteCell),
                bytes: None,
                has_output: false,
            },
        }
    }
}

/// A value that a guest export hands back.
#[derive(Debug, PartialEq, Eq)]
pub enum GuestValue {
    /// A byte string.
    Bytes(Vec<u8>),
    /// Anything else.
    Other,
}

/// The values have the shape that an export promises: one byte string where it
/// hands one back, nothing otherwise.
pub open spec fn well_shaped(has_output: bool, values: Seq<GuestValue>) -> bool {
    if has_output {
        values.len() == 1 && values[0] is Bytes
    } else {
        values.len() == 0
    }
}

/// Reads what an export handed back; nothing, where the shape is unexpected.
pub fn guest_result(has_output: bool, values: &Vec<GuestValue>) -> (r: Option<Option<Vec<u8>>>)
    ensures
        match r {
            Some(out) => well_shaped(has_output, values@) && match out {
                Some(bytes) => has_output && bytes@ == values@[0]->Bytes_0@,
                None => !has_output,
            },
            None => !well_shaped(has_output, values@),
        },
{
    if has_output {
        if values.len() != 1 {
            return None;
        }
        match &values[0] {
            GuestValue::Bytes(bytes) => Some(Some(copy_bytes(bytes))),
            GuestValue::Other => None,
        }
    } else if values.len() == 0 {
        Some(None)
    } else {
        None
    }
}

/// The fuel that a guest call consumed, from what is left of its budget.
pub fn fuel_consumed(remaining: u64) -> (fuel: u64)
    requires
        remaining <= FUEL,
    ensures
        fuel == FUEL - remaining,
        fuel <= FUEL,
{
    FUEL - remaining
}

/// An input of a manifest node.
#[derive(Debug, PartialEq, Eq)]
pub enum NodeInput {
    /// A literal.
    Literal(Value),
    /// The output of an earlier node.
    Edge {
        /// The node that produces it.
        source: u32,
        /// The resource that moves along it.
        resource: [u8; 16],
    },
}

/// A node of a flattened manifest.
#[derive(Debug, PartialEq, Eq)]
pub struct ManifestNode {
    /// The called instance.
    pub target: [u8; 16],
    /// The called method.
    pub method: String,
    /// Its inputs.
    pub inputs: Vec<NodeInput>,
}

/// What a session lets a guest do.
#[derive(Clone, Copy, Debug, PartialEq, Eq)]
pub enum Capability {
    /// Draw on a reservation.
    Reserve(SubstateKey),
    /// Move an amount.
    Delta(SubstateKey),
    /// Read a pinned value.
    Locked(SubstateKey),
    /// Write a cell.
    Write(SubstateKey),
    /// Anything else.
    Other,
}

/// A method of the account surface.
#[derive(Clone, Copy, Debug, PartialEq, Eq, Structural)]
pub enum CallKind {
    /// Takes an amount out of a vault.
    Withdraw,
    /// Puts a bucket into a vault.
    Deposit,
    /// Requires a vault to hold a minimum.
    AssertBalance,
    /// Writes the block's randomness into a leaf.
    StampEntropy,
}

/// The method of a name, if the surface has it.
pub open spec fn kind_named(name: Seq<char>) -> Option<CallKind> {
    if name == "withdraw"@ {
        Some(CallKind::Withdraw)
    } else if name == "deposit"@ {
        Some(CallKind::Deposit)
    } else if name == "assert-balance"@ {
        Some(CallKind::AssertBalance)
    } else if name == "stamp-entropy"@ {
        Some(CallKind::StampEntropy)
    } else {
        None
    }
}

/// The method of a name, if the surface has it.
pub fn kind_of(name: &String) -> (r: Option<CallKind>)
    ensures
        r == kind_named(name@),
{
    if *name == "withdraw".to_string() {
        Some(CallKind::Withdraw)
    } else if *name == "deposit".to_string() {
        Some(CallKind::Deposit)
    } else if *name == "assert-balance".to_string() {
        Some(CallKind::AssertBalance)
    } else if *name == "stamp-entropy".to_string() {
        Some(CallKind::StampEntropy)
    } else {
        None
    }
}

/// How many inputs a method reads.
pub open spec fn arity(kind: Option<CallKind>) -> nat {
    match kind {
        Some(CallKind::Withdraw) => 2,
        Some(CallKind::Deposit) => 1,
        Some(CallKind::AssertBalance) => 3,
        Some(CallKind::StampEntropy) => 0,
        None => 0,
    }
}

/// A node has the inputs that its method reads.
pub open spec fn well_called(node: ManifestNode) -> bool {
    arity(kind_named(node.method@)) <= node.inputs@.len()
}

/// The address that an input spells out, if it does.
pub open spec fn address_at(input: NodeInput) -> Option<[u8; 16]> {
    match input {
        NodeInput::Literal(Value::Address(a)) => Some(a),
        _ => None,
    }
}

/// The amount that an input spells out, if it does.
pub open spec fn amount_at(input: NodeInput) -> Option<u128> {
    match input {
        NodeInput::Literal(Value::U128(x)) => Some(x),
        _ => None,
    }
}

/// The cell that a node works on, or why it works on none.
pub open spec fn cell_of(node: ManifestNode) -> Result<CellRole, Seq<char>> {
    let inputs = node.inputs@;
    match kind_named(node.method@) {
        Some(CallKind::Withdraw) => if address_at(inputs[0]) is Some && amount_at(
            inputs[1],
        ) is Some {
            Ok(CellRole::Vault { owner: node.target, resource: address_at(inputs[0])->0 })
        } else {
            Err("withdraw argument shape"@)
        },
        Some(CallKind::Deposit) => match inputs[0] {
            NodeInput::Edge { source, resource } => Ok(
                CellRole::Vault { owner: node.target, resource },
            ),
            NodeInput::Literal(_) => Err("deposit argument shape"@),
        },
        Some(CallKind::AssertBalance) => if address_at(inputs[0]) is Some && amount_at(
            inputs[1],
        ) is Some && inputs[2] matches NodeInput::Literal(Value::U64(_)) {
            Ok(CellRole::Vault { owner: node.target, resource: address_at(inputs[0])->0 })
        } else {
            Err("assert-balance argument shape"@)
        },
        Some(CallKind::StampEntropy) => Ok(CellRole::Entropy { owner: node.target }),
        None => Err("unsupported method: "@ + node.method@),
    }
}

fn address_in(input: &NodeInput) -> (r: Option<[u8; 16]>)
    ensures
        r == address_at(*input),
{
    match input {
        NodeInput::Literal(Value::Address(a)) => Some(*a),
        _ => None,
    }
}

fn amount_in(input: &NodeInput) -> (r: Option<u128>)
    ensures
        r == amount_at(*input),
{
    match input {
        NodeInput::Literal(Value::U128(x)) => Some(*x),
        _ => None,
    }
}

/// The cell that a node works on, or why it works on none.
pub fn node_cell(node: &ManifestNode) -> (r: Result<CellRole, String>)
    requires
        well_called(*node),
    ensures
        match cell_of(*node) {
            Ok(c) => r == Ok::<CellRole, String>(c),
            Err(e) => r is Err && r->Err_0@ == e,
        },
{
    match kind_of(&node.method) {
        Some(CallKind::Withdraw) => match (address_in(&node.inputs[0]), amount_in(
            &node.inputs[1],
        )) {
            (Some(resource), Some(_)) => Ok(CellRole::Vault { owner: node.target, resource }),
            _ => Err("withdraw argument shape".to_string()),
        },
        Some(CallKind::Deposit) => match &node.inputs[0] {
            NodeInput::Edge { source: _, resource } => Ok(
                CellRole::Vault { owner: node.target, resource: *resource },
            ),
            NodeInput::Literal(_) => Err("deposit argument shape".to_string()),
        },
        Some(CallKind::AssertBalance) => {
            let window = match &node.inputs[2] {
                NodeInput::Literal(Value::U64(_)) => true,
                _ => false,
            };
            match (address_in(&node.inputs[0]), amount_in(&node.inputs[1])) {
                (Some(resource), Some(_)) => {
                    if window {
                        Ok(CellRole::Vault { owner: node.target, resource })
                    } else {
                        Err("assert-balance argument shape".to_string())
                    }
                },
                _ => Err("assert-balance argument shape".to_string()),
            }
        },
        Some(CallKind::StampEntropy) => Ok(CellRole::Entropy { owner: node.target }),
        None => {
            let mut text = "unsupported method: ".to_string();
            text.append(node.method.as_str());
            Err(text)
        },
    }
}

/// The capability that a method draws on.
pub open spec fn capability_for(kind: CallKind, key: SubstateKey) -> Capability {
    match kind {
        CallKind::Withdraw => Capability::Reserve(key),
        CallKind::Deposit => Capability::Delta(key),
        CallKind::AssertBalance => Capability::Locked(key),
        CallKind::StampEntropy => Capability::Write(key),
    }
}

/// What is missing where a method's capability is.
pub open spec fn missing(kind: CallKind) -> Seq<char> {
    match kind {
        CallKind::Withdraw => "missing reserve capability"@,
        CallKind::Deposit => "missing delta capability"@,
        CallKind::AssertBalance => "missing snapshot capability"@,
        CallKind::StampEntropy => "missing write capability"@,
    }
}

/// A handle: the first position of a capability.
pub open spec fn is_rep(capabilities: Seq<Capability>, wanted: Capability, rep: Option<u32>) -> bool {
    match rep {
        Some(i) => i < capabilities.len() && capabilities[i as int] == wanted && forall|j: int|
            0 <= j < i ==> #[trigger] capabilities[j] != wanted,
        None => forall|j: int|
            0 <= j < capabilities.len() && j <= u32::MAX ==> #[trigger] capabilities[j] != wanted,
    }
}

fn same_capability(a: &Capability, b: &Capability) -> (r: bool)
    ensures
        r == (*a == *b),
{
    match (a, b) {
        (Capability::Reserve(x), Capability::Reserve(y)) => same_key(x, y),
        (Capability::Delta(x), Capability::Delta(y)) => same_key(x, y),
        (Capability::Locked(x), Capability::Locked(y)) => same_key(x, y),
        (Capability::Write(x), Capability::Write(y)) => same_key(x, y),
        (Capability::Other, Capability::Other) => true,
        _ => false,
    }
}

/// The handle of a capability: its first position in the session's table.
pub fn rep_of(capabilities: &Vec<Capability>, wanted: &Capability) -> (rep: Option<u32>)
    ensures
        is_rep(capabilities@, *wanted, rep),
{
    let mut i: usize = 0;
    while i < capabilities.len()
        invariant
            i <= capabilities@.len(),
            forall|j: int| 0 <= j < i ==> #[trigger] capabilities@[j] != *wanted,
        decreases capabilities@.len() - i,
    {
        if same_capability(&capabilities[i], wanted) {
            if i <= u32::MAX as usize {
                return Some(i as u32);
            }
            return None;
        }
        i = i + 1;
    }
    None
}

/// A guest call that a node makes.
#[derive(Debug, PartialEq, Eq)]
pub struct NodeCall {
    /// The method.
    pub kind: CallKind,
    /// The handle of the cell it works on.
    pub rep: u32,
    /// What it is handed besides.
    pub bytes: Vec<u8>,
}

impl NodeCall {
    /// The call as a guest invocation.
    pub fn invocation(&self) -> (r: Invocation<'_>)
        ensures
            match self.kind {
                CallKind::Withdraw => r matches Invocation::Withdraw { vault_rep, amount }
                    && vault_rep == self.rep && amount@ == self.bytes@,
                CallKind::Deposit => r matches Invocation::Deposit { vault_rep, bucket }
                    && vault_rep == self.rep && bucket@ == self.bytes@,
                CallKind::AssertBalance => r matches Invocation::AssertBalance { vault_rep, min }
                    && vault_rep == self.rep && min@ == self.bytes@,
                CallKind::StampEntropy => r matches Invocation::StampEntropy { leaf_rep }
                    && leaf_rep == self.rep,
            },
    {
        match self.kind {
            CallKind::Withdraw => Invocation::Withdraw {
                vault_rep: self.rep,
                amount: self.bytes.as_slice(),
            },
            CallKind::Deposit => Invocation::Deposit {
                vault_rep: self.rep,
                bucket: self.bytes.as_slice(),
            },
            CallKind::AssertBalance => Invocation::AssertBalance {
                vault_rep: self.rep,
                min: self.bytes.as_slice(),
            },
            CallKind::StampEntropy => Invocation::StampEntropy { leaf_rep: self.rep },
        }
    }
}

/// What a node hands its guest: a literal amount as a cell, or the first output
/// of the node that its edge names. Nothing, where that node produced none.
pub open spec fn bytes_for(node: ManifestNode, kind: CallKind, outputs: Seq<Vec<Vec<u8>>>) -> Option<
    Seq<u8>,
> {
    match kind {
        CallKind::Withdraw => Some(amount_cell(amount_at(node.inputs@[1])->0 as nat)),
        CallKind::AssertBalance => Some(amount_cell(amount_at(node.inputs@[1])->0 as nat)),
        CallKind::StampEntropy => Some(Seq::empty()),
        CallKind::Deposit => match node.inputs@[0] {
            NodeInput::Edge { source, resource } => if source < outputs.len()
                && outputs[source as int]@.len() > 0 {
                Some(outputs[source as int]@[0]@)
            } else {
                None
            },
            NodeInput::Literal(_) => None,
        },
    }
}

/// The call that a node makes on its cell, or why it makes none.
pub open spec fn calls(
    r: Result<NodeCall, String>,
    node: ManifestNode,
    outputs: Seq<Vec<Vec<u8>>>,
    capabilities: Seq<Capability>,
    key: SubstateKey,
) -> bool {
    let kind = kind_named(node.method@)->0;
    match bytes_for(node, kind, outputs) {
        None => r is Err && r->Err_0@ == "dangling edge"@,
        Some(bytes) => match r {
            Ok(call) => call.kind == kind && call.bytes@ == bytes && is_rep(
                capabilities,
                capability_for(kind, key),
                Some(call.rep),
            ),
            Err(e) => e@ == missing(kind) && is_rep(
                capabilities,
                capability_for(kind, key),
                None,
            ),
        },
    }
}

/// The call that a node makes on its cell, or why it makes none.
pub fn node_call(
    node: &ManifestNode,
    outputs: &Vec<Vec<Vec<u8>>>,
    capabilities: &Vec<Capability>,
    key: SubstateKey,
) -> (r: Result<NodeCall, String>)
    requires
        well_called(*node),
        cell_of(*node) is Ok,
    ensures
        calls(r, *node, outputs@, capabilities@, key),
{
    let kind = match kind_of(&node.method) {
        Some(kind) => kind,
        None => return Err("dangling edge".to_string()),
    };
    let bytes: Vec<u8> = match kind {
        CallKind::StampEntropy => {
            let none: Vec<u8> = Vec::new();
            assert(none@ =~= Seq::<u8>::empty());
            none
        },
        CallKind::Deposit => match &node.inputs[0] {
            NodeInput::Edge { source, resource: _ } => {
                let at: usize = *source as usize;
                if at < outputs.len() && outputs[at].len() > 0 {
                    copy_bytes(&outputs[at][0])
                } else {
                    return Err("dangling edge".to_string());
                }
            },
            NodeInput::Literal(_) => return Err("dangling edge".to_string()),
        },
        _ => match amount_in(&node.inputs[1]) {
            Some(amount) => encode_amount(amount),
            None => return Err("dangling edge".to_string()),
        },
    };
    let wanted = match kind {
        CallKind::Withdraw => Capability::Reserve(key),
        CallKind::Deposit => Capability::Delta(key),
        CallKind::AssertBalance => Capability::Locked(key),
        CallKind::StampEntropy => Capability::Write(key),
    };
    match rep_of(capabilities, &wanted) {
        Some(rep) => Ok(NodeCall { kind, rep, bytes }),
        None => Err(
            match kind {
                CallKind::Withdraw => "missing reserve capability".to_string(),
                CallKind::Deposit => "missing delta capability".to_string(),
                CallKind::AssertBalance => "missing snapshot capability".to_string(),
                CallKind::StampEntropy => "missing write capability".to_string(),
            },
        ),
    }
}

/// What a node produces of what its guest handed back: a withdrawal the bucket,
/// the other methods nothing.
pub open spec fn produced(kind: CallKind, result: Result<Option<Vec<u8>>, String>) -> Result<
    Seq<Seq<u8>>,
    Seq<char>,
> {
    match result {
        Err(reason) => Err(reason@),
        Ok(out) => if kind == CallKind::Withdraw {
            match out {
                Some(bucket) => Ok(seq![bucket@]),
                None => Err("withdraw returned nothing"@),
            }
        } else {
            Ok(Seq::empty())
        },
    }
}

/// How a walk ends.
#[derive(Debug, PartialEq, Eq)]
pub enum RunOutcome {
    /// Every node was called.
    Completed,
    /// A node failed, and the transaction with it.
    UserError {
        /// Why.
        reason: String,
    },
}

impl RunOutcome {
    /// The walk failed for a reason.
    pub open spec fn fails(&self, reason: Seq<char>) -> bool {
        self is UserError && self->reason@ == reason
    }
}

/// The end of a walk.
#[derive(Debug, PartialEq, Eq)]
pub struct RunEnd {
    /// How it came out.
    pub outcome: RunOutcome,
    /// The fuel that all its calls consumed.
    pub fuel: u64,
}

/// What a walk does next.
#[derive(Debug, PartialEq, Eq)]
pub enum RunStep {
    /// Enters a node and makes its call.
    Invoke(NodeCall),
    /// Ends.
    End(RunEnd),
}

/// A walk over the nodes of a manifest.
#[derive(Debug, PartialEq, Eq)]
pub struct ManifestRunner {
    /// What each node that was called produced.
    pub outputs: Vec<Vec<Vec<u8>>>,
    /// The fuel that the calls consumed.
    pub fuel: u64,
}

/// A list of byte strings, as they read.
pub open spec fn strings(list: Seq<Vec<u8>>) -> Seq<Seq<u8>> {
    list.map_values(|v: Vec<u8>| v@)
}

impl ManifestRunner {
    /// The next node to call.
    pub open spec fn next(&self) -> nat {
        self.outputs@.len()
    }

    /// A walk that has called nothing.
    pub fn new() -> (r: Self)
        ensures
            r.next() == 0,
            r.fuel == 0,
    {
        ManifestRunner { outputs: Vec::new(), fuel: 0 }
    }

    /// What the walk does next. `cell_key` names the cell of a role.
    pub fn step<K: Fn(CellRole) -> SubstateKey>(
        &self,
        nodes: &Vec<ManifestNode>,
        capabilities: &Vec<Capability>,
        cell_key: &K,
    ) -> (r: RunStep)
        requires
            self.next() <= nodes@.len(),
            forall|i: int| 0 <= i < nodes@.len() ==> well_called(#[trigger] nodes@[i]),
            derives(*cell_key),
        ensures
            if self.next() == nodes@.len() {
                r == RunStep::End(RunEnd { outcome: RunOutcome::Completed, fuel: self.fuel })
            } else {
                let node = nodes@[self.next() as int];
                match cell_of(node) {
                    Err(e) => r is End && r->End_0.fuel == self.fuel && r->End_0.outcome.fails(e),
                    Ok(role) => match r {
                        RunStep::Invoke(call) => calls(
                            Ok(call),
                            node,
                            self.outputs@,
                            capabilities@,
                            key_by(*cell_key, role),
                        ),
                        RunStep::End(end) => end.fuel == self.fuel && end.outcome is UserError
                            && calls(
                            Err(end.outcome->reason),
                            node,
                            self.outputs@,
                            capabilities@,
                            key_by(*cell_key, role),
                        ),
                    },
                }
            },
    {
        let at: usize = self.outputs.len();
        if at == nodes.len() {
            return RunStep::End(RunEnd { outcome: RunOutcome::Completed, fuel: self.fuel });
        }
        let node = &nodes[at];
        let role = match node_cell(node) {
            Ok(role) => role,
            Err(reason) => return RunStep::End(
                RunEnd { outcome: RunOutcome::UserError { reason }, fuel: self.fuel },
            ),
        };
        let key = derive_key(cell_key, role);
        match node_call(node, &self.outputs, capabilities, key) {
            Ok(call) => RunStep::Invoke(call),
            Err(reason) => RunStep::End(
                RunEnd { outcome: RunOutcome::UserError { reason }, fuel: self.fuel },
            ),
        }
    }

    /// Takes back what a call came to: its outputs are kept and the walk goes
    /// on, or it ends. Either way the fuel that the call consumed counts.
    pub fn absorb(&mut self, kind: CallKind, consumed: u64, result: Result<
        Option<Vec<u8>>,
        String,
    >) -> (r: Option<RunEnd>)
        requires
            old(self).fuel + consumed <= u64::MAX,
        ensures
            final(self).fuel == old(self).fuel + consumed,
            match produced(kind, result) {
                Ok(out) => r is None && final(self).outputs@.len() == old(self).outputs@.len() + 1
                    && final(self).outputs@.drop_last() == old(self).outputs@ && strings(
                    final(self).outputs@.last()@,
                ) == out,
                Err(e) => r is Some && r->0.fuel == final(self).fuel && r->0.outcome.fails(e)
                    && final(self).outputs@ == old(self).outputs@,
            },
    {
        self.fuel = self.fuel + consumed;
        match result {
            Err(reason) => Some(
                RunEnd { outcome: RunOutcome::UserError { reason }, fuel: self.fuel },
            ),
            Ok(out) => {
                let mut produced: Vec<Vec<u8>> = Vec::new();
                match kind {
                    CallKind::Withdraw => match out {
                        Some(bucket) => produced.push(bucket),
                        None => {
                            return Some(
                                RunEnd {
                                    outcome: RunOutcome::UserError {
                                        reason: "withdraw returned nothing".to_string(),
                                    },
                                    fuel: self.fuel,
                                },
                            );
                        },
                    },
                    _ => {},
                }
                let ghost before = self.outputs@;
                assert(strings(produced@) =~= self::produced(kind, result)->Ok_0);
                self.outputs.push(produced);
                assert(self.outputs@.drop_last() =~= before);
                None
            },
        }
    }
}

/// The end of a walk over a transaction that nobody prepared.
pub fn unprepared() -> (end: RunEnd)
    ensures
        end.fuel == 0,
        end.outcome.fails("unprepared transaction"@),
{
    RunEnd {
        outcome: RunOutcome::UserError { reason: "unprepared transaction".to_string() },
        fuel: 0,
    }
}

/// A node makes its call exactly when the bucket it is fed exists and the
/// session holds the capability its method draws on, for its own cell.
pub proof fn law_calls_need_bucket_and_capability(
    r: Result<NodeCall, String>,
    node: ManifestNode,
    outputs: Seq<Vec<Vec<u8>>>,
    capabilities: Seq<Capability>,
    key: SubstateKey,
)
    requires
        well_called(node),
        cell_of(node) is Ok,
        calls(r, node, outputs, capabilities, key),
    ensures
        r is Ok <==> bytes_for(node, kind_named(node.method@)->0, outputs) is Some && exists|j: int|
            0 <= j < capabilities.len() && j <= u32::MAX && #[trigger] capabilities[j]
                == capability_for(kind_named(node.method@)->0, key),
{
}

/// The names of the surface are told apart, and so are the reasons of a node
/// that makes no call.
proof fn lemma_texts_differ()
    ensures
        kind_named("withdraw"@) == Some(CallKind::Withdraw),
        kind_named("deposit"@) == Some(CallKind::Deposit),
        kind_named("assert-balance"@) == Some(CallKind::AssertBalance),
        kind_named("stamp-entropy"@) == Some(CallKind::StampEntropy),
        "dangling edge"@ != "missing reserve capability"@,
        "dangling edge"@ != "missing delta capability"@,
        "dangling edge"@ != "missing snapshot capability"@,
        "dangling edge"@ != "missing write capability"@,
{
    reveal_strlit("withdraw");
    reveal_strlit("deposit");
    reveal_strlit("assert-balance");
    reveal_strlit("stamp-entropy");
    reveal_strlit("dangling edge");
    reveal_strlit("missing reserve capability");
    reveal_strlit("missing delta capability");
    reveal_strlit("missing snapshot capability");
    reveal_strlit("missing write capability");
    assert("withdraw"@.len() == 8 && "deposit"@.len() == 7 && "assert-balance"@.len() == 14
        && "stamp-entropy"@.len() == 13);
    assert("dangling edge"@.len() == 13);
    assert("missing reserve capability"@.len() == 26);
    assert("missing delta capability"@.len() == 24);
    assert("missing snapshot capability"@.len() == 27);
    assert("missing write capability"@.len() == 24);
}

/// A deposit is handed the first bucket that the node at the other end of its
/// edge produced, through the first handle that lets it move its own vault's
/// amount. It dangles exactly where that node produced nothing, and it lacks
/// its capability exactly where the session holds none for that vault.
pub proof fn law_a_deposit_is_fed_by_its_edge(
    r: Result<NodeCall, String>,
    node: ManifestNode,
    outputs: Seq<Vec<Vec<u8>>>,
    capabilities: Seq<Capability>,
    key: SubstateKey,
    source: u32,
    resource: [u8; 16],
)
    requires
        calls(r, node, outputs, capabilities, key),
        node.method@ == "deposit"@,
        node.inputs@.len() >= 1,
        node.inputs@[0] == (NodeInput::Edge { source, resource }),
        capabilities.len() <= u32::MAX,
    ensures
        r is Ok ==> {
            let call = r->Ok_0;
            &&& call.kind == CallKind::Deposit
            &&& source < outputs.len() && outputs[source as int]@.len() > 0
            &&& call.bytes@ == outputs[source as int]@[0]@
            &&& call.rep < capabilities.len()
            &&& capabilities[call.rep as int] == Capability::Delta(key)
            &&& forall|j: int| 0 <= j < call.rep ==> #[trigger] capabilities[j] != Capability::Delta(key)
        },
        (r is Err && r->Err_0@ == "dangling edge"@) <==> !(source < outputs.len()
            && outputs[source as int]@.len() > 0),
        r is Err && source < outputs.len() && outputs[source as int]@.len() > 0
            ==> r->Err_0@ == "missing delta capability"@ && !capabilities.contains(
            Capability::Delta(key),
        ),
        r is Ok <==> source < outputs.len() && outputs[source as int]@.len() > 0
            && capabilities.contains(Capability::Delta(key)),
{
    lemma_texts_differ();
    let wanted = Capability::Delta(key);
    if r is Ok {
        assert(capabilities[r->Ok_0.rep as int] == wanted);
    }
    if capabilities.contains(wanted) {
        let j = choose|j: int| 0 <= j < capabilities.len() && capabilities[j] == wanted;
        assert(capabilities[j] == wanted);
    }
}

/// A withdrawal and a balance check are handed their literal amount as its 16
/// bytes, lowest first, and a stamp nothing, each through the first handle of
/// its own capability on its own cell. Each lacks its capability exactly where
/// the session holds none for that cell.
pub proof fn law_an_amount_is_handed_as_its_cell(
    r: Result<NodeCall, String>,
    node: ManifestNode,
    outputs: Seq<Vec<Vec<u8>>>,
    capabilities: Seq<Capability>,
    key: SubstateKey,
    amount: u128,
    wanted: Capability,
)
    requires
        calls(r, node, outputs, capabilities, key),
        capabilities.len() <= u32::MAX,
        ({
            ||| {
                &&& node.method@ == "withdraw"@
                &&& node.inputs@.len() >= 2
                &&& node.inputs@[1] == NodeInput::Literal(Value::U128(amount))
                &&& wanted == Capability::Reserve(key)
            }
            ||| {
                &&& node.method@ == "assert-balance"@
                &&& node.inputs@.len() >= 3
                &&& node.inputs@[1] == NodeInput::Literal(Value::U128(amount))
                &&& wanted == Capability::Locked(key)
            }
            ||| {
                &&& node.method@ == "stamp-entropy"@
                &&& wanted == Capability::Write(key)
            }
        }),
    ensures
        r is Ok <==> capabilities.contains(wanted),
        r is Ok ==> {
            let call = r->Ok_0;
            &&& call.rep < capabilities.len()
            &&& capabilities[call.rep as int] == wanted
            &&& forall|j: int| 0 <= j < call.rep ==> #[trigger] capabilities[j] != wanted
            &&& if node.method@ == "stamp-entropy"@ {
                call.kind == CallKind::StampEntropy && call.bytes@.len() == 0
            } else {
                &&& call.kind == if node.method@ == "withdraw"@ {
                    CallKind::Withdraw
                } else {
                    CallKind::AssertBalance
                }
                &&& call.bytes@.len() == 16
                &&& le_value(call.bytes@) == amount
            }
        },
{
    lemma_texts_differ();
    lemma_widths();
    lemma_le_round_trip(amount as nat, 16);
    if r is Ok {
        assert(capabilities[r->Ok_0.rep as int] == wanted);
    }
    if capabilities.contains(wanted) {
        let j = choose|j: int| 0 <= j < capabilities.len() && capabilities[j] == wanted;
        assert(capabilities[j] == wanted);
    }
}

/// A node works on a cell of its own target: the vault of the resource that it
/// spells out, or that its edge moves, or the target's entropy leaf. It works on
/// none exactly where its inputs have another shape, or its method another name.
pub proof fn law_a_node_works_on_its_targets_cell(node: ManifestNode, resource: [u8; 16])
    requires
        well_called(node),
    ensures
        node.method@ == "withdraw"@ ==> (cell_of(node) == Ok::<CellRole, Seq<char>>(
            CellRole::Vault { owner: node.target, resource },
        ) <==> node.inputs@[0] == NodeInput::Literal(Value::Address(resource)) && (node.inputs@[1]
            matches NodeInput::Literal(Value::U128(_)))),
        node.method@ == "assert-balance"@ ==> (cell_of(node) == Ok::<CellRole, Seq<char>>(
            CellRole::Vault { owner: node.target, resource },
        ) <==> node.inputs@[0] == NodeInput::Literal(Value::Address(resource)) && (node.inputs@[1]
            matches NodeInput::Literal(Value::U128(_))) && (node.inputs@[2] matches NodeInput::Literal(
            Value::U64(_),
        ))),
        node.method@ == "deposit"@ ==> (cell_of(node) == Ok::<CellRole, Seq<char>>(
            CellRole::Vault { owner: node.target, resource },
        ) <==> node.inputs@[0] is Edge && node.inputs@[0]->resource == resource),
        node.method@ == "stamp-entropy"@ ==> cell_of(node) == Ok::<CellRole, Seq<char>>(
            CellRole::Entropy { owner: node.target },
        ),
        cell_of(node) is Ok && !(node.method@ == "stamp-entropy"@) ==> cell_of(node)->Ok_0 is Vault
            && cell_of(node)->Ok_0->Vault_owner == node.target,
        cell_of(node) is Ok ==> node.method@ == "withdraw"@ || node.method@ == "deposit"@
            || node.method@ == "assert-balance"@ || node.method@ == "stamp-entropy"@,
        cell_of(node) is Err ==> cell_of(node)->Err_0 == if node.method@ == "withdraw"@ {
            "withdraw argument shape"@
        } else if node.method@ == "deposit"@ {
            "deposit argument shape"@
        } else if node.method@ == "assert-balance"@ {
            "assert-balance argument shape"@
        } else {
            "unsupported method: "@ + node.method@
        },
{
    lemma_texts_differ();
}

/// A withdrawal keeps the one bucket that its guest handed back, and fails where
/// it handed none; the other methods keep nothing; a trap is the end, for its
/// own reason.
pub proof fn law_a_node_keeps_what_its_guest_handed_back(
    kind: CallKind,
    result: Result<Option<Vec<u8>>, String>,
)
    ensures
        result is Err ==> produced(kind, result) == Err::<Seq<Seq<u8>>, Seq<char>>(
            result->Err_0@,
        ),
        result is Ok && kind == CallKind::Withdraw && result->Ok_0 is Some ==> produced(kind, result)
            is Ok && produced(kind, result)->Ok_0.len() == 1 && produced(kind, result)->Ok_0[0]
            == result->Ok_0->0@,
        result is Ok && kind == CallKind::Withdraw && result->Ok_0 is None ==> produced(kind, result)
            is Err,
        result is Ok && kind != CallKind::Withdraw ==> produced(kind, result) is Ok && produced(
            kind,
            result,
        )->Ok_0.len() == 0,
{
}

/// A method reads as many inputs as it has: two for a withdrawal, one for a
/// deposit, three for a balance check, none for a stamp. An export hands back one
/// byte string where it promises one, and nothing where it promises none.
pub proof fn law_methods_read_and_hand_back_what_they_promise(
    has_output: bool,
    values: Seq<GuestValue>,
)
    ensures
        arity(kind_named("withdraw"@)) == 2,
        arity(kind_named("deposit"@)) == 1,
        arity(kind_named("assert-balance"@)) == 3,
        arity(kind_named("stamp-entropy"@)) == 0,
        well_shaped(has_output, values) <==> (has_output && values.len() == 1 && values[0] is Bytes)
            || (!has_output && values.len() == 0),
{
    lemma_texts_differ();
}

/// A walk fails for the words that it ends with, and what a node produced reads as
/// its byte strings, in order.
pub proof fn law_a_walk_fails_for_its_own_words(
    outcome: RunOutcome,
    reason: Seq<char>,
    list: Seq<Vec<u8>>,
    i: int,
)
    requires
        0 <= i < list.len(),
    ensures
        outcome.fails(reason) <==> match outcome {
            RunOutcome::Completed => false,
            RunOutcome::UserError { reason: text } => text@ == reason,
        },
        strings(list).len() == list.len(),
        strings(list)[i] == list[i]@,
{
}

} // verus!
