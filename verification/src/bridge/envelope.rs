//! The envelope tree and its canonical wire bytes.
use vstd::prelude::*;

use crate::bridge::codec::{
    decodable, decode, decode_fault, encodable, encode, lemma_reads_settles, unread,
};
use crate::bridge::error::VmStaticsError;
use crate::bridge::forms::{form2, form3, read2, read3, write2, write3};
use crate::bridge::sbor_value::{
    plain, sbor_payload, sbor_tree, sbor_trees, SborValue, Tree, KIND_RECORD, KIND_VARIANT,
};
use crate::bridge::value::{lemma_value_plain, variant1, Value};
use crate::bridge::wire::{
    list_from_wire, list_to_wire, list_tree, lemma_list_plain, record, record_of, take1, take3,
    u128_of, u128_value, u32_of, u32_value, variant3, variant_of, Wire,
};

verus! {

/// A condition on a bucket that moves along an edge.
#[derive(Clone, Copy, Debug, PartialEq, Eq)]
pub enum Constraint {
    /// It holds at least this much.
    MinAmount(u128),
    /// It holds at most this much.
    MaxAmount(u128),
    /// It holds this resource.
    ResourceIs([u8; 16]),
}

/// An output of a node.
#[derive(Clone, Copy, Debug, PartialEq, Eq, Structural)]
pub struct EdgeRef {
    /// The node.
    pub producer: u32,
    /// Which of its outputs.
    pub output: u32,
}

/// An argument of a node.
#[derive(Debug, PartialEq, Eq)]
pub enum GraphArg {
    /// A literal.
    Literal(Value),
    /// The output of another node.
    Edge {
        /// The output.
        edge: EdgeRef,
        /// What must hold of it.
        constraints: Vec<Constraint>,
    },
    /// A yield parameter of the intent.
    Param(u32),
}

/// One call of a manifest.
#[derive(Debug, PartialEq, Eq)]
pub struct GraphNode {
    /// The called instance.
    pub target: [u8; 16],
    /// The called method.
    pub method: String,
    /// Its arguments.
    pub args: Vec<GraphArg>,
}

/// The calls of an intent.
#[derive(Debug, PartialEq, Eq)]
pub struct ManifestGraph {
    /// The nodes, by index.
    pub nodes: Vec<GraphNode>,
}

/// What an intent expects to be yielded.
#[derive(Debug, PartialEq, Eq)]
pub struct YieldParam {
    /// The resource.
    pub resource: [u8; 16],
    /// What must hold of it.
    pub constraints: Vec<Constraint>,
}

/// A signed declaration: a graph and its yield parameters.
#[derive(Debug, PartialEq, Eq)]
pub struct IntentDecl {
    /// The graph.
    pub graph: ManifestGraph,
    /// The yield parameters.
    pub params: Vec<YieldParam>,
}

/// Which output of which intent fills a yield parameter.
#[derive(Clone, Copy, Debug, PartialEq, Eq, Structural)]
pub struct YieldBinding {
    /// The intent.
    pub intent: u32,
    /// The output.
    pub edge: EdgeRef,
}

/// A declaration that another signer brings into the envelope.
#[derive(Debug, PartialEq, Eq)]
pub struct Subintent {
    /// The declaration.
    pub decl: IntentDecl,
    /// Its signer's account.
    pub signer: [u8; 16],
    /// How its parameters are filled.
    pub bindings: Vec<YieldBinding>,
}

/// What an envelope composes.
#[derive(Debug, PartialEq, Eq)]
pub struct EnvelopeTree {
    /// The composer's own intent.
    pub root: IntentDecl,
    /// How its parameters are filled.
    pub root_bindings: Vec<YieldBinding>,
    /// The intents composed into it.
    pub subintents: Vec<Subintent>,
}

impl Wire for Constraint {
    open spec fn tree(self) -> Tree {
        match self {
            Constraint::MinAmount(x) => Tree::Variant(0u8, seq![Tree::U128(x)]),
            Constraint::MaxAmount(x) => Tree::Variant(1u8, seq![Tree::U128(x)]),
            Constraint::ResourceIs(a) => Tree::Variant(2u8, seq![a.tree()]),
        }
    }

    open spec fn wire_kind() -> u8 {
        KIND_VARIANT
    }

    proof fn law_kind(x: Self) {
    }

    proof fn law_plain(x: Self) {
        if let Constraint::ResourceIs(a) = x {
            <[u8; 16] as Wire>::law_plain(a);
        }
        let parts = x.tree()->Variant_1;
        assert forall|i: int| 0 <= i < parts.len() implies plain(#[trigger] parts[i]) by {}
    }

    fn kind() -> (k: u8) {
        KIND_VARIANT
    }

    fn to_wire(&self) -> (v: SborValue) {
        match self {
            Constraint::MinAmount(x) => variant1(0, u128_value(*x)),
            Constraint::MaxAmount(x) => variant1(1, u128_value(*x)),
            Constraint::ResourceIs(a) => variant1(2, a.to_wire()),
        }
    }

    fn from_wire(v: SborValue) -> (r: Option<Self>) {
        proof {
            assert forall|x: Self| (#[trigger] x.tree()) is Variant && x.tree()->Variant_1.len() == 1 by {}
        }
        let ghost t = sbor_tree(v);
        match variant_of(v) {
            None => None,
            Some((d, fields)) => {
                let ghost ts = sbor_trees(fields@);
                match take1(fields) {
                    None => None,
                    Some(a) => {
                        let r = if d == 0 || d == 1 {
                            match u128_of(a) {
                                Some(n) => Some(
                                    if d == 0 {
                                        Constraint::MinAmount(n)
                                    } else {
                                        Constraint::MaxAmount(n)
                                    },
                                ),
                                None => None,
                            }
                        } else if d == 2 {
                            match <[u8; 16] as Wire>::from_wire(a) {
                                Some(x) => Some(Constraint::ResourceIs(x)),
                                None => None,
                            }
                        } else {
                            None
                        };
                        proof {
                            if r is None {
                                assert forall|x: Self| #[trigger] x.tree() != t by {
                                    if x.tree() == t {
                                        assert(ts[0] == sbor_tree(a));
                                        assert(x.tree()->Variant_1[0] == ts[0]);
                                    }
                                }
                            }
                        }
                        r
                    },
                }
            },
        }
    }
}

impl Wire for GraphArg {
    open spec fn tree(self) -> Tree {
        match self {
            GraphArg::Literal(v) => Tree::Variant(0u8, seq![v.tree()]),
            GraphArg::Edge { edge, constraints } => Tree::Variant(
                1u8,
                seq![
                    Tree::U32(edge.producer),
                    Tree::U32(edge.output),
                    list_tree(constraints@),
                ],
            ),
            GraphArg::Param(i) => Tree::Variant(2u8, seq![Tree::U32(i)]),
        }
    }

    open spec fn wire_kind() -> u8 {
        KIND_VARIANT
    }

    proof fn law_kind(x: Self) {
    }

    proof fn law_plain(x: Self) {
        match x {
            GraphArg::Literal(v) => lemma_value_plain(v),
            GraphArg::Edge { edge, constraints } => lemma_list_plain(constraints@),
            GraphArg::Param(_) => {},
        }
        let parts = x.tree()->Variant_1;
        assert forall|i: int| 0 <= i < parts.len() implies plain(#[trigger] parts[i]) by {}
    }

    fn kind() -> (k: u8) {
        KIND_VARIANT
    }

    fn to_wire(&self) -> (v: SborValue) {
        match self {
            GraphArg::Literal(v) => variant1(0, v.to_wire()),
            GraphArg::Edge { edge, constraints } => variant3(
                1,
                u32_value(edge.producer),
                u32_value(edge.output),
                list_to_wire(constraints),
            ),
            GraphArg::Param(i) => variant1(2, u32_value(*i)),
        }
    }

    fn from_wire(v: SborValue) -> (r: Option<Self>) {
        let ghost t = sbor_tree(v);
        match variant_of(v) {
            None => None,
            Some((d, fields)) => {
                let ghost ts = sbor_trees(fields@);
                if d == 1 {
                    match take3(fields) {
                        None => {
                            proof {
                                assert forall|x: Self| #[trigger] x.tree() != t by {
                                    if x.tree() == t {
                                        assert(x is Edge);
                                        assert(x.tree()->Variant_1.len() == 3);
                                    }
                                }
                            }
                            None
                        },
                        Some((a, b, c)) => {
                            let ghost ta = sbor_tree(a);
                            let ghost tb = sbor_tree(b);
                            let ghost tc = sbor_tree(c);
                            match (u32_of(a), u32_of(b), list_from_wire::<Constraint>(c)) {
                                (Some(producer), Some(output), Some(constraints)) => {
                                    let edge = EdgeRef { producer, output };
                                    let arg = GraphArg::Edge { edge, constraints };
                                    assert(arg.tree()->Variant_1 =~= ts);
                                    Some(arg)
                                },
                                _ => {
                                    proof {
                                        assert forall|x: Self| #[trigger] x.tree() != t by {
                                            if x.tree() == t {
                                                let xs = x.tree()->Variant_1;
                                                assert(xs == ts);
                                                assert(xs[0] == ta && xs[1] == tb && xs[2] == tc);
                                                assert(x is Edge);
                                                assert(xs[2] == list_tree(x->constraints@));
                                            }
                                        }
                                    }
                                    None
                                },
                            }
                        },
                    }
                } else {
                    match take1(fields) {
                        None => {
                            proof {
                                assert forall|x: Self| #[trigger] x.tree() != t by {
                                    if x.tree() == t {
                                        assert(!(x is Edge));
                                        assert(x.tree()->Variant_1.len() == 1);
                                    }
                                }
                            }
                            None
                        },
                        Some(a) => {
                            let r = if d == 0 {
                                match <Value as Wire>::from_wire(a) {
                                    Some(x) => Some(GraphArg::Literal(x)),
                                    None => None,
                                }
                            } else if d == 2 {
                                match u32_of(a) {
                                    Some(n) => Some(GraphArg::Param(n)),
                                    None => None,
                                }
                            } else {
                                None
                            };
                            proof {
                                if r is None {
                                    assert forall|x: Self| #[trigger] x.tree() != t by {
                                        if x.tree() == t {
                                            assert(ts[0] == sbor_tree(a));
                                            assert(x.tree()->Variant_1[0] == ts[0]);
                                            if let GraphArg::Literal(v) = x {
                                                assert(ts[0] == <Value as Wire>::tree(v));
                                            }
                                        }
                                    }
                                }
                            }
                            r
                        },
                    }
                }
            },
        }
    }
}

impl Wire for GraphNode {
    open spec fn tree(self) -> Tree {
        form3(self.target, self.method, self.args)
    }

    open spec fn wire_kind() -> u8 {
        KIND_RECORD
    }

    proof fn law_kind(x: Self) {
    }

    proof fn law_plain(x: Self) {
        <[u8; 16] as Wire>::law_plain(x.target);
        <String as Wire>::law_plain(x.method);
        <Vec<GraphArg> as Wire>::law_plain(x.args);
        let parts = x.tree()->Record_0;
        assert forall|i: int| 0 <= i < parts.len() implies plain(#[trigger] parts[i]) by {}
    }

    fn kind() -> (k: u8) {
        KIND_RECORD
    }

    fn to_wire(&self) -> (v: SborValue) {
        write3(&self.target, &self.method, &self.args)
    }

    fn from_wire(v: SborValue) -> (r: Option<Self>) {
        match read3::<[u8; 16], String, Vec<GraphArg>>(v) {
            Some((a, b, c)) => Some(GraphNode { target: a, method: b, args: c }),
            None => {
                proof {
                    assert forall|x: Self| #[trigger] x.tree() != sbor_tree(v) by {
                        assert(x.tree() == form3(x.target, x.method, x.args));
                    }
                }
                None
            },
        }
    }
}

impl Wire for YieldParam {
    open spec fn tree(self) -> Tree {
        form2(self.resource, self.constraints)
    }

    open spec fn wire_kind() -> u8 {
        KIND_RECORD
    }

    proof fn law_kind(x: Self) {
    }

    proof fn law_plain(x: Self) {
        <[u8; 16] as Wire>::law_plain(x.resource);
        <Vec<Constraint> as Wire>::law_plain(x.constraints);
        let parts = x.tree()->Record_0;
        assert forall|i: int| 0 <= i < parts.len() implies plain(#[trigger] parts[i]) by {}
    }

    fn kind() -> (k: u8) {
        KIND_RECORD
    }

    fn to_wire(&self) -> (v: SborValue) {
        write2(&self.resource, &self.constraints)
    }

    fn from_wire(v: SborValue) -> (r: Option<Self>) {
        match read2::<[u8; 16], Vec<Constraint>>(v) {
            Some((a, b)) => Some(YieldParam { resource: a, constraints: b }),
            None => {
                proof {
                    assert forall|x: Self| #[trigger] x.tree() != sbor_tree(v) by {
                        assert(x.tree() == form2(x.resource, x.constraints));
                    }
                }
                None
            },
        }
    }
}

impl Wire for IntentDecl {
    open spec fn tree(self) -> Tree {
        form2(self.graph.nodes, self.params)
    }

    open spec fn wire_kind() -> u8 {
        KIND_RECORD
    }

    proof fn law_kind(x: Self) {
    }

    proof fn law_plain(x: Self) {
        <Vec<GraphNode> as Wire>::law_plain(x.graph.nodes);
        <Vec<YieldParam> as Wire>::law_plain(x.params);
        let parts = x.tree()->Record_0;
        assert forall|i: int| 0 <= i < parts.len() implies plain(#[trigger] parts[i]) by {}
    }

    fn kind() -> (k: u8) {
        KIND_RECORD
    }

    fn to_wire(&self) -> (v: SborValue) {
        write2(&self.graph.nodes, &self.params)
    }

    fn from_wire(v: SborValue) -> (r: Option<Self>) {
        match read2::<Vec<GraphNode>, Vec<YieldParam>>(v) {
            Some((a, b)) => Some(IntentDecl { graph: ManifestGraph { nodes: a }, params: b }),
            None => {
                proof {
                    assert forall|x: Self| #[trigger] x.tree() != sbor_tree(v) by {
                        assert(x.tree() == form2(x.graph.nodes, x.params));
                    }
                }
                None
            },
        }
    }
}

impl Wire for YieldBinding {
    open spec fn tree(self) -> Tree {
        Tree::Record(
            seq![
                Tree::U32(self.intent),
                Tree::U32(self.edge.producer),
                Tree::U32(self.edge.output),
            ],
        )
    }

    open spec fn wire_kind() -> u8 {
        KIND_RECORD
    }

    proof fn law_kind(x: Self) {
    }

    proof fn law_plain(x: Self) {
        let parts = x.tree()->Record_0;
        assert forall|i: int| 0 <= i < parts.len() implies plain(#[trigger] parts[i]) by {}
    }

    fn kind() -> (k: u8) {
        KIND_RECORD
    }

    fn to_wire(&self) -> (v: SborValue) {
        let mut fields: Vec<SborValue> = Vec::new();
        fields.push(u32_value(self.intent));
        fields.push(u32_value(self.edge.producer));
        fields.push(u32_value(self.edge.output));
        assert(sbor_trees(fields@) =~= self.tree()->Record_0);
        record(fields)
    }

    fn from_wire(v: SborValue) -> (r: Option<Self>) {
        proof {
            assert forall|x: Self| (#[trigger] x.tree()) is Record && x.tree()->Record_0.len() == 3 by {}
        }
        let ghost t = sbor_tree(v);
        match record_of(v) {
            None => None,
            Some(fields) => {
                let ghost ts = sbor_trees(fields@);
                match take3(fields) {
                    None => None,
                    Some((a, b, c)) => {
                        let ghost ta = sbor_tree(a);
                        let ghost tb = sbor_tree(b);
                        let ghost tc = sbor_tree(c);
                        match (u32_of(a), u32_of(b), u32_of(c)) {
                            (Some(intent), Some(producer), Some(output)) => {
                                let edge = EdgeRef { producer, output };
                                let binding = YieldBinding { intent, edge };
                                assert(binding.tree()->Record_0 =~= ts);
                                Some(binding)
                            },
                            _ => {
                                proof {
                                    assert forall|x: Self| #[trigger] x.tree() != t by {
                                        if x.tree() == t {
                                            let xs = x.tree()->Record_0;
                                            assert(xs[0] == ta && xs[1] == tb && xs[2] == tc);
                                        }
                                    }
                                }
                                None
                            },
                        }
                    },
                }
            },
        }
    }
}

impl Wire for Subintent {
    open spec fn tree(self) -> Tree {
        form3(self.decl, self.signer, self.bindings)
    }

    open spec fn wire_kind() -> u8 {
        KIND_RECORD
    }

    proof fn law_kind(x: Self) {
    }

    proof fn law_plain(x: Self) {
        <IntentDecl as Wire>::law_plain(x.decl);
        <[u8; 16] as Wire>::law_plain(x.signer);
        <Vec<YieldBinding> as Wire>::law_plain(x.bindings);
        let parts = x.tree()->Record_0;
        assert forall|i: int| 0 <= i < parts.len() implies plain(#[trigger] parts[i]) by {}
    }

    fn kind() -> (k: u8) {
        KIND_RECORD
    }

    fn to_wire(&self) -> (v: SborValue) {
        write3(&self.decl, &self.signer, &self.bindings)
    }

    fn from_wire(v: SborValue) -> (r: Option<Self>) {
        match read3::<IntentDecl, [u8; 16], Vec<YieldBinding>>(v) {
            Some((a, b, c)) => Some(Subintent { decl: a, signer: b, bindings: c }),
            None => {
                proof {
                    assert forall|x: Self| #[trigger] x.tree() != sbor_tree(v) by {
                        assert(x.tree() == form3(x.decl, x.signer, x.bindings));
                    }
                }
                None
            },
        }
    }
}

impl Wire for EnvelopeTree {
    open spec fn tree(self) -> Tree {
        form3(self.root, self.root_bindings, self.subintents)
    }

    open spec fn wire_kind() -> u8 {
        KIND_RECORD
    }

    proof fn law_kind(x: Self) {
    }

    proof fn law_plain(x: Self) {
        <IntentDecl as Wire>::law_plain(x.root);
        <Vec<YieldBinding> as Wire>::law_plain(x.root_bindings);
        <Vec<Subintent> as Wire>::law_plain(x.subintents);
        let parts = x.tree()->Record_0;
        assert forall|i: int| 0 <= i < parts.len() implies plain(#[trigger] parts[i]) by {}
    }

    fn kind() -> (k: u8) {
        KIND_RECORD
    }

    fn to_wire(&self) -> (v: SborValue) {
        write3(&self.root, &self.root_bindings, &self.subintents)
    }

    fn from_wire(v: SborValue) -> (r: Option<Self>) {
        match read3::<IntentDecl, Vec<YieldBinding>, Vec<Subintent>>(v) {
            Some((a, b, c)) => Some(EnvelopeTree { root: a, root_bindings: b, subintents: c }),
            None => {
                proof {
                    assert forall|x: Self| #[trigger] x.tree() != sbor_tree(v) by {
                        assert(x.tree() == form3(x.root, x.root_bindings, x.subintents));
                    }
                }
                None
            },
        }
    }
}

/// The nesting limit of the envelope's encoding.
pub const TREE_DEPTH: usize = 64;

/// The bytes are the wire bytes of a tree.
pub open spec fn is_wire_of(bytes: Seq<u8>, tree: EnvelopeTree) -> bool {
    encodable(tree.tree(), TREE_DEPTH as int) && bytes == sbor_payload(tree.tree())
}

/// The bytes read as a tree: they are its wire bytes, and it is read within the
/// encoding's limit.
pub open spec fn is_read_as(bytes: Seq<u8>, tree: EnvelopeTree) -> bool {
    decodable(tree.tree(), TREE_DEPTH as int) && bytes == sbor_payload(tree.tree())
}

/// The canonical wire bytes of an envelope tree; nothing, exactly when it
/// nests past the encoding's limit or a part of it is past its size limit.
#[must_use]
pub fn encode_tree(tree: &EnvelopeTree) -> (r: Option<Vec<u8>>)
    ensures
        match r {
            Some(bytes) => is_wire_of(bytes@, *tree),
            None => !encodable(tree.tree(), TREE_DEPTH as int),
        },
{
    encode(tree, TREE_DEPTH)
}

/// Reads wire bytes back. Whatever tree they read as is read, and nothing else
/// is.
pub fn decode_tree(bytes: &[u8]) -> (r: Result<EnvelopeTree, VmStaticsError>)
    ensures
        match r {
            Ok(tree) => is_read_as(bytes@, tree),
            Err(e) => e is TreeMalformed && e->TreeMalformed_reason@ == unread(
                bytes@,
                TREE_DEPTH as int,
            ) && forall|x: EnvelopeTree| !#[trigger] is_read_as(bytes@, x),
        },
        forall|x: EnvelopeTree| #[trigger]
            is_read_as(bytes@, x) ==> r is Ok && r->Ok_0.tree() == x.tree(),
{
    match decode::<EnvelopeTree>(bytes, TREE_DEPTH) {
        Some(tree) => {
            assert(is_read_as(bytes@, tree));
            Ok(tree)
        },
        None => {
            proof {
                assert forall|x: EnvelopeTree| !#[trigger] is_read_as(bytes@, x) by {
                    assert(!(decodable(x.tree(), TREE_DEPTH as int) && bytes@ == sbor_payload(
                        x.tree(),
                    )));
                }
            }
            Err(VmStaticsError::TreeMalformed { reason: decode_fault(bytes, TREE_DEPTH) })
        },
    }
}

/// A tree is read back from its wire bytes, where it is read within the
/// encoding's limit; what the bytes read as, they are the wire bytes of.
pub proof fn law_wire_trees_read_back(tree: EnvelopeTree, bytes: Seq<u8>)
    ensures
        is_wire_of(bytes, tree) && decodable(tree.tree(), TREE_DEPTH as int) ==> is_read_as(
            bytes,
            tree,
        ),
        is_read_as(bytes, tree) ==> is_wire_of(bytes, tree),
{
    if is_read_as(bytes, tree) {
        lemma_reads_settles(tree.tree(), TREE_DEPTH as int);
    }
}

} // verus!
