//! Envelope trees that always have a wire form.
use vstd::prelude::*;
use vstd::utf8::{encode_utf8, is_ascii_chars_encode_utf8};

use crate::bridge::codec::{decodable, encodable, lemma_nests_reads, lemma_reads_settles};
use crate::bridge::envelope::{
    Constraint, EnvelopeTree, GraphArg, GraphNode, IntentDecl, Subintent, YieldBinding, YieldParam,
    TREE_DEPTH,
};
use crate::bridge::sbor_value::{
    framed, kind_of, lemma_nests_wider, nests, Tree, KIND_U8, MAX_SBOR_SIZE,
};
use crate::bridge::value::{bytes_tree, lemma_bytes_nest};
use crate::bridge::wire::{lemma_list_nests, list_tree, trees, Wire};
use crate::bridge::statics::VmTransaction;
use crate::crypto::ed25519::Ed25519PrivateKey;
use crate::scenarios::envelopes::{
    address_arg, amount_arg, arg_shape, arg_shapes, bytes_arg, calls_tree, decl_shape, fed,
    is_call, is_composed, node_shape, number_arg, single_intent, subintent_shape, tree_shape,
    withdrawal, ArgShape, DeclShape, NodeShape, TimestampRange, TreeShape,
};

verus! {

/// An argument that fits wherever an envelope may carry it.
pub open spec fn modest_arg(a: ArgShape) -> bool {
    match a {
        ArgShape::Literal(t) => nests(t, 8) && framed(t),
        ArgShape::Edge(_, constraints) => constraints.len() <= MAX_SBOR_SIZE,
        ArgShape::Param(_) => true,
    }
}

/// A call whose name and arguments fit.
pub open spec fn modest_node(n: NodeShape) -> bool {
    &&& encode_utf8(n.method).len() <= MAX_SBOR_SIZE
    &&& n.args.len() <= MAX_SBOR_SIZE
    &&& forall|i: int| 0 <= i < n.args.len() ==> modest_arg(#[trigger] n.args[i])
}

/// A declaration whose calls and parameters fit.
pub open spec fn modest_decl(d: DeclShape) -> bool {
    &&& d.nodes.len() <= MAX_SBOR_SIZE
    &&& forall|i: int| 0 <= i < d.nodes.len() ==> modest_node(#[trigger] d.nodes[i])
    &&& d.params.len() <= MAX_SBOR_SIZE
    &&& forall|i: int| 0 <= i < d.params.len() ==> (#[trigger] d.params[i]).1.len() <= MAX_SBOR_SIZE
}

/// A tree whose parts fit.
pub open spec fn modest_tree(t: TreeShape) -> bool {
    &&& modest_decl(t.root)
    &&& t.root_bindings.len() <= MAX_SBOR_SIZE
    &&& t.subintents.len() <= MAX_SBOR_SIZE
    &&& forall|i: int|
        0 <= i < t.subintents.len() ==> modest_decl((#[trigger] t.subintents[i]).decl)
            && t.subintents[i].bindings.len() <= MAX_SBOR_SIZE
}

/// The tree nests within a limit and is well framed.
spec fn sits(t: Tree, limit: int) -> bool {
    nests(t, limit) && framed(t)
}

proof fn lemma_list_sits<T: Wire>(s: Seq<T>, limit: int)
    requires
        limit >= 2,
        s.len() <= MAX_SBOR_SIZE,
        forall|i: int| 0 <= i < s.len() ==> sits((#[trigger] s[i]).tree(), limit - 1),
    ensures
        sits(list_tree(s), limit),
{
    assert forall|i: int| 0 <= i < s.len() implies nests((#[trigger] s[i]).tree(), limit - 1) by {
        assert(sits(s[i].tree(), limit - 1));
    }
    lemma_list_nests(s, limit);
    let items = trees(s);
    assert forall|i: int| 0 <= i < items.len() implies framed(#[trigger] items[i]) && kind_of(
        items[i],
    ) == Some(T::wire_kind()) by {
        assert(sits(s[i].tree(), limit - 1));
        T::law_kind(s[i]);
    }
}

proof fn lemma_record_sits(parts: Seq<Tree>, limit: int)
    requires
        limit >= 1,
        parts.len() <= MAX_SBOR_SIZE,
        forall|i: int| 0 <= i < parts.len() ==> sits(#[trigger] parts[i], limit - 1),
    ensures
        sits(Tree::Record(parts), limit),
        forall|d: u8| #[trigger] sits(Tree::Variant(d, parts), limit),
{
    assert forall|i: int| 0 <= i < parts.len() implies nests(#[trigger] parts[i], limit - 1)
        && framed(parts[i]) by {
        assert(sits(parts[i], limit - 1));
    }
}

/// A byte string sits within two levels.
pub proof fn lemma_bytes_sit(s: Seq<u8>, limit: int)
    requires
        limit >= 2,
        s.len() <= MAX_SBOR_SIZE,
    ensures
        nests(bytes_tree(s), limit),
        framed(bytes_tree(s)),
{
    lemma_bytes_nest(s, 2);
    lemma_nests_wider(bytes_tree(s), 2, limit);
    let items = bytes_tree(s)->List_1;
    assert forall|i: int| 0 <= i < items.len() implies framed(#[trigger] items[i]) && kind_of(
        items[i],
    ) == Some(KIND_U8) by {
        assert(items[i] == Tree::U8(s[i]));
    }
}

proof fn lemma_constraint_sits(c: Constraint, limit: int)
    requires
        limit >= 3,
    ensures
        sits(c.tree(), limit),
{
    let parts = c.tree()->Variant_1;
    if let Constraint::ResourceIs(a) = c {
        assert(a.tree() == bytes_tree(a@));
        lemma_bytes_sit(a@, limit - 1);
    }
    assert forall|i: int| 0 <= i < parts.len() implies sits(#[trigger] parts[i], limit - 1) by {}
    lemma_record_sits(parts, limit);
    assert(sits(Tree::Variant(c.tree()->Variant_0, parts), limit));
}

proof fn lemma_constraints_sit(cs: Seq<Constraint>, limit: int)
    requires
        limit >= 4,
        cs.len() <= MAX_SBOR_SIZE,
    ensures
        sits(list_tree(cs), limit),
{
    assert forall|i: int| 0 <= i < cs.len() implies sits((#[trigger] cs[i]).tree(), limit - 1) by {
        lemma_constraint_sits(cs[i], limit - 1);
    }
    lemma_list_sits(cs, limit);
}

proof fn lemma_arg_sits(a: GraphArg, limit: int)
    requires
        modest_arg(arg_shape(a)),
        limit >= 9,
    ensures
        sits(a.tree(), limit),
{
    let parts = a.tree()->Variant_1;
    match a {
        GraphArg::Literal(v) => {
            lemma_nests_wider(v.tree(), 8, limit - 1);
        },
        GraphArg::Edge { edge, constraints } => {
            lemma_constraints_sit(constraints@, limit - 1);
        },
        GraphArg::Param(_) => {},
    }
    assert forall|i: int| 0 <= i < parts.len() implies sits(#[trigger] parts[i], limit - 1) by {}
    lemma_record_sits(parts, limit);
    assert(sits(Tree::Variant(a.tree()->Variant_0, parts), limit));
}

proof fn lemma_node_sits(n: GraphNode, limit: int)
    requires
        modest_node(node_shape(n)),
        limit >= 11,
    ensures
        sits(n.tree(), limit),
{
    let shapes = arg_shapes(n.args@);
    assert forall|i: int| 0 <= i < n.args@.len() implies sits(
        (#[trigger] n.args@[i]).tree(),
        limit - 2,
    ) by {
        assert(modest_arg(shapes[i]));
        lemma_arg_sits(n.args@[i], limit - 2);
    }
    lemma_list_sits(n.args@, limit - 1);
    assert(n.args.tree() == list_tree(n.args@));
    assert(n.target.tree() == bytes_tree(n.target@));
    lemma_bytes_sit(n.target@, limit - 1);
    assert(n.method.tree() == Tree::Text(n.method@));
    let parts = n.tree()->Record_0;
    assert forall|i: int| 0 <= i < parts.len() implies sits(#[trigger] parts[i], limit - 1) by {}
    lemma_record_sits(parts, limit);
}

proof fn lemma_param_sits(p: YieldParam, limit: int)
    requires
        p.constraints@.len() <= MAX_SBOR_SIZE,
        limit >= 5,
    ensures
        sits(p.tree(), limit),
{
    lemma_constraints_sit(p.constraints@, limit - 1);
    assert(p.constraints.tree() == list_tree(p.constraints@));
    assert(p.resource.tree() == bytes_tree(p.resource@));
    lemma_bytes_sit(p.resource@, limit - 1);
    let parts = p.tree()->Record_0;
    assert forall|i: int| 0 <= i < parts.len() implies sits(#[trigger] parts[i], limit - 1) by {}
    lemma_record_sits(parts, limit);
}

proof fn lemma_decl_sits(d: IntentDecl, limit: int)
    requires
        modest_decl(decl_shape(d)),
        limit >= 13,
    ensures
        sits(d.tree(), limit),
{
    let shape = decl_shape(d);
    assert forall|i: int| 0 <= i < d.graph.nodes@.len() implies sits(
        (#[trigger] d.graph.nodes@[i]).tree(),
        limit - 2,
    ) by {
        assert(modest_node(shape.nodes[i]));
        lemma_node_sits(d.graph.nodes@[i], limit - 2);
    }
    lemma_list_sits(d.graph.nodes@, limit - 1);
    assert(d.graph.nodes.tree() == list_tree(d.graph.nodes@));
    assert forall|i: int| 0 <= i < d.params@.len() implies sits(
        (#[trigger] d.params@[i]).tree(),
        limit - 2,
    ) by {
        assert(shape.params[i].1 == d.params@[i].constraints@);
        lemma_param_sits(d.params@[i], limit - 2);
    }
    lemma_list_sits(d.params@, limit - 1);
    assert(d.params.tree() == list_tree(d.params@));
    let parts = d.tree()->Record_0;
    assert forall|i: int| 0 <= i < parts.len() implies sits(#[trigger] parts[i], limit - 1) by {}
    lemma_record_sits(parts, limit);
}

proof fn lemma_bindings_sit(bindings: Vec<YieldBinding>, limit: int)
    requires
        bindings@.len() <= MAX_SBOR_SIZE,
        limit >= 3,
    ensures
        sits(bindings.tree(), limit),
{
    assert forall|i: int| 0 <= i < bindings@.len() implies sits(
        (#[trigger] bindings@[i]).tree(),
        limit - 1,
    ) by {
        let parts = bindings@[i].tree()->Record_0;
        assert forall|j: int| 0 <= j < parts.len() implies sits(#[trigger] parts[j], limit - 2) by {}
        lemma_record_sits(parts, limit - 1);
    }
    lemma_list_sits(bindings@, limit);
    assert(bindings.tree() == list_tree(bindings@));
}

proof fn lemma_subintent_sits(s: Subintent, limit: int)
    requires
        modest_decl(decl_shape(s.decl)),
        s.bindings@.len() <= MAX_SBOR_SIZE,
        limit >= 14,
    ensures
        sits(s.tree(), limit),
{
    lemma_decl_sits(s.decl, limit - 1);
    lemma_bindings_sit(s.bindings, limit - 1);
    assert(s.signer.tree() == bytes_tree(s.signer@));
    lemma_bytes_sit(s.signer@, limit - 1);
    let parts = s.tree()->Record_0;
    assert forall|i: int| 0 <= i < parts.len() implies sits(#[trigger] parts[i], limit - 1) by {}
    lemma_record_sits(parts, limit);
}

/// A tree whose parts fit has a wire form that reads back.
pub proof fn law_modest_trees_encode(t: EnvelopeTree)
    requires
        modest_tree(tree_shape(t)),
    ensures
        encodable(t.tree(), TREE_DEPTH as int),
        decodable(t.tree(), TREE_DEPTH as int),
{
    let shape = tree_shape(t);
    let limit = TREE_DEPTH as int;
    lemma_decl_sits(t.root, limit - 1);
    lemma_bindings_sit(t.root_bindings, limit - 1);
    assert forall|i: int| 0 <= i < t.subintents@.len() implies sits(
        (#[trigger] t.subintents@[i]).tree(),
        limit - 2,
    ) by {
        assert(shape.subintents[i] == subintent_shape(t.subintents@[i]));
        assert(modest_decl(shape.subintents[i].decl));
        lemma_subintent_sits(t.subintents@[i], limit - 2);
    }
    lemma_list_sits(t.subintents@, limit - 1);
    assert(t.subintents.tree() == list_tree(t.subintents@));
    let parts = t.tree()->Record_0;
    assert forall|i: int| 0 <= i < parts.len() implies sits(#[trigger] parts[i], limit - 1) by {}
    lemma_record_sits(parts, limit);
    lemma_nests_reads(t.tree(), limit);
    lemma_reads_settles(t.tree(), limit);
}

/// The names that envelopes call are short.
pub proof fn lemma_names_fit()
    ensures
        encode_utf8("withdraw"@).len() <= MAX_SBOR_SIZE,
        encode_utf8("deposit"@).len() <= MAX_SBOR_SIZE,
        encode_utf8("stake"@).len() <= MAX_SBOR_SIZE,
        encode_utf8("unstake"@).len() <= MAX_SBOR_SIZE,
        encode_utf8("deactivate-validator"@).len() <= MAX_SBOR_SIZE,
        encode_utf8("register-validator"@).len() <= MAX_SBOR_SIZE,
        encode_utf8("cast-param-vote"@).len() <= MAX_SBOR_SIZE,
        encode_utf8("stamp-entropy"@).len() <= MAX_SBOR_SIZE,
{
    reveal_strlit("withdraw");
    reveal_strlit("deposit");
    reveal_strlit("stake");
    reveal_strlit("unstake");
    reveal_strlit("deactivate-validator");
    reveal_strlit("register-validator");
    reveal_strlit("cast-param-vote");
    reveal_strlit("stamp-entropy");
    is_ascii_chars_encode_utf8("withdraw"@);
    is_ascii_chars_encode_utf8("deposit"@);
    is_ascii_chars_encode_utf8("stake"@);
    is_ascii_chars_encode_utf8("unstake"@);
    is_ascii_chars_encode_utf8("deactivate-validator"@);
    is_ascii_chars_encode_utf8("register-validator"@);
    is_ascii_chars_encode_utf8("cast-param-vote"@);
    is_ascii_chars_encode_utf8("stamp-entropy"@);
}

/// A literal of one scalar or byte string fits.
pub proof fn lemma_literals_fit(a: [u8; 16], amount: u128, number: u64, bytes: Seq<u8>)
    requires
        bytes.len() <= MAX_SBOR_SIZE,
    ensures
        modest_arg(address_arg(a)),
        modest_arg(amount_arg(amount)),
        modest_arg(number_arg(number)),
        modest_arg(bytes_arg(bytes)),
{
    lemma_bytes_sit(a@, 7);
    lemma_bytes_sit(bytes, 7);
    lemma_record_sits(seq![bytes_tree(a@)], 8);
    lemma_record_sits(seq![bytes_tree(bytes)], 8);
    lemma_record_sits(seq![Tree::U128(amount)], 8);
    lemma_record_sits(seq![Tree::U64(number)], 8);
    assert(sits(Tree::Variant(3u8, seq![bytes_tree(a@)]), 8));
    assert(sits(Tree::Variant(2u8, seq![bytes_tree(bytes)]), 8));
    assert(sits(Tree::Variant(1u8, seq![Tree::U128(amount)]), 8));
    assert(sits(Tree::Variant(0u8, seq![Tree::U64(number)]), 8));
}

/// A withdrawal fits.
pub proof fn lemma_withdrawal_fits(from: [u8; 16], resource: [u8; 16], amount: u128)
    ensures
        modest_node(withdrawal(from, resource, amount)),
{
    lemma_names_fit();
    lemma_literals_fit(resource, amount, 0, Seq::empty());
}

/// A call that is fed one bucket fits, where its name does.
pub proof fn lemma_fed_fits(
    target: [u8; 16],
    method: Seq<char>,
    producer: u32,
    resource: [u8; 16],
)
    requires
        encode_utf8(method).len() <= MAX_SBOR_SIZE,
    ensures
        modest_node(fed(target, method, producer, resource)),
{
}

/// A call of one intent whose calls fit is made.
pub proof fn lemma_call_made(
    r: Option<VmTransaction>,
    nodes: Seq<NodeShape>,
    payer: Ed25519PrivateKey,
    validity: TimestampRange,
)
    requires
        is_call(r, nodes, payer, validity),
        modest_tree(single_intent(nodes)),
    ensures
        r is Some,
{
    let tree = choose|tree: EnvelopeTree| #[trigger]
        calls_tree(r, tree) && tree_shape(tree) == single_intent(nodes);
    law_modest_trees_encode(tree);
}

/// A composition whose parts fit is made.
pub proof fn lemma_composition_made(
    r: Option<VmTransaction>,
    shape: TreeShape,
    payer: Ed25519PrivateKey,
    signer: Ed25519PrivateKey,
    hash: Seq<u8>,
    validity: TimestampRange,
)
    requires
        is_composed(r, shape, payer, signer, hash, validity),
        modest_tree(shape),
    ensures
        r is Some,
{
    let tree = choose|tree: EnvelopeTree| #[trigger]
        calls_tree(r, tree) && tree_shape(tree) == shape;
    law_modest_trees_encode(tree);
}

} // verus!
