//! How deep metadata within bounds nests.
use vstd::prelude::*;

use crate::bridge::checks::{
    abi_fault, abi_param_fault, body_fault, calls_fault, clause_fault, clauses_fault, effects_in_all,
    effects_in_body,
    expr_fault, exprs_fault, material_fault, mode_fault, signature_fault, target_fault,
    MetadataLimits,
};
use crate::bridge::codec::{lemma_nests_reads, lemma_reads_settles, reads, settles};
use crate::bridge::expr::{lemma_expr_nests, Expr};
use crate::bridge::metadata::PackageMetadata;
use crate::bridge::sbor_value::{lemma_nests_wider, nests, Tree};
use crate::bridge::signature::{
    clause_forms, lemma_clause_form, AbiParam, CallSite, Clause, MethodEntry,
    ModeExpr, TargetExpr,
};
use crate::bridge::wire::{lemma_list_nests, list_tree, Wire};

verus! {

/// How deep the form of an expression within bounds nests.
pub open spec fn expr_room(lim: MetadataLimits) -> int {
    2 * lim.max_expr_depth + 2 * lim.max_value_depth + 2
}

/// How deep the form of a clause within bounds nests, `depth` lists down.
pub open spec fn clause_room(lim: MetadataLimits, depth: int) -> int {
    expr_room(lim) + 2 + 2 * (lim.max_clause_depth - depth)
}

/// An expression past no bound is well bounded.
pub proof fn lemma_unfaulted_expr(e: Expr, depth: int, lim: MetadataLimits)
    requires
        expr_fault(e, depth, lim) is None,
    ensures
        e.bounded(depth, lim.max_expr_depth as int, lim.max_value_depth as int),
    decreases e, 1nat, 0nat,
{
    match e {
        Expr::Field(x, _) => lemma_unfaulted_expr(*x, depth + 1, lim),
        Expr::ResourceOf(x) => lemma_unfaulted_expr(*x, depth + 1, lim),
        Expr::Lookup { map, key } => {
            lemma_unfaulted_expr(*map, depth + 1, lim);
            lemma_unfaulted_expr(*key, depth + 1, lim);
        },
        Expr::Pack { hi, lo } => {
            lemma_unfaulted_expr(*hi, depth + 1, lim);
            lemma_unfaulted_expr(*lo, depth + 1, lim);
        },
        Expr::ChildKey { owner, role, material } => {
            lemma_unfaulted_expr(*owner, depth + 1, lim);
            lemma_unfaulted_material(e, material@.len(), depth + 1, lim);
        },
        _ => {},
    }
}

proof fn lemma_unfaulted_material(e: Expr, n: nat, depth: int, lim: MetadataLimits)
    requires
        e is ChildKey,
        n <= e->material@.len(),
        material_fault(e, n, depth, lim) is None,
    ensures
        forall|i: int|
            0 <= i < n ==> (#[trigger] e->material@[i]).bounded(
                depth,
                lim.max_expr_depth as int,
                lim.max_value_depth as int,
            ),
    decreases e, 0nat, n,
{
    if n > 0 {
        lemma_unfaulted_material(e, (n - 1) as nat, depth, lim);
        assert(decreases_to!(e => e->material));
        assert(decreases_to!(e->material => e->material[n - 1]));
        lemma_unfaulted_expr(e->material@[n - 1], depth, lim);
    }
}

/// The form of an expression past no bound nests within its room.
pub proof fn lemma_expr_room(e: Expr, lim: MetadataLimits)
    requires
        expr_fault(e, 0, lim) is None,
    ensures
        nests(e.form(), expr_room(lim)),
{
    lemma_unfaulted_expr(e, 0, lim);
    lemma_expr_nests(e, 0, lim.max_expr_depth as int, lim.max_value_depth as int);
}

/// The forms of expressions past no bound nest within one level more.
pub proof fn lemma_exprs_room(es: Seq<Expr>, lim: MetadataLimits)
    requires
        exprs_fault(es, lim) is None,
    ensures
        nests(list_tree(es), expr_room(lim) + 1),
{
    assert forall|i: int| 0 <= i < es.len() implies nests(
        (#[trigger] es[i]).tree(),
        expr_room(lim),
    ) by {
        lemma_exprs_each(es, i, lim);
        lemma_expr_room(es[i], lim);
    }
    lemma_list_nests(es, expr_room(lim) + 1);
}

proof fn lemma_exprs_each(es: Seq<Expr>, i: int, lim: MetadataLimits)
    requires
        exprs_fault(es, lim) is None,
        0 <= i < es.len(),
    ensures
        expr_fault(es[i], 0, lim) is None,
    decreases es.len(),
{
    if i < es.len() - 1 {
        lemma_exprs_each(es.drop_last(), i, lim);
    }
}

/// The form of a target past no bound nests within one level more.
pub proof fn lemma_target_room(t: TargetExpr, lim: MetadataLimits)
    requires
        target_fault(t, lim) is None,
    ensures
        nests(t.tree(), expr_room(lim) + 1),
{
    match t {
        TargetExpr::Point(key) => lemma_expr_room(key, lim),
        TargetExpr::Entry { owner, collection, order } => {
            lemma_expr_room(owner, lim);
            lemma_expr_room(order, lim);
        },
        TargetExpr::Range { owner, collection, lo, hi, cap } => {
            lemma_expr_room(owner, lim);
            lemma_expr_room(lo, lim);
            lemma_expr_room(hi, lim);
        },
    }
    let parts = t.tree()->Variant_1;
    assert forall|i: int| 0 <= i < parts.len() implies nests(
        #[trigger] parts[i],
        expr_room(lim),
    ) by {}
}

/// The form of a mode past no bound nests within one level more.
pub proof fn lemma_mode_room(m: ModeExpr, lim: MetadataLimits)
    requires
        mode_fault(m, lim) is None,
    ensures
        nests(m.tree(), expr_room(lim) + 1),
{
    if let ModeExpr::Reserve(amount) = m {
        lemma_expr_room(amount, lim);
    }
    let parts = m.tree()->Variant_1;
    assert forall|i: int| 0 <= i < parts.len() implies nests(
        #[trigger] parts[i],
        expr_room(lim),
    ) by {}
}

/// The form of a clause past no bound nests within its room.
pub proof fn lemma_clause_room(c: Clause, depth: int, declared: int, lim: MetadataLimits)
    requires
        clause_fault(c, depth, declared, lim) is None,
        depth <= lim.max_clause_depth,
    ensures
        nests(c.form(), clause_room(lim, depth)),
    decreases c, 1nat, 0nat,
{
    lemma_clause_form(c);
    let room = clause_room(lim, depth);
    match c {
        Clause::Effect { target, mode } => {
            lemma_target_room(target, lim);
            lemma_mode_room(mode, lim);
            lemma_nests_wider(target.tree(), expr_room(lim) + 1, room - 1);
            lemma_nests_wider(mode.tree(), expr_room(lim) + 1, room - 1);
            let parts = c.form()->Variant_1;
            assert forall|i: int| 0 <= i < parts.len() implies nests(
                #[trigger] parts[i],
                room - 1,
            ) by {}
        },
        Clause::ForEach { list, body } => {
            lemma_expr_room(list, lim);
            lemma_nests_wider(list.form(), expr_room(lim), room - 1);
            lemma_body_room(c, body@.len(), depth + 1, declared, lim);
            let forms = clause_forms(body@);
            assert forall|i: int| 0 <= i < forms.len() implies nests(
                #[trigger] forms[i],
                room - 2,
            ) by {
                assert(forms[i] == body@[i].form());
            }
            assert(nests(Tree::List(0x22u8, forms), room - 1));
            let parts = c.form()->Variant_1;
            assert forall|i: int| 0 <= i < parts.len() implies nests(
                #[trigger] parts[i],
                room - 1,
            ) by {}
        },
    }
}

proof fn lemma_body_room(c: Clause, n: nat, depth: int, declared: int, lim: MetadataLimits)
    requires
        c is ForEach,
        n <= c->body@.len(),
        body_fault(c, n, depth, declared, lim) is None,
        depth <= lim.max_clause_depth,
    ensures
        forall|i: int|
            0 <= i < n ==> nests((#[trigger] c->body@[i]).form(), clause_room(lim, depth)),
    decreases c, 0nat, n,
{
    if n > 0 {
        lemma_body_room(c, (n - 1) as nat, depth, declared, lim);
        assert(decreases_to!(c => c->body));
        assert(decreases_to!(c->body => c->body[n - 1]));
        lemma_clause_room(
            c->body@[n - 1],
            depth,
            declared + effects_in_body(c, (n - 1) as nat),
            lim,
        );
    }
}

proof fn lemma_clauses_each(cs: Seq<Clause>, i: int, lim: MetadataLimits)
    requires
        clauses_fault(cs, lim) is None,
        0 <= i < cs.len(),
    ensures
        nests(cs[i].form(), clause_room(lim, 0)),
    decreases cs.len(),
{
    if i < cs.len() - 1 {
        lemma_clauses_each(cs.drop_last(), i, lim);
    } else {
        lemma_clause_room(cs.last(), 0, effects_in_all(cs.drop_last()) as int, lim);
    }
}

proof fn lemma_calls_each(cs: Seq<CallSite>, i: int, lim: MetadataLimits)
    requires
        calls_fault(cs, lim) is None,
        0 <= i < cs.len(),
    ensures
        nests(cs[i].tree(), expr_room(lim) + 2),
    decreases cs.len(),
{
    if i < cs.len() - 1 {
        lemma_calls_each(cs.drop_last(), i, lim);
    } else {
        let call = cs.last();
        lemma_expr_room(call.target, lim);
        lemma_nests_wider(call.target.form(), expr_room(lim), expr_room(lim) + 1);
        lemma_exprs_room(call.args@, lim);
        let parts = call.tree()->Record_0;
        assert forall|k: int| 0 <= k < parts.len() implies nests(
            #[trigger] parts[k],
            expr_room(lim) + 1,
        ) by {}
    }
}

proof fn lemma_abi_each(ps: Seq<AbiParam>, i: int, lim: MetadataLimits)
    requires
        abi_fault(ps, lim) is None,
        0 <= i < ps.len(),
    ensures
        abi_param_fault(ps[i], lim) is None,
    decreases ps.len(),
{
    if i < ps.len() - 1 {
        lemma_abi_each(ps.drop_last(), i, lim);
    }
}

proof fn lemma_method_room(m: MethodEntry, lim: MetadataLimits)
    requires
        signature_fault(m.signature, lim) is None,
    ensures
        nests(m.tree(), clause_room(lim, 0) + 2),
{
    let s = m.signature;
    let room = clause_room(lim, 0) + 1;
    lemma_exprs_room(s.outputs@, lim);
    lemma_nests_wider(list_tree(s.outputs@), expr_room(lim) + 1, room);
    assert forall|i: int| 0 <= i < s.effects@.len() implies nests(
        (#[trigger] s.effects@[i]).tree(),
        room - 1,
    ) by {
        lemma_clauses_each(s.effects@, i, lim);
    }
    lemma_list_nests(s.effects@, room);
    assert forall|i: int| 0 <= i < s.calls@.len() implies nests(
        (#[trigger] s.calls@[i]).tree(),
        room - 1,
    ) by {
        lemma_calls_each(s.calls@, i, lim);
        lemma_nests_wider(s.calls@[i].tree(), expr_room(lim) + 2, room - 1);
    }
    lemma_list_nests(s.calls@, room);
    assert forall|i: int| 0 <= i < s.params@.len() implies nests(
        (#[trigger] s.params@[i]).tree(),
        room - 1,
    ) by {}
    lemma_list_nests(s.params@, room);
    assert forall|i: int| 0 <= i < s.abi@.len() implies nests(
        (#[trigger] s.abi@[i]).tree(),
        room - 1,
    ) by {
        let a = s.abi@[i];
        lemma_abi_each(s.abi@, i, lim);
        if let AbiParam::Derived(e) = a {
            lemma_expr_room(e, lim);
            lemma_nests_wider(e.form(), expr_room(lim), room - 2);
        }
        let parts = a.tree()->Variant_1;
        assert forall|k: int| 0 <= k < parts.len() implies nests(#[trigger] parts[k], room - 2) by {}
    }
    lemma_list_nests(s.abi@, room);
    let parts = m.tree()->Record_0;
    assert forall|k: int| 0 <= k < parts.len() implies nests(#[trigger] parts[k], room) by {
        assert(nests(s.accessibility.tree(), room));
    }
}

/// The deepest admissible metadata still encodes and reads back: metadata
/// within bounds is written and read within the nesting limit of the encoding.
pub proof fn law_bounded_metadata_settles(m: PackageMetadata, lim: MetadataLimits)
    requires
        m.bounded(lim),
    ensures
        settles(m.tree(), lim.sbor_depth()),
        reads(m.tree(), lim.sbor_depth()),
{
    let room = clause_room(lim, 0) + 3;
    assert forall|i: int| 0 <= i < m.methods@.len() implies nests(
        (#[trigger] m.methods@[i]).tree(),
        room - 1,
    ) by {
        lemma_method_room(m.methods@[i], lim);
    }
    lemma_list_nests(m.methods@, room);
    assert forall|i: int| 0 <= i < m.events@.len() implies nests(
        (#[trigger] m.events@[i]).tree(),
        room - 1,
    ) by {
        assert(m.events@[i].tree() == Tree::Text(m.events@[i]@));
    }
    lemma_list_nests(m.events@, room);
    let parts = m.tree()->Record_0;
    assert forall|k: int| 0 <= k < parts.len() implies nests(#[trigger] parts[k], room) by {}
    assert(nests(m.tree(), room + 1));
    lemma_nests_wider(m.tree(), room + 1, lim.sbor_depth());
    lemma_nests_reads(m.tree(), lim.sbor_depth());
    lemma_reads_settles(m.tree(), lim.sbor_depth());
}

} // verus!
