//! Wire forms determine the bounds: values with one form are past the same
//! bounds.
use vstd::prelude::*;

use crate::bridge::checks::{
    abi_fault, body_fault, calls_fault, clause_fault, clauses_fault, effects_in, effects_in_all,
    effects_in_body, expr_fault, exprs_fault, material_fault, mode_fault, signature_fault,
    target_fault, MetadataLimits,
};
use crate::bridge::expr::{expr_forms, lemma_expr_form, Expr};
use crate::bridge::sbor_value::Tree;
use crate::bridge::signature::{
    clause_forms, lemma_clause_form, AbiParam, CallSite, Clause, MethodEntry, ModeExpr, TargetExpr,
};
use crate::bridge::value::{lemma_value_tree, value_trees, Value};
use crate::bridge::wire::{trees, Wire};

verus! {

/// Literals with one form nest alike.
pub proof fn lemma_same_value(v: Value, w: Value, limit: int)
    requires
        v.tree() == w.tree(),
    ensures
        v.within(limit) == w.within(limit),
    decreases v,
{
    lemma_value_tree(v);
    lemma_value_tree(w);
    let a = v.tree()->Variant_1;
    let b = w.tree()->Variant_1;
    assert(a == b);
    match (v, w) {
        (Value::Tuple(f), Value::Tuple(g)) => {
            lemma_same_values(v, f@, g@, a[0], b[0], limit);
        },
        (Value::List(f), Value::List(g)) => {
            lemma_same_values(v, f@, g@, a[0], b[0], limit);
        },
        _ => {},
    }
}

proof fn lemma_same_values(
    whole: Value,
    f: Seq<Value>,
    g: Seq<Value>,
    a: Tree,
    b: Tree,
    limit: int,
)
    requires
        a == Tree::List(0x22u8, value_trees(f)),
        b == Tree::List(0x22u8, value_trees(g)),
        a == b,
        match whole {
            Value::Tuple(fields) => fields@ == f,
            Value::List(items) => items@ == f,
            _ => false,
        },
    ensures
        f.len() == g.len(),
        forall|i: int|
            0 <= i < f.len() ==> (#[trigger] f[i]).within(limit - 1) == g[i].within(limit - 1),
        forall|i: int|
            0 <= i < f.len() ==> f[i].within(limit - 1) == (#[trigger] g[i]).within(limit - 1),
    decreases whole, 0nat,
{
    assert(value_trees(f) == value_trees(g));
    assert(value_trees(f).len() == value_trees(g).len());
    assert forall|i: int| 0 <= i < f.len() implies (#[trigger] f[i]).within(limit - 1)
        == g[i].within(limit - 1) by {
        assert(value_trees(f)[i] == value_trees(g)[i]);
        match whole {
            Value::Tuple(fields) => {
                assert(decreases_to!(whole => fields));
                assert(decreases_to!(fields => fields[i]));
            },
            Value::List(items) => {
                assert(decreases_to!(whole => items));
                assert(decreases_to!(items => items[i]));
            },
            _ => {},
        }
        lemma_same_value(f[i], g[i], limit - 1);
    }
}

/// Expressions with one form are past the same bound.
pub proof fn lemma_same_expr(e: Expr, f: Expr, depth: int, lim: MetadataLimits)
    requires
        e.form() == f.form(),
    ensures
        expr_fault(e, depth, lim) == expr_fault(f, depth, lim),
    decreases e, 1nat, 0nat,
{
    lemma_expr_form(e);
    lemma_expr_form(f);
    let a = e.form()->Variant_1;
    let b = f.form()->Variant_1;
    assert(a == b);
    match (e, f) {
        (Expr::Literal(v), Expr::Literal(w)) => {
            assert(a[0] == b[0]);
            lemma_same_value(v, w, lim.max_value_depth as int);
        },
        (Expr::Field(x, _), Expr::Field(y, _)) => {
            assert(a[0] == b[0]);
            lemma_same_expr(*x, *y, depth + 1, lim);
        },
        (Expr::ResourceOf(x), Expr::ResourceOf(y)) => {
            assert(a[0] == b[0]);
            lemma_same_expr(*x, *y, depth + 1, lim);
        },
        (Expr::Lookup { map: m1, key: k1 }, Expr::Lookup { map: m2, key: k2 }) => {
            assert(a[0] == b[0] && a[1] == b[1]);
            lemma_same_expr(*m1, *m2, depth + 1, lim);
            lemma_same_expr(*k1, *k2, depth + 1, lim);
        },
        (Expr::Pack { hi: h1, lo: l1 }, Expr::Pack { hi: h2, lo: l2 }) => {
            assert(a[0] == b[0] && a[1] == b[1]);
            lemma_same_expr(*h1, *h2, depth + 1, lim);
            lemma_same_expr(*l1, *l2, depth + 1, lim);
        },
        (
            Expr::ChildKey { owner: o1, role: r1, material: m1 },
            Expr::ChildKey { owner: o2, role: r2, material: m2 },
        ) => {
            assert(a[0] == b[0] && a[2] == b[2]);
            lemma_same_expr(*o1, *o2, depth + 1, lim);
            assert(expr_forms(m1@) == expr_forms(m2@));
            assert(expr_forms(m1@).len() == expr_forms(m2@).len());
            lemma_same_material(e, f, m1@.len(), depth + 1, lim);
        },
        _ => {},
    }
}

proof fn lemma_same_material(e: Expr, f: Expr, n: nat, depth: int, lim: MetadataLimits)
    requires
        e is ChildKey,
        f is ChildKey,
        expr_forms(e->material@) == expr_forms(f->material@),
    ensures
        material_fault(e, n, depth, lim) == material_fault(f, n, depth, lim),
    decreases e, 0nat, n,
{
    let m1 = e->material@;
    let m2 = f->material@;
    assert(expr_forms(m1).len() == expr_forms(m2).len());
    if n > 0 && n <= m1.len() {
        lemma_same_material(e, f, (n - 1) as nat, depth, lim);
        assert(expr_forms(m1)[n - 1] == expr_forms(m2)[n - 1]);
        assert(decreases_to!(e => e->material));
        assert(decreases_to!(e->material => e->material[n - 1]));
        lemma_same_expr(m1[n - 1], m2[n - 1], depth, lim);
    }
}

/// Expressions with one form each are past the same bound.
pub proof fn lemma_same_exprs(a: Seq<Expr>, b: Seq<Expr>, lim: MetadataLimits)
    requires
        trees(a) == trees(b),
    ensures
        exprs_fault(a, lim) == exprs_fault(b, lim),
    decreases a.len(),
{
    assert(trees(a).len() == a.len() && trees(b).len() == b.len());
    if a.len() > 0 {
        assert(trees(a.drop_last()) =~= trees(a).drop_last());
        assert(trees(b.drop_last()) =~= trees(b).drop_last());
        lemma_same_exprs(a.drop_last(), b.drop_last(), lim);
        assert(trees(a).last() == a.last().tree());
        assert(trees(b).last() == b.last().tree());
        lemma_same_expr(a.last(), b.last(), 0, lim);
    }
}

/// Targets with one form are past the same bound.
pub proof fn lemma_same_target(x: TargetExpr, y: TargetExpr, lim: MetadataLimits)
    requires
        x.tree() == y.tree(),
    ensures
        target_fault(x, lim) == target_fault(y, lim),
{
    let a = x.tree()->Variant_1;
    let b = y.tree()->Variant_1;
    assert(a == b);
    match (x, y) {
        (TargetExpr::Point(k1), TargetExpr::Point(k2)) => {
            assert(a[0] == b[0]);
            lemma_same_expr(k1, k2, 0, lim);
        },
        (
            TargetExpr::Entry { owner: o1, collection: c1, order: r1 },
            TargetExpr::Entry { owner: o2, collection: c2, order: r2 },
        ) => {
            assert(a[0] == b[0] && a[2] == b[2]);
            lemma_same_expr(o1, o2, 0, lim);
            lemma_same_expr(r1, r2, 0, lim);
        },
        (
            TargetExpr::Range { owner: o1, collection: c1, lo: l1, hi: h1, cap: p1 },
            TargetExpr::Range { owner: o2, collection: c2, lo: l2, hi: h2, cap: p2 },
        ) => {
            assert(a[0] == b[0] && a[2] == b[2] && a[3] == b[3]);
            lemma_same_expr(o1, o2, 0, lim);
            lemma_same_expr(l1, l2, 0, lim);
            lemma_same_expr(h1, h2, 0, lim);
        },
        _ => {},
    }
}

/// Modes with one form are past the same bound.
pub proof fn lemma_same_mode(x: ModeExpr, y: ModeExpr, lim: MetadataLimits)
    requires
        x.tree() == y.tree(),
    ensures
        mode_fault(x, lim) == mode_fault(y, lim),
{
    let a = x.tree()->Variant_1;
    let b = y.tree()->Variant_1;
    assert(a == b);
    match (x, y) {
        (ModeExpr::Reserve(e), ModeExpr::Reserve(f)) => {
            assert(a[0] == b[0]);
            lemma_same_expr(e, f, 0, lim);
        },
        _ => {},
    }
}

/// Clauses with one form declare as many effects and are past the same bound.
pub proof fn lemma_same_clause(
    c: Clause,
    d: Clause,
    depth: int,
    declared: int,
    lim: MetadataLimits,
)
    requires
        c.form() == d.form(),
    ensures
        effects_in(c) == effects_in(d),
        clause_fault(c, depth, declared, lim) == clause_fault(d, depth, declared, lim),
    decreases c, 1nat, 0nat,
{
    lemma_clause_form(c);
    lemma_clause_form(d);
    let a = c.form()->Variant_1;
    let b = d.form()->Variant_1;
    assert(a == b);
    match (c, d) {
        (Clause::Effect { target: t1, mode: m1 }, Clause::Effect { target: t2, mode: m2 }) => {
            assert(a[0] == b[0] && a[1] == b[1]);
            lemma_same_target(t1, t2, lim);
            lemma_same_mode(m1, m2, lim);
        },
        (Clause::ForEach { list: l1, body: b1 }, Clause::ForEach { list: l2, body: b2 }) => {
            assert(a[0] == b[0] && a[1] == b[1]);
            lemma_same_expr(l1, l2, 0, lim);
            assert(clause_forms(b1@) == clause_forms(b2@));
            assert(clause_forms(b1@).len() == clause_forms(b2@).len());
            lemma_same_body(c, d, b1@.len(), depth + 1, declared, lim);
        },
        _ => {},
    }
}

proof fn lemma_same_body(
    c: Clause,
    d: Clause,
    n: nat,
    depth: int,
    declared: int,
    lim: MetadataLimits,
)
    requires
        c is ForEach,
        d is ForEach,
        clause_forms(c->body@) == clause_forms(d->body@),
    ensures
        effects_in_body(c, n) == effects_in_body(d, n),
        body_fault(c, n, depth, declared, lim) == body_fault(d, n, depth, declared, lim),
    decreases c, 0nat, n,
{
    let p = c->body@;
    let q = d->body@;
    assert(clause_forms(p).len() == clause_forms(q).len());
    if n > 0 && n <= p.len() {
        lemma_same_body(c, d, (n - 1) as nat, depth, declared, lim);
        assert(clause_forms(p)[n - 1] == clause_forms(q)[n - 1]);
        assert(decreases_to!(c => c->body));
        assert(decreases_to!(c->body => c->body[n - 1]));
        lemma_same_clause(
            p[n - 1],
            q[n - 1],
            depth,
            declared + effects_in_body(c, (n - 1) as nat),
            lim,
        );
    }
}

/// Clauses with one form each declare as many effects and are past the same
/// bound.
pub proof fn lemma_same_clauses(a: Seq<Clause>, b: Seq<Clause>, lim: MetadataLimits)
    requires
        trees(a) == trees(b),
    ensures
        effects_in_all(a) == effects_in_all(b),
        clauses_fault(a, lim) == clauses_fault(b, lim),
    decreases a.len(),
{
    assert(trees(a).len() == a.len() && trees(b).len() == b.len());
    if a.len() > 0 {
        assert(trees(a.drop_last()) =~= trees(a).drop_last());
        assert(trees(b.drop_last()) =~= trees(b).drop_last());
        lemma_same_clauses(a.drop_last(), b.drop_last(), lim);
        assert(trees(a).last() == a.last().tree());
        assert(trees(b).last() == b.last().tree());
        lemma_same_clause(a.last(), b.last(), 0, effects_in_all(a.drop_last()) as int, lim);
    }
}

/// Call sites with one form each are past the same bound.
pub proof fn lemma_same_calls(a: Seq<CallSite>, b: Seq<CallSite>, lim: MetadataLimits)
    requires
        trees(a) == trees(b),
    ensures
        calls_fault(a, lim) == calls_fault(b, lim),
    decreases a.len(),
{
    assert(trees(a).len() == a.len() && trees(b).len() == b.len());
    if a.len() > 0 {
        assert(trees(a.drop_last()) =~= trees(a).drop_last());
        assert(trees(b.drop_last()) =~= trees(b).drop_last());
        lemma_same_calls(a.drop_last(), b.drop_last(), lim);
        assert(trees(a).last() == a.last().tree());
        assert(trees(b).last() == b.last().tree());
        let p = a.last().tree()->Record_0;
        let q = b.last().tree()->Record_0;
        assert(p == q);
        assert(p[0] == q[0] && p[2] == q[2]);
        lemma_same_expr(a.last().target, b.last().target, 0, lim);
        assert(trees(a.last().args@) == trees(b.last().args@));
        lemma_same_exprs(a.last().args@, b.last().args@, lim);
    }
}

/// Compiled parameters with one form each are past the same bound.
pub proof fn lemma_same_abi(a: Seq<AbiParam>, b: Seq<AbiParam>, lim: MetadataLimits)
    requires
        trees(a) == trees(b),
    ensures
        abi_fault(a, lim) == abi_fault(b, lim),
    decreases a.len(),
{
    assert(trees(a).len() == a.len() && trees(b).len() == b.len());
    if a.len() > 0 {
        assert(trees(a.drop_last()) =~= trees(a).drop_last());
        assert(trees(b.drop_last()) =~= trees(b).drop_last());
        lemma_same_abi(a.drop_last(), b.drop_last(), lim);
        assert(trees(a).last() == a.last().tree());
        assert(trees(b).last() == b.last().tree());
        let p = a.last().tree()->Variant_1;
        let q = b.last().tree()->Variant_1;
        assert(p == q);
        if let (AbiParam::Derived(e), AbiParam::Derived(f)) = (a.last(), b.last()) {
            assert(p[0] == q[0]);
            lemma_same_expr(e, f, 0, lim);
        }
    }
}

/// Methods with one form have one name and are past the same bound.
pub proof fn lemma_same_method(x: MethodEntry, y: MethodEntry, lim: MetadataLimits)
    requires
        x.tree() == y.tree(),
    ensures
        x.name@ == y.name@,
        signature_fault(x.signature, lim) == signature_fault(y.signature, lim),
{
    let a = x.tree()->Record_0;
    let b = y.tree()->Record_0;
    assert(a == b);
    assert(a[0] == b[0] && a[3] == b[3] && a[4] == b[4] && a[5] == b[5] && a[6] == b[6]);
    lemma_same_abi(x.signature.abi@, y.signature.abi@, lim);
    lemma_same_exprs(x.signature.outputs@, y.signature.outputs@, lim);
    lemma_same_clauses(x.signature.effects@, y.signature.effects@, lim);
    lemma_same_calls(x.signature.calls@, y.signature.calls@, lim);
}

} // verus!
