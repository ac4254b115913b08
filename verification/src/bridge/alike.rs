//! Wire forms tell values apart: what has one form says one thing.
use vstd::prelude::*;

use crate::bridge::envelope::{
    Constraint, EnvelopeTree, GraphArg, GraphNode, IntentDecl, Subintent, YieldBinding, YieldParam,
};
use crate::bridge::expr::{expr_forms, lemma_expr_form, Expr};
use crate::bridge::metadata::PackageMetadata;
use crate::bridge::sbor_value::Tree;
use crate::bridge::signature::{
    clause_forms, lemma_clause_form, Accessibility, AbiParam, CallSite, Clause, MethodEntry, ModeExpr,
    ParamType, TargetExpr,
};
use crate::bridge::value::{lemma_bytes_tree_injective, lemma_value_tree, value_trees, Value};
use crate::bridge::wire::{trees, Wire};

verus! {

/// Two literals are of one kind and say the same, member by member.
pub open spec fn value_alike(v: Value, w: Value) -> bool
    decreases v,
{
    match (v, w) {
        (Value::U64(x), Value::U64(y)) => x == y,
        (Value::U128(x), Value::U128(y)) => x == y,
        (Value::Bytes(x), Value::Bytes(y)) => x@ == y@,
        (Value::Address(x), Value::Address(y)) => x == y,
        (Value::Key(x), Value::Key(y)) => x == y,
        (Value::Bucket { resource: x }, Value::Bucket { resource: y }) => x == y,
        (Value::Tuple(f), Value::Tuple(g)) => f@.len() == g@.len() && forall|i: int|
            0 <= i < f@.len() ==> value_alike(#[trigger] f@[i], g@[i]),
        (Value::List(f), Value::List(g)) => f@.len() == g@.len() && forall|i: int|
            0 <= i < f@.len() ==> value_alike(#[trigger] f@[i], g@[i]),
        _ => false,
    }
}

/// Two expressions are of one kind and say the same, part by part.
pub open spec fn expr_alike(e: Expr, f: Expr) -> bool
    decreases e,
{
    match (e, f) {
        (Expr::Literal(v), Expr::Literal(w)) => value_alike(v, w),
        (Expr::Arg(i), Expr::Arg(j)) => i == j,
        (Expr::Config(i), Expr::Config(j)) => i == j,
        (Expr::Binding(i), Expr::Binding(j)) => i == j,
        (Expr::SelfAddr, Expr::SelfAddr) => true,
        (Expr::Field(x, i), Expr::Field(y, j)) => expr_alike(*x, *y) && i == j,
        (Expr::ResourceOf(x), Expr::ResourceOf(y)) => expr_alike(*x, *y),
        (Expr::Lookup { map: m, key: k }, Expr::Lookup { map: n, key: l }) => expr_alike(*m, *n)
            && expr_alike(*k, *l),
        (
            Expr::ChildKey { owner: o, role: r, material: m },
            Expr::ChildKey { owner: p, role: s, material: n },
        ) => expr_alike(*o, *p) && r.0 == s.0 && m@.len() == n@.len() && forall|i: int|
            0 <= i < m@.len() ==> expr_alike(#[trigger] m@[i], n@[i]),
        (Expr::FreshId { slot: i }, Expr::FreshId { slot: j }) => i == j,
        (Expr::FreshKey { slot: i }, Expr::FreshKey { slot: j }) => i == j,
        (Expr::Pack { hi: h, lo: l }, Expr::Pack { hi: i, lo: m }) => expr_alike(*h, *i)
            && expr_alike(*l, *m),
        _ => false,
    }
}

/// Two lists of expressions say the same, one by one.
pub open spec fn exprs_alike(a: Seq<Expr>, b: Seq<Expr>) -> bool {
    a.len() == b.len() && forall|i: int| 0 <= i < a.len() ==> expr_alike(#[trigger] a[i], b[i])
}

/// Two targets say the same.
pub open spec fn target_alike(s: TargetExpr, t: TargetExpr) -> bool {
    match (s, t) {
        (TargetExpr::Point(x), TargetExpr::Point(y)) => expr_alike(x, y),
        (
            TargetExpr::Entry { owner: o, collection: c, order: x },
            TargetExpr::Entry { owner: p, collection: d, order: y },
        ) => expr_alike(o, p) && c.0 == d.0 && expr_alike(x, y),
        (
            TargetExpr::Range { owner: o, collection: c, lo: l, hi: h, cap: n },
            TargetExpr::Range { owner: p, collection: d, lo: m, hi: i, cap: k },
        ) => expr_alike(o, p) && c.0 == d.0 && expr_alike(l, m) && expr_alike(h, i) && n == k,
        _ => false,
    }
}

/// Two modes say the same.
pub open spec fn mode_alike(s: ModeExpr, t: ModeExpr) -> bool {
    match (s, t) {
        (ModeExpr::Read, ModeExpr::Read) => true,
        (ModeExpr::Locked, ModeExpr::Locked) => true,
        (ModeExpr::Delta, ModeExpr::Delta) => true,
        (ModeExpr::Write, ModeExpr::Write) => true,
        (ModeExpr::Reserve(x), ModeExpr::Reserve(y)) => expr_alike(x, y),
        _ => false,
    }
}

/// Two clauses say the same, clause by clause.
pub open spec fn clause_alike(c: Clause, d: Clause) -> bool
    decreases c,
{
    match (c, d) {
        (Clause::Effect { target: s, mode: m }, Clause::Effect { target: t, mode: n }) =>
            target_alike(s, t) && mode_alike(m, n),
        (Clause::ForEach { list: l, body: b }, Clause::ForEach { list: k, body: a }) => expr_alike(
            l,
            k,
        ) && b@.len() == a@.len() && forall|i: int|
            0 <= i < b@.len() ==> clause_alike(#[trigger] b@[i], a@[i]),
        _ => false,
    }
}

/// Two call sites say the same.
pub open spec fn call_alike(c: CallSite, d: CallSite) -> bool {
    expr_alike(c.target, d.target) && c.method@ == d.method@ && exprs_alike(c.args@, d.args@)
}

/// Two compiled parameters say the same.
pub open spec fn abi_alike(p: AbiParam, q: AbiParam) -> bool {
    match (p, q) {
        (AbiParam::Handle(i), AbiParam::Handle(j)) => i == j,
        (AbiParam::Bucket(i), AbiParam::Bucket(j)) => i == j,
        (AbiParam::Derived(x), AbiParam::Derived(y)) => expr_alike(x, y),
        _ => false,
    }
}

/// Two methods say the same.
pub open spec fn method_alike(m: MethodEntry, n: MethodEntry) -> bool {
    let s = m.signature;
    let t = n.signature;
    &&& m.name@ == n.name@
    &&& s.accessibility == t.accessibility
    &&& s.params@ == t.params@
    &&& s.abi@.len() == t.abi@.len()
    &&& forall|i: int| 0 <= i < s.abi@.len() ==> abi_alike(#[trigger] s.abi@[i], t.abi@[i])
    &&& exprs_alike(s.outputs@, t.outputs@)
    &&& s.effects@.len() == t.effects@.len()
    &&& forall|i: int|
        0 <= i < s.effects@.len() ==> clause_alike(#[trigger] s.effects@[i], t.effects@[i])
    &&& s.calls@.len() == t.calls@.len()
    &&& forall|i: int| 0 <= i < s.calls@.len() ==> call_alike(#[trigger] s.calls@[i], t.calls@[i])
}

/// Arguments of a call say the same.
pub open spec fn arg_alike(a: GraphArg, b: GraphArg) -> bool {
    match (a, b) {
        (GraphArg::Literal(v), GraphArg::Literal(w)) => value_alike(v, w),
        (
            GraphArg::Edge { edge: e, constraints: c },
            GraphArg::Edge { edge: f, constraints: d },
        ) => e == f && c@ == d@,
        (GraphArg::Param(i), GraphArg::Param(j)) => i == j,
        _ => false,
    }
}

/// Two calls say the same.
pub open spec fn node_alike(m: GraphNode, n: GraphNode) -> bool {
    &&& m.target == n.target
    &&& m.method@ == n.method@
    &&& m.args@.len() == n.args@.len()
    &&& forall|i: int| 0 <= i < m.args@.len() ==> arg_alike(#[trigger] m.args@[i], n.args@[i])
}

/// Two declarations say the same.
pub open spec fn decl_alike(c: IntentDecl, d: IntentDecl) -> bool {
    let m = c.graph.nodes@;
    let n = d.graph.nodes@;
    &&& m.len() == n.len()
    &&& forall|i: int| 0 <= i < m.len() ==> node_alike(#[trigger] m[i], n[i])
    &&& c.params@.len() == d.params@.len()
    &&& forall|i: int|
        0 <= i < c.params@.len() ==> (#[trigger] c.params@[i]).resource == d.params@[i].resource
            && c.params@[i].constraints@ == d.params@[i].constraints@
}

/// Two subintents say the same.
pub open spec fn subintent_alike(s: Subintent, t: Subintent) -> bool {
    decl_alike(s.decl, t.decl) && s.signer == t.signer && s.bindings@ == t.bindings@
}

/// Literals with one form say the same.
pub proof fn law_a_form_tells_literals_apart(v: Value, w: Value)
    requires
        v.tree() == w.tree(),
    ensures
        value_alike(v, w),
    decreases v,
{
    lemma_value_tree(v);
    lemma_value_tree(w);
    let a = v.tree()->Variant_1;
    let b = w.tree()->Variant_1;
    assert(a == b);
    match (v, w) {
        (Value::U64(x), Value::U64(y)) => {
            assert(a[0] == Tree::U64(x) && b[0] == Tree::U64(y));
        },
        (Value::U128(x), Value::U128(y)) => {
            assert(a[0] == Tree::U128(x) && b[0] == Tree::U128(y));
        },
        (Value::Bytes(x), Value::Bytes(y)) => {
            assert(a[0] == b[0]);
            lemma_bytes_tree_injective(x@, y@);
        },
        (Value::Address(x), Value::Address(y)) => {
            assert(a[0] == b[0]);
            lemma_bytes_tree_injective(x@, y@);
            assert(x =~= y);
        },
        (Value::Key(x), Value::Key(y)) => {
            assert(a[0] == b[0] && a[1] == b[1]);
            lemma_bytes_tree_injective(x.owner@, y.owner@);
            lemma_bytes_tree_injective(x.local@, y.local@);
            assert(x.owner =~= y.owner);
            assert(x.local =~= y.local);
        },
        (Value::Bucket { resource: x }, Value::Bucket { resource: y }) => {
            assert(a[0] == b[0]);
            lemma_bytes_tree_injective(x@, y@);
            assert(x =~= y);
        },
        (Value::Tuple(f), Value::Tuple(g)) => {
            assert(a[0] == b[0]);
            lemma_values_told_apart(v, f@, g@);
        },
        (Value::List(f), Value::List(g)) => {
            assert(a[0] == b[0]);
            lemma_values_told_apart(v, f@, g@);
        },
        _ => {},
    }
}

proof fn lemma_values_told_apart(whole: Value, f: Seq<Value>, g: Seq<Value>)
    requires
        Tree::List(0x22u8, value_trees(f)) == Tree::List(0x22u8, value_trees(g)),
        match whole {
            Value::Tuple(fields) => fields@ == f,
            Value::List(items) => items@ == f,
            _ => false,
        },
    ensures
        f.len() == g.len(),
        forall|i: int| 0 <= i < f.len() ==> value_alike(#[trigger] f[i], g[i]),
    decreases whole, 0nat,
{
    assert(value_trees(f) == value_trees(g));
    assert(value_trees(f).len() == value_trees(g).len());
    assert forall|i: int| 0 <= i < f.len() implies value_alike(#[trigger] f[i], g[i]) by {
        assert(value_trees(f)[i] == value_trees(g)[i]);
        match whole {
            Value::Tuple(fields) => {
                assert(decreases_to!(whole => fields));
                assert(decreases_to!(fields => fields[i]));
            },
            Value::List(items) => {
                assert(decreases_to!(whole => items));
                assert(decreases_to!(items => items[i]));
            },
            _ => {},
        }
        law_a_form_tells_literals_apart(f[i], g[i]);
    }
}

/// Expressions with one form say the same.
pub proof fn law_a_form_tells_expressions_apart(e: Expr, f: Expr)
    requires
        e.form() == f.form(),
    ensures
        expr_alike(e, f),
    decreases e, 1nat, 0nat,
{
    lemma_expr_form(e);
    lemma_expr_form(f);
    let a = e.form()->Variant_1;
    let b = f.form()->Variant_1;
    assert(a == b);
    match (e, f) {
        (Expr::Literal(v), Expr::Literal(w)) => {
            assert(a[0] == b[0]);
            law_a_form_tells_literals_apart(v, w);
        },
        (Expr::Arg(i), Expr::Arg(j)) => {
            assert(a[0] == Tree::U32(i) && b[0] == Tree::U32(j));
        },
        (Expr::Config(i), Expr::Config(j)) => {
            assert(a[0] == Tree::U32(i) && b[0] == Tree::U32(j));
        },
        (Expr::Binding(i), Expr::Binding(j)) => {
            assert(a[0] == Tree::U32(i) && b[0] == Tree::U32(j));
        },
        (Expr::FreshId { slot: i }, Expr::FreshId { slot: j }) => {
            assert(a[0] == Tree::U32(i) && b[0] == Tree::U32(j));
        },
        (Expr::FreshKey { slot: i }, Expr::FreshKey { slot: j }) => {
            assert(a[0] == Tree::U32(i) && b[0] == Tree::U32(j));
        },
        (Expr::Field(x, i), Expr::Field(y, j)) => {
            assert(a[0] == b[0]);
            assert(a[1] == Tree::U32(i) && b[1] == Tree::U32(j));
            law_a_form_tells_expressions_apart(*x, *y);
        },
        (Expr::ResourceOf(x), Expr::ResourceOf(y)) => {
            assert(a[0] == b[0]);
            law_a_form_tells_expressions_apart(*x, *y);
        },
        (Expr::Lookup { map: m, key: k }, Expr::Lookup { map: n, key: l }) => {
            assert(a[0] == b[0] && a[1] == b[1]);
            law_a_form_tells_expressions_apart(*m, *n);
            law_a_form_tells_expressions_apart(*k, *l);
        },
        (Expr::Pack { hi: h, lo: l }, Expr::Pack { hi: i, lo: m }) => {
            assert(a[0] == b[0] && a[1] == b[1]);
            law_a_form_tells_expressions_apart(*h, *i);
            law_a_form_tells_expressions_apart(*l, *m);
        },
        (
            Expr::ChildKey { owner: o, role: r, material: m },
            Expr::ChildKey { owner: p, role: s, material: n },
        ) => {
            assert(a[0] == b[0] && a[2] == b[2]);
            assert(a[1] == Tree::U16(r.0) && b[1] == Tree::U16(s.0));
            law_a_form_tells_expressions_apart(*o, *p);
            assert(expr_forms(m@) == expr_forms(n@));
            assert(expr_forms(m@).len() == expr_forms(n@).len());
            assert forall|i: int| 0 <= i < m@.len() implies expr_alike(#[trigger] m@[i], n@[i]) by {
                assert(expr_forms(m@)[i] == expr_forms(n@)[i]);
                assert(decreases_to!(e => e->material));
                assert(decreases_to!(e->material => e->material[i]));
                law_a_form_tells_expressions_apart(m@[i], n@[i]);
            }
        },
        _ => {},
    }
}

proof fn lemma_exprs_told_apart(a: Seq<Expr>, b: Seq<Expr>)
    requires
        trees(a) == trees(b),
    ensures
        exprs_alike(a, b),
{
    assert(trees(a).len() == a.len() && trees(b).len() == b.len());
    assert forall|i: int| 0 <= i < a.len() implies expr_alike(#[trigger] a[i], b[i]) by {
        assert(trees(a)[i] == a[i].tree() && trees(b)[i] == b[i].tree());
        assert(a[i].tree() == a[i].form() && b[i].tree() == b[i].form());
        law_a_form_tells_expressions_apart(a[i], b[i]);
    }
}

proof fn lemma_targets_told_apart(s: TargetExpr, t: TargetExpr)
    requires
        s.tree() == t.tree(),
    ensures
        target_alike(s, t),
{
    let a = s.tree()->Variant_1;
    let b = t.tree()->Variant_1;
    assert(a == b);
    match (s, t) {
        (TargetExpr::Point(x), TargetExpr::Point(y)) => {
            assert(a[0] == b[0]);
            law_a_form_tells_expressions_apart(x, y);
        },
        (
            TargetExpr::Entry { owner: o, collection: c, order: x },
            TargetExpr::Entry { owner: p, collection: d, order: y },
        ) => {
            assert(a[0] == b[0] && a[2] == b[2]);
            assert(a[1] == Tree::U16(c.0) && b[1] == Tree::U16(d.0));
            law_a_form_tells_expressions_apart(o, p);
            law_a_form_tells_expressions_apart(x, y);
        },
        (
            TargetExpr::Range { owner: o, collection: c, lo: l, hi: h, cap: n },
            TargetExpr::Range { owner: p, collection: d, lo: m, hi: i, cap: k },
        ) => {
            assert(a[0] == b[0] && a[2] == b[2] && a[3] == b[3]);
            assert(a[1] == Tree::U16(c.0) && b[1] == Tree::U16(d.0));
            assert(a[4] == Tree::U32(n) && b[4] == Tree::U32(k));
            law_a_form_tells_expressions_apart(o, p);
            law_a_form_tells_expressions_apart(l, m);
            law_a_form_tells_expressions_apart(h, i);
        },
        _ => {},
    }
}

proof fn lemma_modes_told_apart(s: ModeExpr, t: ModeExpr)
    requires
        s.tree() == t.tree(),
    ensures
        mode_alike(s, t),
{
    let a = s.tree()->Variant_1;
    let b = t.tree()->Variant_1;
    assert(a == b);
    match (s, t) {
        (ModeExpr::Reserve(x), ModeExpr::Reserve(y)) => {
            assert(a[0] == x.form() && b[0] == y.form());
            law_a_form_tells_expressions_apart(x, y);
        },
        _ => {},
    }
}

/// Clauses with one form say the same.
pub proof fn law_a_form_tells_clauses_apart(c: Clause, d: Clause)
    requires
        c.form() == d.form(),
    ensures
        clause_alike(c, d),
    decreases c, 1nat,
{
    lemma_clause_form(c);
    lemma_clause_form(d);
    let a = c.form()->Variant_1;
    let b = d.form()->Variant_1;
    assert(a == b);
    match (c, d) {
        (Clause::Effect { target: s, mode: m }, Clause::Effect { target: t, mode: n }) => {
            assert(a[0] == s.tree() && b[0] == t.tree());
            assert(a[1] == m.tree() && b[1] == n.tree());
            lemma_targets_told_apart(s, t);
            lemma_modes_told_apart(m, n);
        },
        (Clause::ForEach { list: l, body: p }, Clause::ForEach { list: k, body: q }) => {
            assert(a[0] == l.form() && b[0] == k.form());
            law_a_form_tells_expressions_apart(l, k);
            assert(a[1] == b[1]);
            lemma_bodies_told_apart(c, d);
        },
        _ => {},
    }
}

proof fn lemma_bodies_told_apart(c: Clause, d: Clause)
    requires
        c is ForEach,
        d is ForEach,
        clause_forms(c->body@) == clause_forms(d->body@),
    ensures
        c->body@.len() == d->body@.len(),
        forall|i: int|
            0 <= i < c->body@.len() ==> clause_alike(#[trigger] c->body@[i], d->body@[i]),
    decreases c, 0nat,
{
    let p = c->body@;
    let q = d->body@;
    assert(clause_forms(p).len() == clause_forms(q).len());
    assert forall|i: int| 0 <= i < p.len() implies clause_alike(#[trigger] c->body@[i], q[i]) by {
        assert(clause_forms(p)[i] == clause_forms(q)[i]);
        assert(decreases_to!(c => c->body));
        assert(decreases_to!(c->body => c->body[i]));
        law_a_form_tells_clauses_apart(p[i], q[i]);
    }
}

proof fn lemma_calls_told_apart(c: CallSite, d: CallSite)
    requires
        c.tree() == d.tree(),
    ensures
        call_alike(c, d),
{
    let a = c.tree()->Record_0;
    let b = d.tree()->Record_0;
    assert(a == b);
    assert(a[0] == b[0] && a[2] == b[2]);
    assert(a[1] == Tree::Text(c.method@) && b[1] == Tree::Text(d.method@));
    law_a_form_tells_expressions_apart(c.target, d.target);
    lemma_exprs_told_apart(c.args@, d.args@);
}

proof fn lemma_abi_told_apart(p: AbiParam, q: AbiParam)
    requires
        p.tree() == q.tree(),
    ensures
        abi_alike(p, q),
{
    let a = p.tree()->Variant_1;
    let b = q.tree()->Variant_1;
    assert(a == b);
    assert(a[0] == b[0]);
    match (p, q) {
        (AbiParam::Handle(i), AbiParam::Handle(j)) => {
            assert(a[0] == Tree::U32(i) && b[0] == Tree::U32(j));
        },
        (AbiParam::Bucket(i), AbiParam::Bucket(j)) => {
            assert(a[0] == Tree::U32(i) && b[0] == Tree::U32(j));
        },
        (AbiParam::Derived(x), AbiParam::Derived(y)) => {
            law_a_form_tells_expressions_apart(x, y);
        },
        _ => {},
    }
}

/// Methods with one form have one name and one signature: as accessible, the same
/// parameters, compiled parameters, outputs, effects and calls.
pub proof fn law_a_form_tells_methods_apart(m: MethodEntry, n: MethodEntry)
    requires
        m.tree() == n.tree(),
    ensures
        method_alike(m, n),
{
    let s = m.signature;
    let t = n.signature;
    let a = m.tree()->Record_0;
    let b = n.tree()->Record_0;
    assert(a == b);
    assert(a[0] == Tree::Text(m.name@) && b[0] == Tree::Text(n.name@));
    assert(a[1] == b[1] && a[2] == b[2] && a[3] == b[3]);
    assert(a[4] == b[4] && a[5] == b[5] && a[6] == b[6]);
    assert(s.accessibility == t.accessibility) by {
        assert(s.accessibility.tree() == t.accessibility.tree());
        match (s.accessibility, t.accessibility) {
            (Accessibility::Public, Accessibility::Public) => {},
            (Accessibility::RequiresTargetAuth, Accessibility::RequiresTargetAuth) => {},
            _ => {},
        }
    }
    assert(trees(s.params@).len() == trees(t.params@).len());
    assert forall|i: int| 0 <= i < s.params@.len() implies s.params@[i] == t.params@[i] by {
        assert(trees(s.params@)[i] == trees(t.params@)[i]);
        match (s.params@[i], t.params@[i]) {
            (ParamType::U64, ParamType::U64) => {},
            (ParamType::U128, ParamType::U128) => {},
            (ParamType::Bytes, ParamType::Bytes) => {},
            (ParamType::Address, ParamType::Address) => {},
            (ParamType::Bucket, ParamType::Bucket) => {},
            _ => {},
        }
    }
    assert(s.params@ =~= t.params@);
    assert(trees(s.abi@).len() == trees(t.abi@).len());
    assert forall|i: int| 0 <= i < s.abi@.len() implies abi_alike(
        #[trigger] s.abi@[i],
        t.abi@[i],
    ) by {
        assert(trees(s.abi@)[i] == trees(t.abi@)[i]);
        lemma_abi_told_apart(s.abi@[i], t.abi@[i]);
    }
    lemma_exprs_told_apart(s.outputs@, t.outputs@);
    assert(trees(s.effects@).len() == trees(t.effects@).len());
    assert forall|i: int| 0 <= i < s.effects@.len() implies clause_alike(
        #[trigger] s.effects@[i],
        t.effects@[i],
    ) by {
        assert(trees(s.effects@)[i] == trees(t.effects@)[i]);
        law_a_form_tells_clauses_apart(s.effects@[i], t.effects@[i]);
    }
    assert(trees(s.calls@).len() == trees(t.calls@).len());
    assert forall|i: int| 0 <= i < s.calls@.len() implies call_alike(
        #[trigger] s.calls@[i],
        t.calls@[i],
    ) by {
        assert(trees(s.calls@)[i] == trees(t.calls@)[i]);
        lemma_calls_told_apart(s.calls@[i], t.calls@[i]);
    }
}

/// Metadata with one form declares the same methods and the same events, in order.
pub proof fn law_a_form_tells_metadata_apart(x: PackageMetadata, y: PackageMetadata)
    requires
        x.tree() == y.tree(),
    ensures
        x.methods@.len() == y.methods@.len(),
        forall|i: int|
            0 <= i < x.methods@.len() ==> method_alike(#[trigger] x.methods@[i], y.methods@[i]),
        x.events@.len() == y.events@.len(),
        forall|i: int| 0 <= i < x.events@.len() ==> (#[trigger] x.events@[i])@ == y.events@[i]@,
{
    let a = x.tree()->Record_0;
    let b = y.tree()->Record_0;
    assert(a == b);
    assert(a[0] == b[0] && a[1] == b[1]);
    assert(trees(x.methods@).len() == trees(y.methods@).len());
    assert(trees(x.events@).len() == trees(y.events@).len());
    assert forall|i: int| 0 <= i < x.methods@.len() implies method_alike(
        #[trigger] x.methods@[i],
        y.methods@[i],
    ) by {
        assert(trees(x.methods@)[i] == trees(y.methods@)[i]);
        law_a_form_tells_methods_apart(x.methods@[i], y.methods@[i]);
    }
    assert forall|i: int| 0 <= i < x.events@.len() implies (#[trigger] x.events@[i])@
        == y.events@[i]@ by {
        assert(trees(x.events@)[i] == trees(y.events@)[i]);
        assert(x.events@[i].tree() == Tree::Text(x.events@[i]@));
    }
}

proof fn lemma_addresses_told_apart(x: [u8; 16], y: [u8; 16])
    requires
        x.tree() == y.tree(),
    ensures
        x == y,
{
    lemma_bytes_tree_injective(x@, y@);
    assert(x =~= y);
}

proof fn lemma_constraints_told_apart(a: Seq<Constraint>, b: Seq<Constraint>)
    requires
        trees(a) == trees(b),
    ensures
        a == b,
{
    assert(trees(a).len() == a.len() && trees(b).len() == b.len());
    assert forall|i: int| 0 <= i < a.len() implies a[i] == b[i] by {
        assert(trees(a)[i] == a[i].tree() && trees(b)[i] == b[i].tree());
        let x = a[i].tree()->Variant_1;
        let y = b[i].tree()->Variant_1;
        assert(x == y);
        assert(x[0] == y[0]);
        match (a[i], b[i]) {
            (Constraint::MinAmount(p), Constraint::MinAmount(q)) => {
                assert(x[0] == Tree::U128(p) && y[0] == Tree::U128(q));
            },
            (Constraint::MaxAmount(p), Constraint::MaxAmount(q)) => {
                assert(x[0] == Tree::U128(p) && y[0] == Tree::U128(q));
            },
            (Constraint::ResourceIs(p), Constraint::ResourceIs(q)) => {
                lemma_addresses_told_apart(p, q);
            },
            _ => {},
        }
    }
    assert(a =~= b);
}

proof fn lemma_args_told_apart(a: GraphArg, b: GraphArg)
    requires
        a.tree() == b.tree(),
    ensures
        arg_alike(a, b),
{
    let x = a.tree()->Variant_1;
    let y = b.tree()->Variant_1;
    assert(x == y);
    assert(x[0] == y[0]);
    match (a, b) {
        (GraphArg::Literal(v), GraphArg::Literal(w)) => {
            law_a_form_tells_literals_apart(v, w);
        },
        (
            GraphArg::Edge { edge: e, constraints: c },
            GraphArg::Edge { edge: f, constraints: d },
        ) => {
            assert(x[0] == Tree::U32(e.producer) && y[0] == Tree::U32(f.producer));
            assert(x[1] == Tree::U32(e.output) && y[1] == Tree::U32(f.output));
            assert(x[2] == y[2]);
            lemma_constraints_told_apart(c@, d@);
        },
        (GraphArg::Param(i), GraphArg::Param(j)) => {
            assert(x[0] == Tree::U32(i) && y[0] == Tree::U32(j));
        },
        _ => {},
    }
}

proof fn lemma_nodes_told_apart(m: GraphNode, n: GraphNode)
    requires
        m.tree() == n.tree(),
    ensures
        node_alike(m, n),
{
    let x = m.tree()->Record_0;
    let y = n.tree()->Record_0;
    assert(x == y);
    assert(x[0] == y[0] && x[1] == y[1] && x[2] == y[2]);
    lemma_addresses_told_apart(m.target, n.target);
    assert(x[1] == Tree::Text(m.method@) && y[1] == Tree::Text(n.method@));
    assert(trees(m.args@) == trees(n.args@));
    assert(trees(m.args@).len() == trees(n.args@).len());
    assert forall|i: int| 0 <= i < m.args@.len() implies arg_alike(
        #[trigger] m.args@[i],
        n.args@[i],
    ) by {
        assert(trees(m.args@)[i] == trees(n.args@)[i]);
        lemma_args_told_apart(m.args@[i], n.args@[i]);
    }
}

proof fn lemma_bindings_told_apart(a: Seq<YieldBinding>, b: Seq<YieldBinding>)
    requires
        trees(a) == trees(b),
    ensures
        a == b,
{
    assert(trees(a).len() == a.len() && trees(b).len() == b.len());
    assert forall|i: int| 0 <= i < a.len() implies a[i] == b[i] by {
        assert(trees(a)[i] == a[i].tree() && trees(b)[i] == b[i].tree());
        let x = a[i].tree()->Record_0;
        let y = b[i].tree()->Record_0;
        assert(x == y);
        assert(x[0] == Tree::U32(a[i].intent) && y[0] == Tree::U32(b[i].intent));
        assert(x[1] == Tree::U32(a[i].edge.producer) && y[1] == Tree::U32(b[i].edge.producer));
        assert(x[2] == Tree::U32(a[i].edge.output) && y[2] == Tree::U32(b[i].edge.output));
    }
    assert(a =~= b);
}

/// Declarations with one form make the same calls, in order, and expect the same.
pub proof fn law_a_form_tells_declarations_apart(c: IntentDecl, d: IntentDecl)
    requires
        c.tree() == d.tree(),
    ensures
        decl_alike(c, d),
{
    let x = c.tree()->Record_0;
    let y = d.tree()->Record_0;
    let m = c.graph.nodes@;
    let n = d.graph.nodes@;
    assert(x == y);
    assert(x[0] == y[0] && x[1] == y[1]);
    assert(trees(m) == trees(n));
    assert(trees(m).len() == trees(n).len());
    assert forall|i: int| 0 <= i < m.len() implies node_alike(#[trigger] m[i], n[i]) by {
        assert(trees(m)[i] == trees(n)[i]);
        lemma_nodes_told_apart(m[i], n[i]);
    }
    assert(trees(c.params@) == trees(d.params@));
    assert(trees(c.params@).len() == trees(d.params@).len());
    assert forall|i: int| 0 <= i < c.params@.len() implies (#[trigger] c.params@[i]).resource
        == d.params@[i].resource && c.params@[i].constraints@ == d.params@[i].constraints@ by {
        assert(trees(c.params@)[i] == trees(d.params@)[i]);
        let p: YieldParam = c.params@[i];
        let q: YieldParam = d.params@[i];
        let s = p.tree()->Record_0;
        let t = q.tree()->Record_0;
        assert(s == t);
        assert(s[0] == t[0] && s[1] == t[1]);
        lemma_addresses_told_apart(p.resource, q.resource);
        assert(trees(p.constraints@) == trees(q.constraints@));
        lemma_constraints_told_apart(p.constraints@, q.constraints@);
    }
}

/// Envelope trees with one form say the same: the composer's own intent, how it is
/// filled, and every subintent with its signer and how it is filled, in order.
/// So what reads back from wire bytes is what was written.
pub proof fn law_a_form_tells_envelope_trees_apart(s: EnvelopeTree, t: EnvelopeTree)
    requires
        s.tree() == t.tree(),
    ensures
        decl_alike(s.root, t.root),
        s.root_bindings@ == t.root_bindings@,
        s.subintents@.len() == t.subintents@.len(),
        forall|i: int|
            0 <= i < s.subintents@.len() ==> subintent_alike(
                #[trigger] s.subintents@[i],
                t.subintents@[i],
            ),
{
    let x = s.tree()->Record_0;
    let y = t.tree()->Record_0;
    assert(x == y);
    assert(x[0] == y[0] && x[1] == y[1] && x[2] == y[2]);
    law_a_form_tells_declarations_apart(s.root, t.root);
    assert(trees(s.root_bindings@) == trees(t.root_bindings@));
    lemma_bindings_told_apart(s.root_bindings@, t.root_bindings@);
    assert(trees(s.subintents@) == trees(t.subintents@));
    assert(trees(s.subintents@).len() == trees(t.subintents@).len());
    assert forall|i: int| 0 <= i < s.subintents@.len() implies subintent_alike(
        #[trigger] s.subintents@[i],
        t.subintents@[i],
    ) by {
        assert(trees(s.subintents@)[i] == trees(t.subintents@)[i]);
        let p: Subintent = s.subintents@[i];
        let q: Subintent = t.subintents@[i];
        let a = p.tree()->Record_0;
        let b = q.tree()->Record_0;
        assert(a == b);
        assert(a[0] == b[0] && a[1] == b[1] && a[2] == b[2]);
        law_a_form_tells_declarations_apart(p.decl, q.decl);
        lemma_addresses_told_apart(p.signer, q.signer);
        assert(trees(p.bindings@) == trees(q.bindings@));
        lemma_bindings_told_apart(p.bindings@, q.bindings@);
    }
}

/// A form opens with the number of its kind, counted in the order that the kinds
/// are declared in.
pub proof fn law_kinds_are_numbered_in_order(v: Value, e: Expr, t: TargetExpr, m: ModeExpr)
    ensures
        v.tree() is Variant,
        v.tree()->Variant_0 == (match v {
            Value::U64(..) => 0u8,
            Value::U128(..) => 1,
            Value::Bytes(..) => 2,
            Value::Address(..) => 3,
            Value::Key(..) => 4,
            Value::Bucket { .. } => 5,
            Value::Tuple(..) => 6,
            Value::List(..) => 7,
        }),
        e.form() is Variant,
        e.form()->Variant_0 == (match e {
            Expr::Literal(..) => 0u8,
            Expr::Arg(..) => 1,
            Expr::Config(..) => 2,
            Expr::Binding(..) => 3,
            Expr::SelfAddr => 4,
            Expr::Field(..) => 5,
            Expr::ResourceOf(..) => 6,
            Expr::Lookup { .. } => 7,
            Expr::ChildKey { .. } => 8,
            Expr::FreshId { .. } => 9,
            Expr::FreshKey { .. } => 10,
            Expr::Pack { .. } => 11,
        }),
        t.tree() is Variant,
        t.tree()->Variant_0 == (match t {
            TargetExpr::Point(..) => 0u8,
            TargetExpr::Entry { .. } => 1,
            TargetExpr::Range { .. } => 2,
        }),
        m.tree() is Variant,
        m.tree()->Variant_0 == (match m {
            ModeExpr::Read => 0u8,
            ModeExpr::Locked => 1,
            ModeExpr::Delta => 2,
            ModeExpr::Reserve(..) => 3,
            ModeExpr::Write => 4,
        }),
{
}

} // verus!
