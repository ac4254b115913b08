//! The bounds the vocabulary fixes on signatures, and the first one a
//! signature is past.
use vstd::prelude::*;

use crate::bridge::error::SignatureFault;
use crate::bridge::expr::Expr;
use crate::bridge::signature::{AbiParam, CallSite, Clause, MethodSignature, ModeExpr, TargetExpr};
use crate::bridge::wire::Wire;

verus! {

/// The deepest that a metadata section may nest, whatever the limits: reading
/// one takes a stack frame for each level.
pub const SBOR_DEPTH_CEILING: usize = 1024;

/// The bounds on package metadata.
#[derive(Clone, Copy, Debug, PartialEq, Eq, Structural)]
pub struct MetadataLimits {
    /// The most bytes an encoded metadata section may have.
    pub max_bytes: usize,
    /// The most event types a package may name.
    pub max_event_types: usize,
    /// The deepest for-each nesting.
    pub max_clause_depth: usize,
    /// The deepest expression nesting.
    pub max_expr_depth: usize,
    /// The deepest literal nesting.
    pub max_value_depth: usize,
    /// The most effects one signature may declare.
    pub max_effects: usize,
}

impl MetadataLimits {
    /// The nesting limit of the encoding: two levels for each clause,
    /// expression and literal level, and a fixed prefix.
    pub open spec fn sbor_depth(self) -> int {
        16 + 2 * (self.max_clause_depth + self.max_expr_depth + self.max_value_depth)
    }

    /// The limits leave room for the arithmetic on them, the encoding nests no
    /// deeper than the ceiling, and a section within them has a length of 32
    /// bits, its name and frame included.
    pub open spec fn wf(self) -> bool {
        &&& self.sbor_depth() <= SBOR_DEPTH_CEILING
        &&& self.max_effects < usize::MAX
        &&& self.max_bytes + 27 <= u32::MAX
    }

    /// Whether the limits leave that room.
    pub fn is_sound(&self) -> (r: bool)
        ensures
            r == self.wf(),
    {
        let ceiling: usize = SBOR_DEPTH_CEILING;
        self.max_clause_depth <= ceiling && self.max_expr_depth <= ceiling && self.max_value_depth
            <= ceiling && 16 + 2 * (self.max_clause_depth + self.max_expr_depth
            + self.max_value_depth) <= ceiling && self.max_effects < usize::MAX && self.max_bytes
            <= 4_294_967_268
    }

    /// The nesting limit of the encoding.
    pub fn depth_limit(&self) -> (n: usize)
        requires
            self.wf(),
        ensures
            n == self.sbor_depth(),
    {
        16 + 2 * (self.max_clause_depth + self.max_expr_depth + self.max_value_depth)
    }
}

/// The first of two faults.
pub open spec fn first(a: Option<SignatureFault>, b: Option<SignatureFault>) -> Option<
    SignatureFault,
> {
    if a is Some {
        a
    } else {
        b
    }
}

/// The first bound an expression is past, `depth` levels down, parts in
/// declaration order.
pub open spec fn expr_fault(e: Expr, depth: int, lim: MetadataLimits) -> Option<SignatureFault>
    decreases e, 1nat, 0nat,
{
    if depth > lim.max_expr_depth {
        Some(SignatureFault::ExprDepth)
    } else {
        match e {
            Expr::Literal(v) => if v.within(lim.max_value_depth as int) {
                None
            } else {
                Some(SignatureFault::LiteralDepth)
            },
            Expr::Field(x, _) => expr_fault(*x, depth + 1, lim),
            Expr::ResourceOf(x) => expr_fault(*x, depth + 1, lim),
            Expr::Lookup { map, key } => first(
                expr_fault(*map, depth + 1, lim),
                expr_fault(*key, depth + 1, lim),
            ),
            Expr::Pack { hi, lo } => first(
                expr_fault(*hi, depth + 1, lim),
                expr_fault(*lo, depth + 1, lim),
            ),
            Expr::ChildKey { owner, role, material } => first(
                expr_fault(*owner, depth + 1, lim),
                material_fault(e, material@.len(), depth + 1, lim),
            ),
            _ => None,
        }
    }
}

/// The first bound that the first `n` parts of a child key's material are
/// past.
pub open spec fn material_fault(e: Expr, n: nat, depth: int, lim: MetadataLimits) -> Option<
    SignatureFault,
>
    decreases e, 0nat, n,
{
    match e {
        Expr::ChildKey { owner, role, material } => if n == 0 || n > material@.len() {
            None
        } else {
            first(
                material_fault(e, (n - 1) as nat, depth, lim),
                expr_fault(material@[n - 1], depth, lim),
            )
        },
        _ => None,
    }
}

/// The first bound that a sequence of expressions is past.
pub open spec fn exprs_fault(es: Seq<Expr>, lim: MetadataLimits) -> Option<SignatureFault>
    decreases es.len(),
{
    if es.len() == 0 {
        None
    } else {
        first(exprs_fault(es.drop_last(), lim), expr_fault(es.last(), 0, lim))
    }
}

/// The first bound a target is past.
pub open spec fn target_fault(t: TargetExpr, lim: MetadataLimits) -> Option<SignatureFault> {
    match t {
        TargetExpr::Point(key) => expr_fault(key, 0, lim),
        TargetExpr::Entry { owner, collection, order } => first(
            expr_fault(owner, 0, lim),
            expr_fault(order, 0, lim),
        ),
        TargetExpr::Range { owner, collection, lo, hi, cap } => first(
            first(expr_fault(owner, 0, lim), expr_fault(lo, 0, lim)),
            expr_fault(hi, 0, lim),
        ),
    }
}

/// The first bound a mode is past.
pub open spec fn mode_fault(m: ModeExpr, lim: MetadataLimits) -> Option<SignatureFault> {
    match m {
        ModeExpr::Reserve(amount) => expr_fault(amount, 0, lim),
        _ => None,
    }
}

/// How many effects a clause declares, nested ones included.
pub open spec fn effects_in(c: Clause) -> nat
    decreases c, 1nat, 0nat,
{
    match c {
        Clause::Effect { .. } => 1,
        Clause::ForEach { list, body } => effects_in_body(c, body@.len()),
    }
}

/// How many effects the first `n` clauses of a for-each body declare.
pub open spec fn effects_in_body(c: Clause, n: nat) -> nat
    decreases c, 0nat, n,
{
    match c {
        Clause::ForEach { list, body } => if n == 0 || n > body@.len() {
            0
        } else {
            effects_in_body(c, (n - 1) as nat) + effects_in(body@[n - 1])
        },
        _ => 0,
    }
}

/// The first bound a clause is past, in a list `depth` levels down and after
/// `declared` effects.
pub open spec fn clause_fault(
    c: Clause,
    depth: int,
    declared: int,
    lim: MetadataLimits,
) -> Option<SignatureFault>
    decreases c, 1nat, 0nat,
{
    match c {
        Clause::Effect { target, mode } => if declared + 1 > lim.max_effects {
            Some(SignatureFault::Effects)
        } else {
            first(target_fault(target, lim), mode_fault(mode, lim))
        },
        Clause::ForEach { list, body } => first(
            expr_fault(list, 0, lim),
            if depth + 1 > lim.max_clause_depth {
                Some(SignatureFault::ClauseDepth)
            } else {
                body_fault(c, body@.len(), depth + 1, declared, lim)
            },
        ),
    }
}

/// The first bound that the first `n` clauses of a for-each body are past.
pub open spec fn body_fault(
    c: Clause,
    n: nat,
    depth: int,
    declared: int,
    lim: MetadataLimits,
) -> Option<SignatureFault>
    decreases c, 0nat, n,
{
    match c {
        Clause::ForEach { list, body } => if n == 0 || n > body@.len() {
            None
        } else {
            first(
                body_fault(c, (n - 1) as nat, depth, declared, lim),
                clause_fault(
                    body@[n - 1],
                    depth,
                    declared + effects_in_body(c, (n - 1) as nat),
                    lim,
                ),
            )
        },
        _ => None,
    }
}

/// How many effects a sequence of clauses declares.
pub open spec fn effects_in_all(cs: Seq<Clause>) -> nat
    decreases cs.len(),
{
    if cs.len() == 0 {
        0
    } else {
        effects_in_all(cs.drop_last()) + effects_in(cs.last())
    }
}

/// The first bound that a signature's own clauses are past.
pub open spec fn clauses_fault(cs: Seq<Clause>, lim: MetadataLimits) -> Option<SignatureFault>
    decreases cs.len(),
{
    if cs.len() == 0 {
        None
    } else {
        first(
            clauses_fault(cs.drop_last(), lim),
            clause_fault(cs.last(), 0, effects_in_all(cs.drop_last()) as int, lim),
        )
    }
}

/// The first bound that a sequence of call sites is past.
pub open spec fn calls_fault(cs: Seq<CallSite>, lim: MetadataLimits) -> Option<SignatureFault>
    decreases cs.len(),
{
    if cs.len() == 0 {
        None
    } else {
        first(
            calls_fault(cs.drop_last(), lim),
            first(expr_fault(cs.last().target, 0, lim), exprs_fault(cs.last().args@, lim)),
        )
    }
}

/// The bound that a compiled parameter is past: the one that the expression
/// which fills it is past, if one does.
pub open spec fn abi_param_fault(p: AbiParam, lim: MetadataLimits) -> Option<SignatureFault> {
    match p {
        AbiParam::Derived(e) => expr_fault(e, 0, lim),
        _ => None,
    }
}

/// The first bound that a sequence of compiled parameters is past.
pub open spec fn abi_fault(ps: Seq<AbiParam>, lim: MetadataLimits) -> Option<SignatureFault>
    decreases ps.len(),
{
    if ps.len() == 0 {
        None
    } else {
        first(abi_fault(ps.drop_last(), lim), abi_param_fault(ps.last(), lim))
    }
}

/// The first bound a signature is past: compiled parameters, then outputs, then
/// calls, then effects.
pub open spec fn signature_fault(s: MethodSignature, lim: MetadataLimits) -> Option<SignatureFault> {
    first(
        abi_fault(s.abi@, lim),
        first(
            first(exprs_fault(s.outputs@, lim), calls_fault(s.calls@, lim)),
            clauses_fault(s.effects@, lim),
        ),
    )
}

/// Finds the first bound an expression is past.
pub(crate) fn check_expr(expr: &Expr, depth: usize, lim: &MetadataLimits) -> (r: Option<
    SignatureFault,
>)
    requires
        lim.wf(),
        depth <= lim.max_expr_depth + 1,
    ensures
        r == expr_fault(*expr, depth as int, *lim),
    decreases expr,
{
    if depth > lim.max_expr_depth {
        return Some(SignatureFault::ExprDepth);
    }
    let deeper: usize = depth + 1;
    match expr {
        Expr::Literal(literal) => {
            if literal.deeper_than(lim.max_value_depth) {
                Some(SignatureFault::LiteralDepth)
            } else {
                None
            }
        },
        Expr::Field(inner, _) => check_expr(inner, deeper, lim),
        Expr::ResourceOf(inner) => check_expr(inner, deeper, lim),
        Expr::Lookup { map, key } => {
            match check_expr(map, deeper, lim) {
                Some(f) => Some(f),
                None => check_expr(key, deeper, lim),
            }
        },
        Expr::Pack { hi, lo } => {
            match check_expr(hi, deeper, lim) {
                Some(f) => Some(f),
                None => check_expr(lo, deeper, lim),
            }
        },
        Expr::ChildKey { owner, role: _, material } => {
            if let Some(f) = check_expr(owner, deeper, lim) {
                return Some(f);
            }
            let mut i: usize = 0;
            while i < material.len()
                invariant
                    i <= material.len(),
                    lim.wf(),
                    depth <= lim.max_expr_depth,
                    deeper == depth + 1,
                    expr is ChildKey,
                    expr->ChildKey_material == *material,
                    expr_fault(*expr->ChildKey_owner, depth + 1, *lim) is None,
                    material_fault(*expr, i as nat, depth + 1, *lim) is None,
                decreases material.len() - i,
            {
                assert(decreases_to!(*expr => expr->ChildKey_material));
                assert(decreases_to!(*material => material[i as int]));
                if let Some(f) = check_expr(&material[i], deeper, lim) {
                    proof {
                        lemma_material_fault(*expr, (i + 1) as nat, material@.len(), depth + 1, *lim);
                    }
                    return Some(f);
                }
                i = i + 1;
            }
            None
        },
        _ => None,
    }
}

/// A fault among the first parts stays the first fault.
proof fn lemma_material_fault(e: Expr, n: nat, m: nat, depth: int, lim: MetadataLimits)
    requires
        e is ChildKey,
        n <= m <= e->ChildKey_material@.len(),
        material_fault(e, n, depth, lim) is Some,
    ensures
        material_fault(e, m, depth, lim) == material_fault(e, n, depth, lim),
    decreases m,
{
    if n < m {
        lemma_material_fault(e, n, (m - 1) as nat, depth, lim);
    }
}

/// Finds the first bound that a vector of expressions is past.
fn check_exprs(es: &Vec<Expr>, lim: &MetadataLimits) -> (r: Option<SignatureFault>)
    requires
        lim.wf(),
    ensures
        r == exprs_fault(es@, *lim),
{
    let mut i: usize = 0;
    while i < es.len()
        invariant
            i <= es.len(),
            lim.wf(),
            exprs_fault(es@.take(i as int), *lim) is None,
        decreases es.len() - i,
    {
        let fault = check_expr(&es[i], 0, lim);
        assert(es@.take(i + 1).drop_last() =~= es@.take(i as int));
        if let Some(f) = fault {
            proof {
                lemma_exprs_fault(es@, i + 1, *lim);
            }
            return Some(f);
        }
        i = i + 1;
    }
    assert(es@.take(i as int) =~= es@);
    None
}

/// A fault in a prefix stays the first fault.
proof fn lemma_exprs_fault(es: Seq<Expr>, n: int, lim: MetadataLimits)
    requires
        0 <= n <= es.len(),
        exprs_fault(es.take(n), lim) is Some,
    ensures
        exprs_fault(es, lim) == exprs_fault(es.take(n), lim),
    decreases es.len(),
{
    if n < es.len() {
        assert(es.drop_last().take(n) =~= es.take(n));
        lemma_exprs_fault(es.drop_last(), n, lim);
    } else {
        assert(es.take(n) =~= es);
    }
}

/// Finds the first bound a target is past.
fn check_target(target: &TargetExpr, lim: &MetadataLimits) -> (r: Option<SignatureFault>)
    requires
        lim.wf(),
    ensures
        r == target_fault(*target, *lim),
{
    match target {
        TargetExpr::Point(key) => check_expr(key, 0, lim),
        TargetExpr::Entry { owner, collection: _, order } => {
            match check_expr(owner, 0, lim) {
                Some(f) => Some(f),
                None => check_expr(order, 0, lim),
            }
        },
        TargetExpr::Range { owner, collection: _, lo, hi, cap: _ } => {
            if let Some(f) = check_expr(owner, 0, lim) {
                return Some(f);
            }
            match check_expr(lo, 0, lim) {
                Some(f) => Some(f),
                None => check_expr(hi, 0, lim),
            }
        },
    }
}

/// Finds the first bound a mode is past.
fn check_mode(mode: &ModeExpr, lim: &MetadataLimits) -> (r: Option<SignatureFault>)
    requires
        lim.wf(),
    ensures
        r == mode_fault(*mode, *lim),
{
    match mode {
        ModeExpr::Reserve(amount) => check_expr(amount, 0, lim),
        _ => None,
    }
}

/// Finds the first bound a clause is past, and counts its effects.
fn check_clause(clause: &Clause, depth: usize, declared: &mut usize, lim: &MetadataLimits) -> (r:
    Option<SignatureFault>)
    requires
        lim.wf(),
        depth <= lim.max_clause_depth,
        *old(declared) <= lim.max_effects,
    ensures
        r == clause_fault(*clause, depth as int, *old(declared) as int, *lim),
        r is None ==> *final(declared) == *old(declared) + effects_in(*clause) && *final(declared)
            <= lim.max_effects,
    decreases clause,
{
    match clause {
        Clause::Effect { target, mode } => {
            if *declared >= lim.max_effects {
                return Some(SignatureFault::Effects);
            }
            *declared = *declared + 1;
            match check_target(target, lim) {
                Some(f) => Some(f),
                None => check_mode(mode, lim),
            }
        },
        Clause::ForEach { list, body } => {
            if let Some(f) = check_expr(list, 0, lim) {
                return Some(f);
            }
            if depth >= lim.max_clause_depth {
                return Some(SignatureFault::ClauseDepth);
            }
            let ghost d0 = *declared;
            let mut i: usize = 0;
            while i < body.len()
                invariant
                    i <= body.len(),
                    lim.wf(),
                    depth < lim.max_clause_depth,
                    clause is ForEach,
                    clause->body == *body,
                    d0 == *old(declared),
                    expr_fault(clause->list, 0, *lim) is None,
                    body_fault(*clause, i as nat, depth + 1, d0 as int, *lim) is None,
                    *declared == d0 + effects_in_body(*clause, i as nat),
                    *declared <= lim.max_effects,
                decreases body.len() - i,
            {
                assert(decreases_to!(*clause => clause->body));
                assert(decreases_to!(*body => body[i as int]));
                if let Some(f) = check_clause(&body[i], depth + 1, declared, lim) {
                    proof {
                        lemma_body_fault(
                            *clause,
                            (i + 1) as nat,
                            body@.len(),
                            depth + 1,
                            d0 as int,
                            *lim,
                        );
                    }
                    return Some(f);
                }
                i = i + 1;
            }
            None
        },
    }
}

/// A fault among the first clauses of a body stays the first fault.
proof fn lemma_body_fault(
    c: Clause,
    n: nat,
    m: nat,
    depth: int,
    declared: int,
    lim: MetadataLimits,
)
    requires
        c is ForEach,
        n <= m <= c->body@.len(),
        body_fault(c, n, depth, declared, lim) is Some,
    ensures
        body_fault(c, m, depth, declared, lim) == body_fault(c, n, depth, declared, lim),
    decreases m,
{
    if n < m {
        lemma_body_fault(c, n, (m - 1) as nat, depth, declared, lim);
    }
}

/// Finds the first bound that a vector of clauses is past.
fn check_clauses(cs: &Vec<Clause>, lim: &MetadataLimits) -> (r: Option<SignatureFault>)
    requires
        lim.wf(),
    ensures
        r == clauses_fault(cs@, *lim),
{
    let mut declared: usize = 0;
    let mut i: usize = 0;
    assert(cs@.take(0) =~= Seq::<Clause>::empty());
    while i < cs.len()
        invariant
            i <= cs.len(),
            lim.wf(),
            clauses_fault(cs@.take(i as int), *lim) is None,
            declared == effects_in_all(cs@.take(i as int)),
            declared <= lim.max_effects,
        decreases cs.len() - i,
    {
        assert(cs@.take(i + 1).drop_last() =~= cs@.take(i as int));
        if let Some(f) = check_clause(&cs[i], 0, &mut declared, lim) {
            proof {
                lemma_clauses_fault(cs@, i + 1, *lim);
            }
            return Some(f);
        }
        i = i + 1;
    }
    assert(cs@.take(i as int) =~= cs@);
    None
}

proof fn lemma_clauses_fault(cs: Seq<Clause>, n: int, lim: MetadataLimits)
    requires
        0 <= n <= cs.len(),
        clauses_fault(cs.take(n), lim) is Some,
    ensures
        clauses_fault(cs, lim) == clauses_fault(cs.take(n), lim),
    decreases cs.len(),
{
    if n < cs.len() {
        assert(cs.drop_last().take(n) =~= cs.take(n));
        lemma_clauses_fault(cs.drop_last(), n, lim);
    } else {
        assert(cs.take(n) =~= cs);
    }
}

/// Finds the first bound that a vector of call sites is past.
fn check_calls(cs: &Vec<CallSite>, lim: &MetadataLimits) -> (r: Option<SignatureFault>)
    requires
        lim.wf(),
    ensures
        r == calls_fault(cs@, *lim),
{
    let mut i: usize = 0;
    while i < cs.len()
        invariant
            i <= cs.len(),
            lim.wf(),
            calls_fault(cs@.take(i as int), *lim) is None,
        decreases cs.len() - i,
    {
        assert(cs@.take(i + 1).drop_last() =~= cs@.take(i as int));
        let fault = match check_expr(&cs[i].target, 0, lim) {
            Some(f) => Some(f),
            None => check_exprs(&cs[i].args, lim),
        };
        if let Some(f) = fault {
            proof {
                lemma_calls_fault(cs@, i + 1, *lim);
            }
            return Some(f);
        }
        i = i + 1;
    }
    assert(cs@.take(i as int) =~= cs@);
    None
}

proof fn lemma_calls_fault(cs: Seq<CallSite>, n: int, lim: MetadataLimits)
    requires
        0 <= n <= cs.len(),
        calls_fault(cs.take(n), lim) is Some,
    ensures
        calls_fault(cs, lim) == calls_fault(cs.take(n), lim),
    decreases cs.len(),
{
    if n < cs.len() {
        assert(cs.drop_last().take(n) =~= cs.take(n));
        lemma_calls_fault(cs.drop_last(), n, lim);
    } else {
        assert(cs.take(n) =~= cs);
    }
}

/// Finds the first bound that a vector of compiled parameters is past.
fn check_abi(ps: &Vec<AbiParam>, lim: &MetadataLimits) -> (r: Option<SignatureFault>)
    requires
        lim.wf(),
    ensures
        r == abi_fault(ps@, *lim),
{
    let mut i: usize = 0;
    while i < ps.len()
        invariant
            i <= ps.len(),
            lim.wf(),
            abi_fault(ps@.take(i as int), *lim) is None,
        decreases ps.len() - i,
    {
        assert(ps@.take(i + 1).drop_last() =~= ps@.take(i as int));
        let fault = match &ps[i] {
            AbiParam::Derived(e) => check_expr(e, 0, lim),
            _ => None,
        };
        if let Some(f) = fault {
            proof {
                lemma_abi_fault(ps@, i + 1, *lim);
            }
            return Some(f);
        }
        i = i + 1;
    }
    assert(ps@.take(i as int) =~= ps@);
    None
}

proof fn lemma_abi_fault(ps: Seq<AbiParam>, n: int, lim: MetadataLimits)
    requires
        0 <= n <= ps.len(),
        abi_fault(ps.take(n), lim) is Some,
    ensures
        abi_fault(ps, lim) == abi_fault(ps.take(n), lim),
    decreases ps.len(),
{
    if n < ps.len() {
        assert(ps.drop_last().take(n) =~= ps.take(n));
        lemma_abi_fault(ps.drop_last(), n, lim);
    } else {
        assert(ps.take(n) =~= ps);
    }
}

/// Finds the first bound a signature is past.
pub(crate) fn check_signature(s: &MethodSignature, lim: &MetadataLimits) -> (r: Option<
    SignatureFault,
>)
    requires
        lim.wf(),
    ensures
        r == signature_fault(*s, *lim),
{
    if let Some(f) = check_abi(&s.abi, lim) {
        return Some(f);
    }
    if let Some(f) = check_exprs(&s.outputs, lim) {
        return Some(f);
    }
    if let Some(f) = check_calls(&s.calls, lim) {
        return Some(f);
    }
    check_clauses(&s.effects, lim)
}

/// An expression on its own is within its bounds.
pub open spec fn expr_fits(e: Expr, lim: MetadataLimits) -> bool {
    e.bounded(0, lim.max_expr_depth as int, lim.max_value_depth as int)
}

/// Every expression of a target is within its bounds.
pub open spec fn target_fits(t: TargetExpr, lim: MetadataLimits) -> bool {
    match t {
        TargetExpr::Point(key) => expr_fits(key, lim),
        TargetExpr::Entry { owner, collection: _, order } => expr_fits(owner, lim) && expr_fits(
            order,
            lim,
        ),
        TargetExpr::Range { owner, collection: _, lo, hi, cap: _ } => expr_fits(owner, lim)
            && expr_fits(lo, lim) && expr_fits(hi, lim),
    }
}

/// A clause that stands `depth` lists down nests within its bound, and every
/// expression in it is within its own.
pub open spec fn clause_fits(c: Clause, depth: int, lim: MetadataLimits) -> bool
    decreases c,
{
    match c {
        Clause::Effect { target, mode } => target_fits(target, lim) && (mode is Reserve
            ==> expr_fits(mode->Reserve_0, lim)),
        Clause::ForEach { list, body } => expr_fits(list, lim) && depth < lim.max_clause_depth
            && forall|i: int|
            0 <= i < body@.len() ==> clause_fits(#[trigger] body@[i], depth + 1, lim),
    }
}

/// The sum of a list of numbers.
pub open spec fn total(s: Seq<nat>) -> nat
    decreases s.len(),
{
    if s.len() == 0 {
        0
    } else {
        s[0] + total(s.skip(1))
    }
}

proof fn lemma_total_push(s: Seq<nat>, x: nat)
    ensures
        total(s.push(x)) == total(s) + x,
    decreases s.len(),
{
    if s.len() == 0 {
        assert(s.push(x).skip(1) =~= s);
    } else {
        lemma_total_push(s.skip(1), x);
        assert(s.push(x).skip(1) =~= s.skip(1).push(x));
    }
}

proof fn lemma_body_total(c: Clause, n: nat)
    requires
        c is ForEach,
        n <= c->body@.len(),
    ensures
        effects_in_body(c, n) == total(c->body@.take(n as int).map_values(|x: Clause| effects_in(x))),
    decreases n,
{
    let counts = c->body@.take(n as int).map_values(|x: Clause| effects_in(x));
    if n > 0 {
        lemma_body_total(c, (n - 1) as nat);
        let before = c->body@.take(n - 1).map_values(|x: Clause| effects_in(x));
        lemma_total_push(before, effects_in(c->body@[n - 1]));
        assert(counts =~= before.push(effects_in(c->body@[n - 1])));
    }
}

/// An effect counts once, and a repeated list counts all that its clauses do.
pub proof fn law_nested_effects_count(c: Clause, cs: Seq<Clause>)
    ensures
        c is Effect ==> effects_in(c) == 1,
        c is ForEach ==> effects_in(c) == total(c->body@.map_values(|x: Clause| effects_in(x))),
        effects_in_all(cs) == total(cs.map_values(|x: Clause| effects_in(x))),
    decreases cs.len(),
{
    if c is ForEach {
        lemma_body_total(c, c->body@.len());
        assert(c->body@.take(c->body@.len() as int) =~= c->body@);
    }
    if cs.len() > 0 {
        law_nested_effects_count(c, cs.drop_last());
        let before = cs.drop_last().map_values(|x: Clause| effects_in(x));
        lemma_total_push(before, effects_in(cs.last()));
        assert(cs.map_values(|x: Clause| effects_in(x)) =~= before.push(effects_in(cs.last())));
    }
}

/// An expression is past no bound exactly where no part of it stands too deep and
/// no literal in it nests too deep.
pub proof fn law_a_bounded_expression_has_no_fault(e: Expr, depth: int, lim: MetadataLimits)
    ensures
        expr_fault(e, depth, lim) is None <==> e.bounded(
            depth,
            lim.max_expr_depth as int,
            lim.max_value_depth as int,
        ),
    decreases e, 1nat, 0nat,
{
    if depth <= lim.max_expr_depth {
        match e {
            Expr::Field(x, _) => law_a_bounded_expression_has_no_fault(*x, depth + 1, lim),
            Expr::ResourceOf(x) => law_a_bounded_expression_has_no_fault(*x, depth + 1, lim),
            Expr::Lookup { map, key } => {
                law_a_bounded_expression_has_no_fault(*map, depth + 1, lim);
                law_a_bounded_expression_has_no_fault(*key, depth + 1, lim);
            },
            Expr::Pack { hi, lo } => {
                law_a_bounded_expression_has_no_fault(*hi, depth + 1, lim);
                law_a_bounded_expression_has_no_fault(*lo, depth + 1, lim);
            },
            Expr::ChildKey { owner, role, material } => {
                law_a_bounded_expression_has_no_fault(*owner, depth + 1, lim);
                lemma_material_fits(e, material@.len(), depth + 1, lim);
            },
            _ => {},
        }
    }
}

proof fn lemma_material_fits(e: Expr, n: nat, depth: int, lim: MetadataLimits)
    requires
        e is ChildKey,
        n <= e->material@.len(),
    ensures
        material_fault(e, n, depth, lim) is None <==> forall|i: int|
            0 <= i < n ==> (#[trigger] e->material@[i]).bounded(
                depth,
                lim.max_expr_depth as int,
                lim.max_value_depth as int,
            ),
    decreases e, 0nat, n,
{
    if n > 0 {
        lemma_material_fits(e, (n - 1) as nat, depth, lim);
        match e {
            Expr::ChildKey { owner, role, material } => {
                law_a_bounded_expression_has_no_fault(material@[n - 1], depth, lim);
            },
            _ => {},
        }
    }
}

proof fn lemma_exprs_fit(es: Seq<Expr>, lim: MetadataLimits)
    ensures
        exprs_fault(es, lim) is None <==> forall|i: int|
            0 <= i < es.len() ==> expr_fits(#[trigger] es[i], lim),
    decreases es.len(),
{
    if es.len() > 0 {
        let t = es.drop_last();
        lemma_exprs_fit(t, lim);
        law_a_bounded_expression_has_no_fault(es.last(), 0, lim);
        if exprs_fault(es, lim) is None {
            assert forall|i: int| 0 <= i < es.len() implies expr_fits(#[trigger] es[i], lim) by {
                if i < t.len() {
                    assert(t[i] == es[i]);
                }
            }
        }
        if forall|i: int| 0 <= i < es.len() ==> expr_fits(#[trigger] es[i], lim) {
            assert forall|i: int| 0 <= i < t.len() implies expr_fits(#[trigger] t[i], lim) by {
                assert(t[i] == es[i]);
            }
            assert(expr_fits(es[es.len() - 1], lim));
        }
    }
}

proof fn lemma_target_fits(t: TargetExpr, lim: MetadataLimits)
    ensures
        target_fault(t, lim) is None <==> target_fits(t, lim),
{
    match t {
        TargetExpr::Point(key) => law_a_bounded_expression_has_no_fault(key, 0, lim),
        TargetExpr::Entry { owner, collection, order } => {
            law_a_bounded_expression_has_no_fault(owner, 0, lim);
            law_a_bounded_expression_has_no_fault(order, 0, lim);
        },
        TargetExpr::Range { owner, collection, lo, hi, cap } => {
            law_a_bounded_expression_has_no_fault(owner, 0, lim);
            law_a_bounded_expression_has_no_fault(lo, 0, lim);
            law_a_bounded_expression_has_no_fault(hi, 0, lim);
        },
    }
}

proof fn lemma_clause_fits(c: Clause, depth: int, declared: int, lim: MetadataLimits)
    requires
        declared <= lim.max_effects,
    ensures
        clause_fault(c, depth, declared, lim) is None <==> clause_fits(c, depth, lim) && declared
            + effects_in(c) <= lim.max_effects,
    decreases c, 1nat, 0nat,
{
    match c {
        Clause::Effect { target, mode } => {
            lemma_target_fits(target, lim);
            match mode {
                ModeExpr::Reserve(amount) => law_a_bounded_expression_has_no_fault(amount, 0, lim),
                _ => {},
            }
        },
        Clause::ForEach { list, body } => {
            law_a_bounded_expression_has_no_fault(list, 0, lim);
            lemma_body_fits(c, body@.len(), depth + 1, declared, lim);
        },
    }
}

proof fn lemma_body_fits(c: Clause, n: nat, depth: int, declared: int, lim: MetadataLimits)
    requires
        c is ForEach,
        n <= c->body@.len(),
        declared <= lim.max_effects,
    ensures
        body_fault(c, n, depth, declared, lim) is None <==> (forall|i: int|
            0 <= i < n ==> clause_fits(#[trigger] c->body@[i], depth, lim)) && declared
            + effects_in_body(c, n) <= lim.max_effects,
    decreases c, 0nat, n,
{
    if n > 0 {
        lemma_body_fits(c, (n - 1) as nat, depth, declared, lim);
        match c {
            Clause::ForEach { list, body } => {
                if declared + effects_in_body(c, (n - 1) as nat) <= lim.max_effects {
                    lemma_clause_fits(
                        body@[n - 1],
                        depth,
                        declared + effects_in_body(c, (n - 1) as nat),
                        lim,
                    );
                }
            },
            _ => {},
        }
    }
}

proof fn lemma_clauses_fit(cs: Seq<Clause>, lim: MetadataLimits)
    ensures
        clauses_fault(cs, lim) is None <==> (forall|i: int|
            0 <= i < cs.len() ==> clause_fits(#[trigger] cs[i], 0, lim)) && effects_in_all(cs)
            <= lim.max_effects,
    decreases cs.len(),
{
    if cs.len() > 0 {
        let t = cs.drop_last();
        lemma_clauses_fit(t, lim);
        if effects_in_all(t) <= lim.max_effects {
            lemma_clause_fits(cs.last(), 0, effects_in_all(t) as int, lim);
        }
        if clauses_fault(cs, lim) is None {
            assert forall|i: int| 0 <= i < cs.len() implies clause_fits(
                #[trigger] cs[i],
                0,
                lim,
            ) by {
                if i < t.len() {
                    assert(t[i] == cs[i]);
                }
            }
        }
        if forall|i: int| 0 <= i < cs.len() ==> clause_fits(#[trigger] cs[i], 0, lim) {
            assert forall|i: int| 0 <= i < t.len() implies clause_fits(#[trigger] t[i], 0, lim) by {
                assert(t[i] == cs[i]);
            }
            assert(clause_fits(cs[cs.len() - 1], 0, lim));
        }
    }
}

proof fn lemma_calls_fit(cs: Seq<CallSite>, lim: MetadataLimits)
    ensures
        calls_fault(cs, lim) is None <==> forall|i: int|
            0 <= i < cs.len() ==> call_fits(#[trigger] cs[i], lim),
    decreases cs.len(),
{
    if cs.len() > 0 {
        let t = cs.drop_last();
        lemma_calls_fit(t, lim);
        law_a_bounded_expression_has_no_fault(cs.last().target, 0, lim);
        lemma_exprs_fit(cs.last().args@, lim);
        if calls_fault(cs, lim) is None {
            assert forall|i: int| 0 <= i < cs.len() implies call_fits(#[trigger] cs[i], lim) by {
                if i < t.len() {
                    assert(t[i] == cs[i]);
                }
            }
        }
        if forall|i: int| 0 <= i < cs.len() ==> call_fits(#[trigger] cs[i], lim) {
            assert forall|i: int| 0 <= i < t.len() implies call_fits(#[trigger] t[i], lim) by {
                assert(t[i] == cs[i]);
            }
            assert(call_fits(cs[cs.len() - 1], lim));
        }
    }
}

proof fn lemma_abi_fits(ps: Seq<AbiParam>, lim: MetadataLimits)
    ensures
        abi_fault(ps, lim) is None <==> forall|i: int|
            0 <= i < ps.len() ==> param_fits(#[trigger] ps[i], lim),
    decreases ps.len(),
{
    if ps.len() > 0 {
        let t = ps.drop_last();
        lemma_abi_fits(t, lim);
        match ps.last() {
            AbiParam::Derived(e) => law_a_bounded_expression_has_no_fault(e, 0, lim),
            _ => {},
        }
        if abi_fault(ps, lim) is None {
            assert forall|i: int| 0 <= i < ps.len() implies param_fits(#[trigger] ps[i], lim) by {
                if i < t.len() {
                    assert(t[i] == ps[i]);
                }
            }
        }
        if forall|i: int| 0 <= i < ps.len() ==> param_fits(#[trigger] ps[i], lim) {
            assert forall|i: int| 0 <= i < t.len() implies param_fits(#[trigger] t[i], lim) by {
                assert(t[i] == ps[i]);
            }
            assert(param_fits(ps[ps.len() - 1], lim));
        }
    }
}

/// Every expression of a call site is within its bounds.
pub open spec fn call_fits(c: CallSite, lim: MetadataLimits) -> bool {
    expr_fits(c.target, lim) && forall|i: int|
        0 <= i < c.args@.len() ==> expr_fits(#[trigger] c.args@[i], lim)
}

/// The expression that fills a compiled parameter, where one does, is within its
/// bounds.
pub open spec fn param_fits(p: AbiParam, lim: MetadataLimits) -> bool {
    p is Derived ==> expr_fits(p->Derived_0, lim)
}

/// A signature is past no bound exactly where each of its compiled parameters,
/// outputs, calls and clauses is within its own, and all its effects together,
/// nested ones counted, are no more than may be declared.
pub proof fn law_a_signature_is_held_to_every_bound(s: MethodSignature, lim: MetadataLimits)
    ensures
        signature_fault(s, lim) is None <==> {
            &&& forall|i: int| 0 <= i < s.abi@.len() ==> param_fits(#[trigger] s.abi@[i], lim)
            &&& forall|i: int| 0 <= i < s.outputs@.len() ==> expr_fits(#[trigger] s.outputs@[i], lim)
            &&& forall|i: int| 0 <= i < s.calls@.len() ==> call_fits(#[trigger] s.calls@[i], lim)
            &&& forall|i: int|
                0 <= i < s.effects@.len() ==> clause_fits(#[trigger] s.effects@[i], 0, lim)
            &&& total(s.effects@.map_values(|c: Clause| effects_in(c))) <= lim.max_effects
        },
{
    lemma_abi_fits(s.abi@, lim);
    lemma_exprs_fit(s.outputs@, lim);
    lemma_calls_fit(s.calls@, lim);
    lemma_clauses_fit(s.effects@, lim);
    if s.effects@.len() > 0 {
        law_nested_effects_count(s.effects@[0], s.effects@);
    } else {
        assert(s.effects@.map_values(|c: Clause| effects_in(c)) =~= Seq::empty());
    }
}

} // verus!
