//! Method signatures: what a call may touch, and the wire form of that.
use vstd::prelude::*;

use crate::bridge::expr::{
    expr_of, lemma_expr_plain, wire_expr, Expr, RoleId,
};
use crate::bridge::sbor_value::{
    branch_of, branch_value, plain, sbor_tree, sbor_trees,
    Branch, SborValue, Tree, KIND_RECORD, KIND_VARIANT,
};
use crate::bridge::value::{variant1, variant2};
use crate::bridge::wire::{
    lemma_list_plain, list_from_wire, list_to_wire, list_tree, record, record_of, take1, take2,
    take3, u16_of, u16_value, u32_of, u32_value, variant0, variant3, variant_of, Wire,
};
use crate::list::reversed;

verus! {

/// The kind of one method parameter.
#[derive(Clone, Copy, Debug, PartialEq, Eq, Structural)]
pub enum ParamType {
    /// A 64-bit number.
    U64,
    /// A 128-bit number.
    U128,
    /// A byte string.
    Bytes,
    /// An address.
    Address,
    /// A bucket.
    Bucket,
}

/// Who may call a method.
#[derive(Clone, Copy, Debug, PartialEq, Eq, Structural)]
pub enum Accessibility {
    /// Anyone.
    Public,
    /// Only a caller with the target's authority.
    RequiresTargetAuth,
}

/// How an effect holds its target.
#[derive(Debug, PartialEq, Eq)]
pub enum ModeExpr {
    /// A fresh read.
    Read,
    /// A locked read.
    Locked,
    /// A commutative change.
    Delta,
    /// A reservation of an amount.
    Reserve(Expr),
    /// An exclusive write.
    Write,
}

/// What an effect touches.
#[derive(Debug, PartialEq, Eq)]
pub enum TargetExpr {
    /// One cell.
    Point(Expr),
    /// One entry of an ordered collection.
    Entry {
        /// The collection's owner.
        owner: Expr,
        /// The collection.
        collection: RoleId,
        /// The entry's order.
        order: Expr,
    },
    /// A range of an ordered collection.
    Range {
        /// The collection's owner.
        owner: Expr,
        /// The collection.
        collection: RoleId,
        /// The lowest order.
        lo: Expr,
        /// The highest order.
        hi: Expr,
        /// The most entries read.
        cap: u32,
    },
}

/// One clause of a signature.
#[derive(Debug, PartialEq, Eq)]
pub enum Clause {
    /// A declared effect.
    Effect {
        /// What it touches.
        target: TargetExpr,
        /// How it holds it.
        mode: ModeExpr,
    },
    /// Clauses repeated for each member of a list.
    ForEach {
        /// The list.
        list: Expr,
        /// The repeated clauses.
        body: Vec<Clause>,
    },
}

/// A static call to another instance.
#[derive(Debug, PartialEq, Eq)]
pub struct CallSite {
    /// The called instance.
    pub target: Expr,
    /// The called method.
    pub method: String,
    /// Its arguments.
    pub args: Vec<Expr>,
}

/// How one parameter of the compiled function is filled.
#[derive(Debug, PartialEq, Eq)]
pub enum AbiParam {
    /// The handle of a clause.
    Handle(u32),
    /// A bucket parameter.
    Bucket(u32),
    /// A derived value.
    Derived(Expr),
}

/// What a method declares.
#[derive(Debug, PartialEq, Eq)]
pub struct MethodSignature {
    /// Who may call it.
    pub accessibility: Accessibility,
    /// Its parameters.
    pub params: Vec<ParamType>,
    /// How its compiled parameters are filled.
    pub abi: Vec<AbiParam>,
    /// The resource of each output.
    pub outputs: Vec<Expr>,
    /// Its effects.
    pub effects: Vec<Clause>,
    /// The calls it makes.
    pub calls: Vec<CallSite>,
}

/// A method under its name.
#[derive(Debug, PartialEq, Eq)]
pub struct MethodEntry {
    /// The method's name.
    pub name: String,
    /// What it declares.
    pub signature: MethodSignature,
}

impl Default for MethodSignature {
    fn default() -> (s: Self)
        ensures
            s.accessibility == Accessibility::Public,
            s.params@.len() == 0,
            s.abi@.len() == 0,
            s.outputs@.len() == 0,
            s.effects@.len() == 0,
            s.calls@.len() == 0,
    {
        MethodSignature {
            accessibility: Accessibility::Public,
            params: Vec::new(),
            abi: Vec::new(),
            outputs: Vec::new(),
            effects: Vec::new(),
            calls: Vec::new(),
        }
    }
}

impl Wire for ParamType {
    open spec fn tree(self) -> Tree {
        match self {
            ParamType::U64 => Tree::Variant(0u8, Seq::empty()),
            ParamType::U128 => Tree::Variant(1u8, Seq::empty()),
            ParamType::Bytes => Tree::Variant(2u8, Seq::empty()),
            ParamType::Address => Tree::Variant(3u8, Seq::empty()),
            ParamType::Bucket => Tree::Variant(4u8, Seq::empty()),
        }
    }

    open spec fn wire_kind() -> u8 {
        KIND_VARIANT
    }

    proof fn law_kind(x: Self) {
    }

    proof fn law_plain(x: Self) {
    }

    fn kind() -> (k: u8) {
        KIND_VARIANT
    }

    fn to_wire(&self) -> (v: SborValue) {
        match self {
            ParamType::U64 => variant0(0),
            ParamType::U128 => variant0(1),
            ParamType::Bytes => variant0(2),
            ParamType::Address => variant0(3),
            ParamType::Bucket => variant0(4),
        }
    }

    fn from_wire(v: SborValue) -> (r: Option<Self>) {
        proof {
            assert forall|x: Self| (#[trigger] x.tree()) is Variant && x.tree()->Variant_1.len() == 0 by {}
        }
        match variant_of(v) {
            None => None,
            Some((d, fields)) => {
                if fields.len() != 0 {
                    return None;
                }
                assert(sbor_trees(fields@) =~= Seq::<Tree>::empty());
                match d {
                    0 => Some(ParamType::U64),
                    1 => Some(ParamType::U128),
                    2 => Some(ParamType::Bytes),
                    3 => Some(ParamType::Address),
                    4 => Some(ParamType::Bucket),
                    _ => None,
                }
            },
        }
    }
}

impl Wire for Accessibility {
    open spec fn tree(self) -> Tree {
        match self {
            Accessibility::Public => Tree::Variant(0u8, Seq::empty()),
            Accessibility::RequiresTargetAuth => Tree::Variant(1u8, Seq::empty()),
        }
    }

    open spec fn wire_kind() -> u8 {
        KIND_VARIANT
    }

    proof fn law_kind(x: Self) {
    }

    proof fn law_plain(x: Self) {
    }

    fn kind() -> (k: u8) {
        KIND_VARIANT
    }

    fn to_wire(&self) -> (v: SborValue) {
        match self {
            Accessibility::Public => variant0(0),
            Accessibility::RequiresTargetAuth => variant0(1),
        }
    }

    fn from_wire(v: SborValue) -> (r: Option<Self>) {
        proof {
            assert forall|x: Self| (#[trigger] x.tree()) is Variant && x.tree()->Variant_1.len() == 0 by {}
        }
        match variant_of(v) {
            None => None,
            Some((d, fields)) => {
                if fields.len() != 0 {
                    return None;
                }
                assert(sbor_trees(fields@) =~= Seq::<Tree>::empty());
                match d {
                    0 => Some(Accessibility::Public),
                    1 => Some(Accessibility::RequiresTargetAuth),
                    _ => None,
                }
            },
        }
    }
}

impl Wire for ModeExpr {
    open spec fn tree(self) -> Tree {
        match self {
            ModeExpr::Read => Tree::Variant(0u8, Seq::empty()),
            ModeExpr::Locked => Tree::Variant(1u8, Seq::empty()),
            ModeExpr::Delta => Tree::Variant(2u8, Seq::empty()),
            ModeExpr::Reserve(amount) => Tree::Variant(3u8, seq![amount.form()]),
            ModeExpr::Write => Tree::Variant(4u8, Seq::empty()),
        }
    }

    open spec fn wire_kind() -> u8 {
        KIND_VARIANT
    }

    proof fn law_kind(x: Self) {
    }

    proof fn law_plain(x: Self) {
        if let ModeExpr::Reserve(amount) = x {
            lemma_expr_plain(amount);
            assert(x.tree()->Variant_1[0] == amount.form());
        }
    }

    fn kind() -> (k: u8) {
        KIND_VARIANT
    }

    fn to_wire(&self) -> (v: SborValue) {
        match self {
            ModeExpr::Read => variant0(0),
            ModeExpr::Locked => variant0(1),
            ModeExpr::Delta => variant0(2),
            ModeExpr::Reserve(amount) => variant1(3, wire_expr(amount)),
            ModeExpr::Write => variant0(4),
        }
    }

    fn from_wire(v: SborValue) -> (r: Option<Self>) {
        proof {
            assert forall|x: Self| (#[trigger] x.tree()) is Variant && x.tree()->Variant_1.len() == if x is Reserve {
                1nat
            } else {
                0nat
            } by {}
        }
        let ghost t = sbor_tree(v);
        match variant_of(v) {
            None => None,
            Some((d, fields)) => {
                let ghost ts = sbor_trees(fields@);
                if d == 3 {
                    match take1(fields) {
                        None => None,
                        Some(a) => {
                            assert(ts[0] == sbor_tree(a));
                            let r = match expr_of(a) {
                                Some(x) => Some(ModeExpr::Reserve(x)),
                                None => None,
                            };
                            proof {
                                if r is None {
                                    assert forall|x: Self| #[trigger] x.tree() != t by {
                                        if x.tree() == t {
                                            assert(ts[0] == x->Reserve_0.form());
                                        }
                                    }
                                }
                            }
                            r
                        },
                    }
                } else {
                    if fields.len() != 0 {
                        return None;
                    }
                    assert(ts =~= Seq::<Tree>::empty());
                    match d {
                        0 => Some(ModeExpr::Read),
                        1 => Some(ModeExpr::Locked),
                        2 => Some(ModeExpr::Delta),
                        4 => Some(ModeExpr::Write),
                        _ => None,
                    }
                }
            },
        }
    }
}

impl Wire for TargetExpr {
    open spec fn tree(self) -> Tree {
        match self {
            TargetExpr::Point(key) => Tree::Variant(0u8, seq![key.form()]),
            TargetExpr::Entry { owner, collection, order } => Tree::Variant(
                1u8,
                seq![owner.form(), Tree::U16(collection.0), order.form()],
            ),
            TargetExpr::Range { owner, collection, lo, hi, cap } => Tree::Variant(
                2u8,
                seq![
                    owner.form(),
                    Tree::U16(collection.0),
                    lo.form(),
                    hi.form(),
                    Tree::U32(cap),
                ],
            ),
        }
    }

    open spec fn wire_kind() -> u8 {
        KIND_VARIANT
    }

    proof fn law_kind(x: Self) {
    }

    proof fn law_plain(x: Self) {
        let parts = x.tree()->Variant_1;
        assert forall|i: int| 0 <= i < parts.len() implies plain(#[trigger] parts[i]) by {
            match x {
                TargetExpr::Point(key) => {
                    lemma_expr_plain(key);
                },
                TargetExpr::Entry { owner, collection, order } => {
                    lemma_expr_plain(owner);
                    lemma_expr_plain(order);
                },
                TargetExpr::Range { owner, collection, lo, hi, cap } => {
                    lemma_expr_plain(owner);
                    lemma_expr_plain(lo);
                    lemma_expr_plain(hi);
                },
            }
        }
    }

    fn kind() -> (k: u8) {
        KIND_VARIANT
    }

    fn to_wire(&self) -> (v: SborValue) {
        match self {
            TargetExpr::Point(key) => variant1(0, wire_expr(key)),
            TargetExpr::Entry { owner, collection, order } => variant3(
                1,
                wire_expr(owner),
                u16_value(collection.0),
                wire_expr(order),
            ),
            TargetExpr::Range { owner, collection, lo, hi, cap } => {
                let mut fields: Vec<SborValue> = Vec::new();
                fields.push(wire_expr(owner));
                fields.push(u16_value(collection.0));
                fields.push(wire_expr(lo));
                fields.push(wire_expr(hi));
                fields.push(u32_value(*cap));
                assert(sbor_trees(fields@) =~= seq![
                    owner.form(),
                    Tree::U16(collection.0),
                    lo.form(),
                    hi.form(),
                    Tree::U32(*cap),
                ]);
                branch_value(Branch::Variant(2, fields))
            },
        }
    }

    fn from_wire(v: SborValue) -> (r: Option<Self>) {
        proof {
            assert forall|x: Self| (#[trigger] x.tree()) is Variant && x.tree()->Variant_1.len() == match x {
                TargetExpr::Point(_) => 1nat,
                TargetExpr::Entry { .. } => 3nat,
                TargetExpr::Range { .. } => 5nat,
            } by {}
        }
        let ghost t = sbor_tree(v);
        match variant_of(v) {
            None => None,
            Some((d, fields)) => {
                let ghost ts = sbor_trees(fields@);
                if d == 0 {
                    match take1(fields) {
                        None => None,
                        Some(a) => {
                            let r = match expr_of(a) {
                                Some(x) => Some(TargetExpr::Point(x)),
                                None => None,
                            };
                            proof {
                                if r is None {
                                    assert forall|x: Self| #[trigger] x.tree() != t by {
                                        if x.tree() == t {
                                            assert(ts[0] == x->Point_0.form());
                                            assert(ts[0] == sbor_tree(a));
                                        }
                                    }
                                }
                            }
                            r
                        },
                    }
                } else if d == 1 {
                    match take3(fields) {
                        None => None,
                        Some((a, b, c)) => {
                            let r = match (expr_of(a), u16_of(b), expr_of(c)) {
                                (Some(x), Some(n), Some(y)) => Some(
                                    TargetExpr::Entry { owner: x, collection: RoleId(n), order: y },
                                ),
                                _ => None,
                            };
                            proof {
                                if r is None {
                                    assert forall|x: Self| #[trigger] x.tree() != t by {
                                        if x.tree() == t {
                                            assert(ts[0] == x->Entry_owner.form());
                                            assert(ts[1] == Tree::U16(x->Entry_collection.0));
                                            assert(ts[2] == x->order.form());
                                            assert(ts[0] == sbor_tree(a));
                                            assert(ts[1] == sbor_tree(b));
                                            assert(ts[2] == sbor_tree(c));
                                        }
                                    }
                                }
                            }
                            r
                        },
                    }
                } else if d == 2 {
                    let r = range_of(fields);
                    proof {
                        if r is None {
                            assert forall|x: Self| #[trigger] x.tree() != t by {
                                if x.tree() == t {
                                    assert(x is Range);
                                }
                            }
                        }
                    }
                    r
                } else {
                    None
                }
            },
        }
    }
}

/// Reads a range target back from its fields.
fn range_of(fields: Vec<SborValue>) -> (r: Option<TargetExpr>)
    ensures
        match r {
            Some(x) => x.tree() == Tree::Variant(2u8, sbor_trees(fields@)),
            None => forall|x: TargetExpr| #[trigger]
                x.tree() != Tree::Variant(2u8, sbor_trees(fields@)),
        },
{
    let ghost ts = sbor_trees(fields@);
    let ghost t = Tree::Variant(2u8, ts);
    proof {
        assert forall|x: TargetExpr| (#[trigger] x.tree()) is Variant && x.tree()->Variant_1.len()
            == match x {
            TargetExpr::Point(_) => 1nat,
            TargetExpr::Entry { .. } => 3nat,
            TargetExpr::Range { .. } => 5nat,
        } by {}
    }
    if fields.len() != 5 {
        return None;
    }
    let mut rest = fields;
    let last = rest.pop();
    let fourth = rest.pop();
    match (last, fourth, take3(rest)) {
        (Some(e), Some(d), Some((a, b, c))) => {
            assert(ts =~= seq![
                sbor_tree(a),
                sbor_tree(b),
                sbor_tree(c),
                sbor_tree(d),
                sbor_tree(e),
            ]) by {
                assert(sbor_trees(rest@) =~= ts.take(3));
                assert(sbor_trees(rest@)[0] == sbor_tree(a));
                assert(sbor_trees(rest@)[1] == sbor_tree(b));
                assert(sbor_trees(rest@)[2] == sbor_tree(c));
            }
            let r = match (expr_of(a), u16_of(b), expr_of(c), expr_of(d), u32_of(e)) {
                (Some(owner), Some(n), Some(lo), Some(hi), Some(cap)) => Some(
                    TargetExpr::Range { owner, collection: RoleId(n), lo, hi, cap },
                ),
                _ => None,
            };
            proof {
                if r is None {
                    assert forall|x: TargetExpr| #[trigger] x.tree() != t by {
                        if x.tree() == t {
                            assert(ts[0] == x->Range_owner.form());
                            assert(ts[1] == Tree::U16(x->Range_collection.0));
                            assert(ts[2] == x->lo.form());
                            assert(ts[3] == x->hi.form());
                            assert(ts[4] == Tree::U32(x->cap));
                        }
                    }
                }
            }
            r
        },
        _ => None,
    }
}

impl Wire for AbiParam {
    open spec fn tree(self) -> Tree {
        match self {
            AbiParam::Handle(i) => Tree::Variant(0u8, seq![Tree::U32(i)]),
            AbiParam::Bucket(i) => Tree::Variant(1u8, seq![Tree::U32(i)]),
            AbiParam::Derived(e) => Tree::Variant(2u8, seq![e.form()]),
        }
    }

    open spec fn wire_kind() -> u8 {
        KIND_VARIANT
    }

    proof fn law_kind(x: Self) {
    }

    proof fn law_plain(x: Self) {
        if let AbiParam::Derived(e) = x {
            lemma_expr_plain(e);
        }
        let parts = x.tree()->Variant_1;
        assert forall|i: int| 0 <= i < parts.len() implies plain(#[trigger] parts[i]) by {}
    }

    fn kind() -> (k: u8) {
        KIND_VARIANT
    }

    fn to_wire(&self) -> (v: SborValue) {
        match self {
            AbiParam::Handle(i) => variant1(0, u32_value(*i)),
            AbiParam::Bucket(i) => variant1(1, u32_value(*i)),
            AbiParam::Derived(e) => variant1(2, wire_expr(e)),
        }
    }

    fn from_wire(v: SborValue) -> (r: Option<Self>) {
        proof {
            assert forall|x: Self| (#[trigger] x.tree()) is Variant && x.tree()->Variant_1.len() == 1 by {}
        }
        let ghost t = sbor_tree(v);
        match variant_of(v) {
            None => None,
            Some((d, fields)) => {
                let ghost ts = sbor_trees(fields@);
                match take1(fields) {
                    None => None,
                    Some(a) => {
                        let r = if d == 0 || d == 1 {
                            match u32_of(a) {
                                Some(n) => Some(
                                    if d == 0 {
                                        AbiParam::Handle(n)
                                    } else {
                                        AbiParam::Bucket(n)
                                    },
                                ),
                                None => None,
                            }
                        } else if d == 2 {
                            match expr_of(a) {
                                Some(x) => Some(AbiParam::Derived(x)),
                                None => None,
                            }
                        } else {
                            None
                        };
                        proof {
                            if r is None {
                                assert forall|x: Self| #[trigger] x.tree() != t by {
                                    if x.tree() == t {
                                        assert(ts[0] == sbor_tree(a));
                                        assert(x.tree()->Variant_1[0] == ts[0]);
                                    }
                                }
                            }
                        }
                        r
                    },
                }
            },
        }
    }
}

impl Wire for CallSite {
    open spec fn tree(self) -> Tree {
        Tree::Record(seq![self.target.form(), Tree::Text(self.method@), list_tree(self.args@)])
    }

    open spec fn wire_kind() -> u8 {
        KIND_RECORD
    }

    proof fn law_kind(x: Self) {
    }

    proof fn law_plain(x: Self) {
        lemma_expr_plain(x.target);
        lemma_list_plain(x.args@);
        let parts = x.tree()->Record_0;
        assert forall|i: int| 0 <= i < parts.len() implies plain(#[trigger] parts[i]) by {}
    }

    fn kind() -> (k: u8) {
        KIND_RECORD
    }

    fn to_wire(&self) -> (v: SborValue) {
        let mut fields: Vec<SborValue> = Vec::new();
        fields.push(wire_expr(&self.target));
        fields.push(self.method.to_wire());
        fields.push(list_to_wire(&self.args));
        assert(sbor_trees(fields@) =~= seq![
            self.target.form(),
            Tree::Text(self.method@),
            list_tree(self.args@),
        ]);
        record(fields)
    }

    fn from_wire(v: SborValue) -> (r: Option<Self>) {
        proof {
            assert forall|x: Self| (#[trigger] x.tree()) is Record && x.tree()->Record_0.len() == 3 by {}
        }
        let ghost t = sbor_tree(v);
        match record_of(v) {
            None => None,
            Some(fields) => {
                let ghost ts = sbor_trees(fields@);
                match take3(fields) {
                    None => None,
                    Some((a, b, c)) => {
                        let method = <String as Wire>::from_wire(b);
                        let args = list_from_wire::<Expr>(c);
                        let r = match (expr_of(a), method, args) {
                            (Some(target), Some(method), Some(args)) => Some(
                                CallSite { target, method, args },
                            ),
                            _ => None,
                        };
                        proof {
                            if r is None {
                                assert forall|x: Self| #[trigger] x.tree() != t by {
                                    if x.tree() == t {
                                        assert(ts[0] == x.target.form() && ts[0] == sbor_tree(a));
                                        assert(ts[1] == x.method.tree() && ts[1] == sbor_tree(b));
                                        assert(ts[2] == list_tree(x.args@) && ts[2] == sbor_tree(
                                            c,
                                        ));
                                    }
                                }
                            }
                        }
                        r
                    },
                }
            },
        }
    }
}

impl Clause {
    /// The wire form.
    pub open spec fn form(self) -> Tree
        decreases self,
    {
        match self {
            Clause::Effect { target, mode } => Tree::Variant(0u8, seq![target.tree(), mode.tree()]),
            Clause::ForEach { list, body } => Tree::Variant(
                1u8,
                seq![
                    list.form(),
                    Tree::List(
                        0x22u8,
                        Seq::new(
                            body@.len(),
                            |i: int|
                                if 0 <= i < body@.len() {
                                    body@[i].form()
                                } else {
                                    Tree::Foreign
                                },
                        ),
                    ),
                ],
            ),
        }
    }
}

/// The wire forms of a sequence of clauses.
pub open spec fn clause_forms(cs: Seq<Clause>) -> Seq<Tree> {
    Seq::new(cs.len(), |i: int| cs[i].form())
}

/// A tree that is the wire form of no clause.
pub open spec fn no_clause(t: Tree) -> bool {
    forall|x: Clause| #[trigger] x.form() != t
}

/// The wire form of a for-each in terms of its body.
pub proof fn lemma_clause_form(c: Clause)
    ensures
        c.form() is Variant,
        c.form()->Variant_1.len() == 2,
        match c {
            Clause::Effect { .. } => c.form()->Variant_0 == 0,
            Clause::ForEach { list, body } => c.form() == Tree::Variant(
                1u8,
                seq![list.form(), Tree::List(0x22u8, clause_forms(body@))],
            ),
        },
{
    if let Clause::ForEach { list, body } = c {
        assert(c.form()->Variant_1[1]->List_1 =~= clause_forms(body@));
        assert(c.form()->Variant_1 =~= seq![
            list.form(),
            Tree::List(0x22u8, clause_forms(body@)),
        ]);
    }
}

/// Writes a clause.
pub(crate) fn wire_clause(clause: &Clause) -> (v: SborValue)
    ensures
        sbor_tree(v) == clause.form(),
    decreases clause,
{
    match clause {
        Clause::Effect { target, mode } => variant2(0, target.to_wire(), mode.to_wire()),
        Clause::ForEach { list, body } => {
            let mut items: Vec<SborValue> = Vec::new();
            let mut i: usize = 0;
            while i < body.len()
                invariant
                    i <= body.len(),
                    clause is ForEach,
                    clause->body == *body,
                    items@.len() == i,
                    forall|j: int|
                        0 <= j < i ==> sbor_tree(#[trigger] items@[j]) == body@[j].form(),
                decreases body.len() - i,
            {
                assert(decreases_to!(*clause => clause->body));
                assert(decreases_to!(*body => body[i as int]));
                items.push(wire_clause(&body[i]));
                i = i + 1;
            }
            proof {
                lemma_clause_form(*clause);
                assert(sbor_trees(items@) =~= clause_forms(body@));
            }
            variant2(1, wire_expr(list), branch_value(Branch::List(KIND_VARIANT, items)))
        },
    }
}

/// Reads a clause back.
pub(crate) fn clause_of(v: SborValue) -> (r: Option<Clause>)
    ensures
        match r {
            Some(x) => x.form() == sbor_tree(v),
            None => no_clause(sbor_tree(v)),
        },
    decreases sbor_tree(v), 1nat,
{
    let ghost t = sbor_tree(v);
    proof {
        assert forall|x: Clause| (#[trigger] x.form()) is Variant && x.form()->Variant_1.len() == 2
            && x.form()->Variant_0 <= 1 by {
            lemma_clause_form(x);
        }
    }
    match variant_of(v) {
        None => None,
        Some((d, fields)) => {
            let ghost ts = sbor_trees(fields@);
            match take2(fields) {
                None => None,
                Some((a, b)) => {
                    assert(t->Variant_1[0] == sbor_tree(a));
                    assert(t->Variant_1[1] == sbor_tree(b));
                    assert(decreases_to!(t => t->Variant_1[1]));
                    let r = if d == 0 {
                        match (TargetExpr::from_wire(a), ModeExpr::from_wire(b)) {
                            (Some(target), Some(mode)) => Some(Clause::Effect { target, mode }),
                            _ => None,
                        }
                    } else if d == 1 {
                        match (expr_of(a), clauses_of(b)) {
                            (Some(list), Some(body)) => Some(Clause::ForEach { list, body }),
                            _ => None,
                        }
                    } else {
                        None
                    };
                    proof {
                        if r is None {
                            assert forall|x: Clause| #[trigger] x.form() != t by {
                                lemma_clause_form(x);
                                if x.form() == t {
                                    match x {
                                        Clause::Effect { target, mode } => {
                                            assert(ts[0] == target.tree());
                                            assert(ts[1] == mode.tree());
                                        },
                                        Clause::ForEach { list, body } => {
                                            assert(ts[0] == list.form());
                                            assert(ts[1] == Tree::List(
                                                0x22u8,
                                                clause_forms(body@),
                                            ));
                                        },
                                    }
                                }
                            }
                        } else {
                            lemma_clause_form(r->0);
                        }
                    }
                    r
                },
            }
        },
    }
}

/// Reads a list of clauses back.
pub(crate) fn clauses_of(v: SborValue) -> (r: Option<Vec<Clause>>)
    ensures
        match r {
            Some(cs) => sbor_tree(v) == Tree::List(0x22u8, clause_forms(cs@)),
            None => forall|cs: Seq<Clause>|
                sbor_tree(v) != Tree::List(0x22u8, #[trigger] clause_forms(cs)),
        },
    decreases sbor_tree(v), 0nat,
{
    let ghost t = sbor_tree(v);
    match branch_of(v) {
        Some(Branch::List(kind, items)) => {
            if kind != KIND_VARIANT {
                return None;
            }
            let ghost all = items@;
            let mut rest = reversed(items);
            let mut cs: Vec<Clause> = Vec::new();
            while rest.len() > 0
                invariant
                    t == sbor_tree(v),
                    t == Tree::List(KIND_VARIANT, sbor_trees(all)),
                    cs@.len() + rest@.len() == all.len(),
                    rest@ == all.skip(cs@.len() as int).reverse(),
                    forall|j: int|
                        0 <= j < cs@.len() ==> sbor_tree(all[j]) == (#[trigger] cs@[j]).form(),
                decreases rest.len(),
            {
                let ghost n = cs@.len() as int;
                match rest.pop() {
                    Some(item) => {
                        assert(item == all[n]);
                        assert(rest@ =~= all.skip(n + 1).reverse());
                        assert(sbor_trees(all)[n] == sbor_tree(item));
                        assert(decreases_to!(t => t->List_1[n]));
                        let x = clause_of(item);
                        match x {
                            Some(x) => {
                                cs.push(x);
                            },
                            None => {
                                proof {
                                    assert forall|ds: Seq<Clause>| t != Tree::List(
                                        0x22u8,
                                        #[trigger] clause_forms(ds),
                                    ) by {
                                        if t == Tree::List(0x22u8, clause_forms(ds)) {
                                            assert(sbor_trees(all) == clause_forms(ds));
                                            assert(clause_forms(ds)[n] == ds[n].form());
                                        }
                                    }
                                }
                                return None;
                            },
                        }
                    },
                    None => {},
                }
            }
            assert(sbor_trees(all) =~= clause_forms(cs@));
            Some(cs)
        },
        _ => None,
    }
}

impl Wire for Clause {
    open spec fn tree(self) -> Tree {
        self.form()
    }

    open spec fn wire_kind() -> u8 {
        KIND_VARIANT
    }

    proof fn law_kind(x: Self) {
        lemma_clause_form(x);
    }

    proof fn law_plain(x: Self) {
        lemma_clause_plain(x);
    }

    fn kind() -> (k: u8) {
        KIND_VARIANT
    }

    fn to_wire(&self) -> (v: SborValue) {
        wire_clause(self)
    }

    fn from_wire(v: SborValue) -> (r: Option<Self>) {
        clause_of(v)
    }
}

impl Wire for MethodEntry {
    open spec fn tree(self) -> Tree {
        Tree::Record(
            seq![
                Tree::Text(self.name@),
                self.signature.accessibility.tree(),
                list_tree(self.signature.params@),
                list_tree(self.signature.abi@),
                list_tree(self.signature.outputs@),
                list_tree(self.signature.effects@),
                list_tree(self.signature.calls@),
            ],
        )
    }

    open spec fn wire_kind() -> u8 {
        KIND_RECORD
    }

    proof fn law_kind(x: Self) {
    }

    proof fn law_plain(x: Self) {
        Accessibility::law_plain(x.signature.accessibility);
        lemma_list_plain(x.signature.params@);
        lemma_list_plain(x.signature.abi@);
        lemma_list_plain(x.signature.outputs@);
        lemma_list_plain(x.signature.effects@);
        lemma_list_plain(x.signature.calls@);
        let parts = x.tree()->Record_0;
        assert forall|i: int| 0 <= i < parts.len() implies plain(#[trigger] parts[i]) by {}
    }

    fn kind() -> (k: u8) {
        KIND_RECORD
    }

    fn to_wire(&self) -> (v: SborValue) {
        let mut fields: Vec<SborValue> = Vec::new();
        fields.push(self.name.to_wire());
        fields.push(self.signature.accessibility.to_wire());
        fields.push(list_to_wire(&self.signature.params));
        fields.push(list_to_wire(&self.signature.abi));
        fields.push(list_to_wire(&self.signature.outputs));
        fields.push(list_to_wire(&self.signature.effects));
        fields.push(list_to_wire(&self.signature.calls));
        assert(sbor_trees(fields@) =~= self.tree()->Record_0);
        record(fields)
    }

    fn from_wire(v: SborValue) -> (r: Option<Self>) {
        proof {
            assert forall|x: Self| (#[trigger] x.tree()) is Record && x.tree()->Record_0.len() == 7 by {}
        }
        let ghost t = sbor_tree(v);
        match record_of(v) {
            None => None,
            Some(fields) => {
                let ghost ts = sbor_trees(fields@);
                if fields.len() != 7 {
                    return None;
                }
                let mut rest = fields;
                let calls = rest.pop();
                let effects = rest.pop();
                let outputs = rest.pop();
                let abi = rest.pop();
                match (calls, effects, outputs, abi, take3(rest)) {
                    (Some(g), Some(f), Some(e), Some(d), Some((a, b, c))) => {
                        assert(ts =~= seq![
                            sbor_tree(a),
                            sbor_tree(b),
                            sbor_tree(c),
                            sbor_tree(d),
                            sbor_tree(e),
                            sbor_tree(f),
                            sbor_tree(g),
                        ]) by {
                            assert(sbor_trees(rest@) =~= ts.take(3));
                            assert(sbor_trees(rest@)[0] == sbor_tree(a));
                            assert(sbor_trees(rest@)[1] == sbor_tree(b));
                            assert(sbor_trees(rest@)[2] == sbor_tree(c));
                        }
                        let name = <String as Wire>::from_wire(a);
                        let accessibility = Accessibility::from_wire(b);
                        let params = list_from_wire::<ParamType>(c);
                        let abi = list_from_wire::<AbiParam>(d);
                        let outputs = list_from_wire::<Expr>(e);
                        let effects = list_from_wire::<Clause>(f);
                        let calls = list_from_wire::<CallSite>(g);
                        let r = match (name, accessibility, params, abi, outputs, effects, calls) {
                            (
                                Some(name),
                                Some(accessibility),
                                Some(params),
                                Some(abi),
                                Some(outputs),
                                Some(effects),
                                Some(calls),
                            ) => {
                                let entry = MethodEntry {
                                    name,
                                    signature: MethodSignature {
                                        accessibility,
                                        params,
                                        abi,
                                        outputs,
                                        effects,
                                        calls,
                                    },
                                };
                                assert(entry.tree()->Record_0 =~= ts);
                                Some(entry)
                            },
                            _ => None,
                        };
                        proof {
                            if r is None {
                                assert forall|x: Self| #[trigger] x.tree() != t by {
                                    if x.tree() == t {
                                        let xs = x.tree()->Record_0;
                                        assert(xs == ts);
                                        assert(xs[0] == x.name.tree());
                                        assert(xs[1] == x.signature.accessibility.tree());
                                        assert(xs[2] == list_tree(x.signature.params@));
                                        assert(xs[3] == list_tree(x.signature.abi@));
                                        assert(xs[4] == list_tree(x.signature.outputs@));
                                        assert(xs[5] == list_tree(x.signature.effects@));
                                        assert(xs[6] == list_tree(x.signature.calls@));
                                        assert(ts[0] == sbor_tree(a));
                                        assert(ts[1] == sbor_tree(b));
                                        assert(ts[2] == sbor_tree(c));
                                        assert(ts[3] == sbor_tree(d));
                                        assert(ts[4] == sbor_tree(e));
                                        assert(ts[5] == sbor_tree(f));
                                        assert(ts[6] == sbor_tree(g));
                                    }
                                }
                            }
                        }
                        r
                    },
                    _ => None,
                }
            },
        }
    }
}

/// Everything in a clause's wire form is of a known kind.
pub proof fn lemma_clause_plain(c: Clause)
    ensures
        plain(c.form()),
    decreases c,
{
    lemma_clause_form(c);
    let parts = c.form()->Variant_1;
    assert forall|i: int| 0 <= i < parts.len() implies plain(#[trigger] parts[i]) by {
        match c {
            Clause::Effect { target, mode } => {
                TargetExpr::law_plain(target);
                ModeExpr::law_plain(mode);
            },
            Clause::ForEach { list, body } => {
                lemma_expr_plain(list);
                let forms = clause_forms(body@);
                assert forall|j: int| 0 <= j < forms.len() implies plain(#[trigger] forms[j]) by {
                    assert(decreases_to!(c => c->body));
                    assert(decreases_to!(body => body[j]));
                    lemma_clause_plain(body@[j]);
                }
            },
        }
    }
}

} // verus!
