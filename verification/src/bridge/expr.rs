//! Effect expressions and their wire form.
use vstd::prelude::*;

use crate::bridge::sbor_value::{
    branch_of, branch_value, kind_of, lemma_nests_wider, nests, plain, sbor_tree, sbor_trees, Branch, SborValue, Tree,
    KIND_VARIANT,
};
use crate::bridge::value::{
    lemma_value_nests, lemma_value_plain, no_value, value_of, variant1, variant2,
    wire_value, Value,
};
use crate::bridge::wire::{
    take1, take2, take3, u16_of, u16_value, u32_of, u32_value, variant0, variant3, variant_of, Wire,
};
use crate::list::reversed;

verus! {

/// The role a child key is filed under.
#[derive(Clone, Copy, Debug, PartialEq, Eq, Structural)]
pub struct RoleId(pub u16);

/// An expression over a call's arguments, configuration and bindings.
#[derive(Debug, PartialEq, Eq)]
pub enum Expr {
    /// A literal.
    Literal(Value),
    /// An argument of the call.
    Arg(u32),
    /// A field of the instance's configuration.
    Config(u32),
    /// A variable bound by an enclosing for-each.
    Binding(u32),
    /// The called instance's own address.
    SelfAddr,
    /// A field of a tuple.
    Field(Box<Expr>, u32),
    /// The resource of a bucket.
    ResourceOf(Box<Expr>),
    /// An entry of a map.
    Lookup {
        /// The map.
        map: Box<Expr>,
        /// The key looked up.
        key: Box<Expr>,
    },
    /// A key derived under an owner.
    ChildKey {
        /// The owner.
        owner: Box<Expr>,
        /// The role it is filed under.
        role: RoleId,
        /// What the key is derived from.
        material: Vec<Expr>,
    },
    /// A fresh identifier.
    FreshId {
        /// Which of the call's fresh identifiers.
        slot: u32,
    },
    /// A fresh key.
    FreshKey {
        /// Which of the call's fresh keys.
        slot: u32,
    },
    /// Two halves packed into one order.
    Pack {
        /// The high half.
        hi: Box<Expr>,
        /// The low half.
        lo: Box<Expr>,
    },
}

impl Expr {
    /// The wire form: one variant per kind, in declaration order.
    pub open spec fn form(self) -> Tree
        decreases self,
    {
        match self {
            Expr::Literal(v) => Tree::Variant(0u8, seq![v.tree()]),
            Expr::Arg(i) => Tree::Variant(1u8, seq![Tree::U32(i)]),
            Expr::Config(i) => Tree::Variant(2u8, seq![Tree::U32(i)]),
            Expr::Binding(i) => Tree::Variant(3u8, seq![Tree::U32(i)]),
            Expr::SelfAddr => Tree::Variant(4u8, Seq::empty()),
            Expr::Field(e, i) => Tree::Variant(5u8, seq![e.form(), Tree::U32(i)]),
            Expr::ResourceOf(e) => Tree::Variant(6u8, seq![e.form()]),
            Expr::Lookup { map, key } => Tree::Variant(7u8, seq![map.form(), key.form()]),
            Expr::ChildKey { owner, role, material } => Tree::Variant(
                8u8,
                seq![
                    owner.form(),
                    Tree::U16(role.0),
                    Tree::List(
                        0x22u8,
                        Seq::new(
                            material@.len(),
                            |i: int|
                                if 0 <= i < material@.len() {
                                    material@[i].form()
                                } else {
                                    Tree::Foreign
                                },
                        ),
                    ),
                ],
            ),
            Expr::FreshId { slot } => Tree::Variant(9u8, seq![Tree::U32(slot)]),
            Expr::FreshKey { slot } => Tree::Variant(10u8, seq![Tree::U32(slot)]),
            Expr::Pack { hi, lo } => Tree::Variant(11u8, seq![hi.form(), lo.form()]),
        }
    }

    /// The expression is well bounded when it stands `depth` levels down: no
    /// part stands deeper than `limit`, and no literal nests past `literal`.
    pub open spec fn bounded(self, depth: int, limit: int, literal: int) -> bool
        decreases self,
    {
        depth <= limit && match self {
            Expr::Literal(v) => v.within(literal),
            Expr::Field(e, _) => e.bounded(depth + 1, limit, literal),
            Expr::ResourceOf(e) => e.bounded(depth + 1, limit, literal),
            Expr::Lookup { map, key } => map.bounded(depth + 1, limit, literal) && key.bounded(
                depth + 1,
                limit,
                literal,
            ),
            Expr::Pack { hi, lo } => hi.bounded(depth + 1, limit, literal) && lo.bounded(
                depth + 1,
                limit,
                literal,
            ),
            Expr::ChildKey { owner, role, material } => owner.bounded(depth + 1, limit, literal)
                && forall|i: int|
                0 <= i < material@.len() ==> (#[trigger] material@[i]).bounded(
                    depth + 1,
                    limit,
                    literal,
                ),
            _ => true,
        }
    }
}

/// The wire forms of a sequence of expressions.
pub open spec fn expr_forms(es: Seq<Expr>) -> Seq<Tree> {
    Seq::new(es.len(), |i: int| es[i].form())
}

/// A tree that is the wire form of no expression.
pub open spec fn no_expr(t: Tree) -> bool {
    forall|x: Expr| #[trigger] x.form() != t
}

/// The wire form of a child key in terms of its material, and the kind and
/// number of an expression's parts.
pub proof fn lemma_expr_form(e: Expr)
    ensures
        e.form() is Variant,
        kind_of(e.form()) == Some(0x22u8),
        match e {
            Expr::ChildKey { owner, role, material } => e.form() == Tree::Variant(
                8u8,
                seq![owner.form(), Tree::U16(role.0), Tree::List(0x22u8, expr_forms(material@))],
            ),
            _ => true,
        },
{
    if let Expr::ChildKey { owner, role, material } = e {
        assert(e.form()->Variant_1[2]->List_1 =~= expr_forms(material@));
        assert(e.form()->Variant_1 =~= seq![
            owner.form(),
            Tree::U16(role.0),
            Tree::List(0x22u8, expr_forms(material@)),
        ]);
    }
}

/// Writes an expression.
pub(crate) fn wire_expr(expr: &Expr) -> (v: SborValue)
    ensures
        sbor_tree(v) == expr.form(),
    decreases expr,
{
    match expr {
        Expr::Literal(literal) => variant1(0, wire_value(literal)),
        Expr::Arg(index) => variant1(1, u32_value(*index)),
        Expr::Config(index) => variant1(2, u32_value(*index)),
        Expr::Binding(index) => variant1(3, u32_value(*index)),
        Expr::SelfAddr => variant0(4),
        Expr::Field(tuple, index) => variant2(5, wire_expr(tuple), u32_value(*index)),
        Expr::ResourceOf(bucket) => variant1(6, wire_expr(bucket)),
        Expr::Lookup { map, key } => variant2(7, wire_expr(map), wire_expr(key)),
        Expr::ChildKey { owner, role, material } => {
            let mut items: Vec<SborValue> = Vec::new();
            let mut i: usize = 0;
            while i < material.len()
                invariant
                    i <= material.len(),
                    expr is ChildKey,
                    expr->ChildKey_material == *material,
                    items@.len() == i,
                    forall|j: int|
                        0 <= j < i ==> sbor_tree(#[trigger] items@[j]) == material@[j].form(),
                decreases material.len() - i,
            {
                assert(decreases_to!(*expr => expr->ChildKey_material));
                assert(decreases_to!(*material => material[i as int]));
                items.push(wire_expr(&material[i]));
                i = i + 1;
            }
            proof {
                lemma_expr_form(*expr);
                assert(sbor_trees(items@) =~= expr_forms(material@));
            }
            let list = branch_value(Branch::List(KIND_VARIANT, items));
            variant3(8, wire_expr(owner), u16_value(role.0), list)
        },
        Expr::FreshId { slot } => variant1(9, u32_value(*slot)),
        Expr::FreshKey { slot } => variant1(10, u32_value(*slot)),
        Expr::Pack { hi, lo } => variant2(11, wire_expr(hi), wire_expr(lo)),
    }
}

/// Reads an expression with one field, a number, back.
fn numbered(d: u8, field: SborValue) -> (r: Option<Expr>)
    requires
        d == 1 || d == 2 || d == 3 || d == 9 || d == 10,
    ensures
        match r {
            Some(x) => x.form() == Tree::Variant(d, seq![sbor_tree(field)]),
            None => !(sbor_tree(field) is U32),
        },
{
    match u32_of(field) {
        Some(n) => Some(
            if d == 1 {
                Expr::Arg(n)
            } else if d == 2 {
                Expr::Config(n)
            } else if d == 3 {
                Expr::Binding(n)
            } else if d == 9 {
                Expr::FreshId { slot: n }
            } else {
                Expr::FreshKey { slot: n }
            },
        ),
        None => None,
    }
}

/// Reads an expression back.
pub(crate) fn expr_of(v: SborValue) -> (r: Option<Expr>)
    ensures
        match r {
            Some(x) => x.form() == sbor_tree(v),
            None => no_expr(sbor_tree(v)),
        },
    decreases sbor_tree(v), 1nat,
{
    let ghost t = sbor_tree(v);
    let parts = variant_of(v);
    match parts {
        None => {
            proof {
                lemma_not_variant(t);
            }
            None
        },
        Some((d, fields)) => {
            let ghost ts = sbor_trees(fields@);
            assert(t == Tree::Variant(d, ts));
            proof {
                assert(forall|i: int| 0 <= i < ts.len() ==> decreases_to!(t => #[trigger] t->Variant_1[i]));
            }
            if d == 4 {
                if fields.len() == 0 {
                    assert(ts =~= Seq::<Tree>::empty());
                    Some(Expr::SelfAddr)
                } else {
                    proof {
                        lemma_no_expr_here(t);
                    }
                    None
                }
            } else if d == 0 || d == 1 || d == 2 || d == 3 || d == 6 || d == 9 || d == 10 {
                match take1(fields) {
                    None => {
                        proof {
                            lemma_no_expr_here(t);
                        }
                        None
                    },
                    Some(a) => {
                        assert(ts[0] == sbor_tree(a));
                        assert(t->Variant_1[0] == sbor_tree(a));
                        let r = if d == 0 {
                            match value_of(a) {
                                Some(x) => Some(Expr::Literal(x)),
                                None => None,
                            }
                        } else if d == 6 {
                            match expr_of(a) {
                                Some(x) => Some(Expr::ResourceOf(Box::new(x))),
                                None => None,
                            }
                        } else {
                            numbered(d, a)
                        };
                        proof {
                            if r is None {
                                lemma_no_expr_here(t);
                            }
                        }
                        r
                    },
                }
            } else if d == 5 || d == 7 || d == 11 {
                match take2(fields) {
                    None => {
                        proof {
                            lemma_no_expr_here(t);
                        }
                        None
                    },
                    Some((a, b)) => {
                        assert(t->Variant_1[0] == sbor_tree(a));
                        assert(t->Variant_1[1] == sbor_tree(b));
                        let r = if d == 5 {
                            match (expr_of(a), u32_of(b)) {
                                (Some(x), Some(n)) => Some(Expr::Field(Box::new(x), n)),
                                _ => None,
                            }
                        } else {
                            match (expr_of(a), expr_of(b)) {
                                (Some(x), Some(y)) => Some(
                                    if d == 7 {
                                        Expr::Lookup { map: Box::new(x), key: Box::new(y) }
                                    } else {
                                        Expr::Pack { hi: Box::new(x), lo: Box::new(y) }
                                    },
                                ),
                                _ => None,
                            }
                        };
                        proof {
                            if r is None {
                                lemma_no_expr_here(t);
                            }
                        }
                        r
                    },
                }
            } else if d == 8 {
                match take3(fields) {
                    None => {
                        proof {
                            lemma_no_expr_here(t);
                        }
                        None
                    },
                    Some((a, b, c)) => {
                        assert(t->Variant_1[0] == sbor_tree(a));
                        assert(t->Variant_1[1] == sbor_tree(b));
                        assert(t->Variant_1[2] == sbor_tree(c));
                        let r = match (expr_of(a), u16_of(b), exprs_of(c)) {
                            (Some(x), Some(n), Some(m)) => Some(
                                Expr::ChildKey { owner: Box::new(x), role: RoleId(n), material: m },
                            ),
                            _ => None,
                        };
                        proof {
                            if r is None {
                                lemma_no_expr_here(t);
                            } else {
                                lemma_expr_form(r->0);
                            }
                        }
                        r
                    },
                }
            } else {
                proof {
                    lemma_no_expr_here(t);
                }
                None
            }
        },
    }
}

/// Only a variant is the wire form of an expression.
proof fn lemma_not_variant(t: Tree)
    requires
        !(t is Variant),
    ensures
        no_expr(t),
{
    assert forall|x: Expr| #[trigger] x.form() != t by {
        lemma_expr_form(x);
    }
}

/// A variant whose number of fields is wrong for its discriminator, or one of
/// whose fields is not the wire form of what belongs there, is the wire form
/// of no expression.
proof fn lemma_no_expr_here(t: Tree)
    requires
        t is Variant,
        ({
            let d = t->Variant_0;
            let f = t->Variant_1;
            ||| d > 11
            ||| d == 4 && f.len() != 0
            ||| (d == 0 || d == 1 || d == 2 || d == 3 || d == 6 || d == 9 || d == 10) && f.len() != 1
            ||| (d == 5 || d == 7 || d == 11) && f.len() != 2
            ||| d == 8 && f.len() != 3
            ||| d == 0 && no_value(f[0])
            ||| (d == 1 || d == 2 || d == 3 || d == 9 || d == 10) && !(f[0] is U32)
            ||| (d == 5 || d == 6 || d == 7 || d == 8 || d == 11) && no_expr(f[0])
            ||| (d == 7 || d == 11) && no_expr(f[1])
            ||| d == 5 && !(f[1] is U32)
            ||| d == 8 && !(f[1] is U16)
            ||| d == 8 && forall|es: Seq<Expr>| f[2] != Tree::List(0x22u8, #[trigger] expr_forms(es))
        }),
    ensures
        no_expr(t),
{
    assert forall|x: Expr| #[trigger] x.form() != t by {
        lemma_expr_form(x);
        if x.form() == t {
            let f = t->Variant_1;
            match x {
                Expr::Literal(v) => {
                    assert(f[0] == v.tree());
                },
                Expr::Arg(i) => {
                    assert(f[0] == Tree::U32(i));
                },
                Expr::Config(i) => {
                    assert(f[0] == Tree::U32(i));
                },
                Expr::Binding(i) => {
                    assert(f[0] == Tree::U32(i));
                },
                Expr::SelfAddr => {},
                Expr::Field(e, i) => {
                    assert(f[0] == e.form());
                    assert(f[1] == Tree::U32(i));
                },
                Expr::ResourceOf(e) => {
                    assert(f[0] == e.form());
                },
                Expr::Lookup { map, key } => {
                    assert(f[0] == map.form());
                    assert(f[1] == key.form());
                },
                Expr::ChildKey { owner, role, material } => {
                    assert(f[0] == owner.form());
                    assert(f[1] == Tree::U16(role.0));
                    assert(f[2] == Tree::List(0x22u8, expr_forms(material@)));
                },
                Expr::FreshId { slot } => {
                    assert(f[0] == Tree::U32(slot));
                },
                Expr::FreshKey { slot } => {
                    assert(f[0] == Tree::U32(slot));
                },
                Expr::Pack { hi, lo } => {
                    assert(f[0] == hi.form());
                    assert(f[1] == lo.form());
                },
            }
        }
    }
}

/// Reads a list of expressions back.
pub(crate) fn exprs_of(v: SborValue) -> (r: Option<Vec<Expr>>)
    ensures
        match r {
            Some(es) => sbor_tree(v) == Tree::List(0x22u8, expr_forms(es@)),
            None => forall|es: Seq<Expr>|
                sbor_tree(v) != Tree::List(0x22u8, #[trigger] expr_forms(es)),
        },
    decreases sbor_tree(v), 0nat,
{
    let ghost t = sbor_tree(v);
    match branch_of(v) {
        Some(Branch::List(kind, items)) => {
            if kind != KIND_VARIANT {
                return None;
            }
            let ghost all = items@;
            let mut rest = reversed(items);
            let mut es: Vec<Expr> = Vec::new();
            while rest.len() > 0
                invariant
                    t == sbor_tree(v),
                    t == Tree::List(KIND_VARIANT, sbor_trees(all)),
                    es@.len() + rest@.len() == all.len(),
                    rest@ == all.skip(es@.len() as int).reverse(),
                    forall|j: int|
                        0 <= j < es@.len() ==> sbor_tree(all[j]) == (#[trigger] es@[j]).form(),
                decreases rest.len(),
            {
                let ghost n = es@.len() as int;
                match rest.pop() {
                    Some(item) => {
                        assert(item == all[n]);
                        assert(rest@ =~= all.skip(n + 1).reverse());
                        assert(sbor_trees(all)[n] == sbor_tree(item));
                        assert(decreases_to!(t => t->List_1[n]));
                        let x = expr_of(item);
                        match x {
                            Some(x) => {
                                es.push(x);
                            },
                            None => {
                                proof {
                                    assert forall|fs: Seq<Expr>| t != Tree::List(
                                        0x22u8,
                                        #[trigger] expr_forms(fs),
                                    ) by {
                                        if t == Tree::List(0x22u8, expr_forms(fs)) {
                                            assert(sbor_trees(all) == expr_forms(fs));
                                            assert(expr_forms(fs)[n] == fs[n].form());
                                        }
                                    }
                                }
                                return None;
                            },
                        }
                    },
                    None => {},
                }
            }
            assert(sbor_trees(all) =~= expr_forms(es@));
            Some(es)
        },
        _ => None,
    }
}

impl Wire for Expr {
    open spec fn tree(self) -> Tree {
        self.form()
    }

    open spec fn wire_kind() -> u8 {
        KIND_VARIANT
    }

    proof fn law_kind(x: Self) {
        lemma_expr_form(x);
    }

    proof fn law_plain(x: Self) {
        lemma_expr_plain(x);
    }

    fn kind() -> (k: u8) {
        KIND_VARIANT
    }

    fn to_wire(&self) -> (v: SborValue) {
        wire_expr(self)
    }

    fn from_wire(v: SborValue) -> (r: Option<Self>) {
        expr_of(v)
    }
}

/// An expression bounded at `depth` takes at most two wire levels per level
/// it may still descend, and its literals theirs.
pub proof fn lemma_expr_nests(e: Expr, depth: int, limit: int, literal: int)
    requires
        e.bounded(depth, limit, literal),
        literal >= 0,
    ensures
        nests(e.form(), 2 * (limit - depth) + 2 * literal + 2),
    decreases e,
{
    lemma_expr_form(e);
    let room = 2 * (limit - depth) + 2 * literal + 1;
    let parts = e.form()->Variant_1;
    assert forall|i: int| 0 <= i < parts.len() implies nests(#[trigger] parts[i], room) by {
        match e {
            Expr::Literal(v) => {
                lemma_value_nests(v, literal);
                lemma_nests_wider(v.tree(), 2 * literal + 1, room);
            },
            Expr::Field(x, _) => {
                lemma_expr_nests(*x, depth + 1, limit, literal);
                lemma_nests_wider(x.form(), room - 1, room);
            },
            Expr::ResourceOf(x) => {
                lemma_expr_nests(*x, depth + 1, limit, literal);
                lemma_nests_wider(x.form(), room - 1, room);
            },
            Expr::Lookup { map, key } => {
                lemma_expr_nests(*map, depth + 1, limit, literal);
                lemma_expr_nests(*key, depth + 1, limit, literal);
                lemma_nests_wider(map.form(), room - 1, room);
                lemma_nests_wider(key.form(), room - 1, room);
            },
            Expr::Pack { hi, lo } => {
                lemma_expr_nests(*hi, depth + 1, limit, literal);
                lemma_expr_nests(*lo, depth + 1, limit, literal);
                lemma_nests_wider(hi.form(), room - 1, room);
                lemma_nests_wider(lo.form(), room - 1, room);
            },
            Expr::ChildKey { owner, role, material } => {
                lemma_expr_nests(*owner, depth + 1, limit, literal);
                lemma_nests_wider(owner.form(), room - 1, room);
                let forms = expr_forms(material@);
                assert forall|j: int| 0 <= j < forms.len() implies nests(
                    #[trigger] forms[j],
                    room - 1,
                ) by {
                    assert(decreases_to!(e => e->ChildKey_material));
                    assert(decreases_to!(material => material[j]));
                    assert(material@[j].bounded(depth + 1, limit, literal));
                    lemma_expr_nests(material@[j], depth + 1, limit, literal);
                }
            },
            _ => {},
        }
    }
}

/// Everything in an expression's wire form is of a known kind.
pub proof fn lemma_expr_plain(e: Expr)
    ensures
        plain(e.form()),
    decreases e,
{
    lemma_expr_form(e);
    let parts = e.form()->Variant_1;
    assert forall|i: int| 0 <= i < parts.len() implies plain(#[trigger] parts[i]) by {
        match e {
            Expr::Literal(v) => {
                lemma_value_plain(v);
            },
            Expr::Field(x, _) => {
                lemma_expr_plain(*x);
            },
            Expr::ResourceOf(x) => {
                lemma_expr_plain(*x);
            },
            Expr::Lookup { map, key } => {
                lemma_expr_plain(*map);
                lemma_expr_plain(*key);
            },
            Expr::Pack { hi, lo } => {
                lemma_expr_plain(*hi);
                lemma_expr_plain(*lo);
            },
            Expr::ChildKey { owner, role, material } => {
                lemma_expr_plain(*owner);
                let forms = expr_forms(material@);
                assert forall|j: int| 0 <= j < forms.len() implies plain(#[trigger] forms[j]) by {
                    assert(decreases_to!(e => e->ChildKey_material));
                    assert(decreases_to!(material => material[j]));
                    lemma_expr_plain(material@[j]);
                }
            },
            _ => {},
        }
    }
}

} // verus!
