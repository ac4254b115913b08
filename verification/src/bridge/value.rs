//! Literal values of the effect vocabulary, and their one wire encoding.
use vstd::prelude::*;

use crate::bridge::sbor_value::{
    branch_of, branch_value, kind_of, nests, plain, sbor_tree, sbor_trees, scalar_of, scalar_value,
    Branch, SborValue, Scalar, Tree, KIND_U8, KIND_VARIANT,
};
use crate::list::reversed;
use crate::types::SubstateKey;

verus! {

/// A literal of the effect vocabulary.
#[derive(Debug, PartialEq, Eq)]
pub enum Value {
    /// A 64-bit number.
    U64(u64),
    /// A 128-bit number.
    U128(u128),
    /// A byte string.
    Bytes(Vec<u8>),
    /// An address.
    Address([u8; 16]),
    /// A cell's key.
    Key(SubstateKey),
    /// A bucket of one resource.
    Bucket {
        /// The resource it holds.
        resource: [u8; 16],
    },
    /// A tuple of values.
    Tuple(Vec<Value>),
    /// A list of values.
    List(Vec<Value>),
}

/// The tree of a byte string: an array of bytes.
pub open spec fn bytes_tree(s: Seq<u8>) -> Tree {
    Tree::List(0x07u8, s.map_values(|b: u8| Tree::U8(b)))
}

impl Value {
    /// The wire form: one variant per kind of literal, in declaration order.
    pub open spec fn tree(self) -> Tree
        decreases self,
    {
        match self {
            Value::U64(x) => Tree::Variant(0u8, seq![Tree::U64(x)]),
            Value::U128(x) => Tree::Variant(1u8, seq![Tree::U128(x)]),
            Value::Bytes(b) => Tree::Variant(2u8, seq![bytes_tree(b@)]),
            Value::Address(a) => Tree::Variant(3u8, seq![bytes_tree(a@)]),
            Value::Key(k) => Tree::Variant(
                4u8,
                seq![bytes_tree(k.owner@), bytes_tree(k.local@)],
            ),
            Value::Bucket { resource } => Tree::Variant(5u8, seq![bytes_tree(resource@)]),
            Value::Tuple(fields) => Tree::Variant(
                6u8,
                seq![
                    Tree::List(
                        0x22u8,
                        Seq::new(
                            fields@.len(),
                            |i: int|
                                if 0 <= i < fields@.len() {
                                    fields@[i].tree()
                                } else {
                                    Tree::Foreign
                                },
                        ),
                    ),
                ],
            ),
            Value::List(items) => Tree::Variant(
                7u8,
                seq![
                    Tree::List(
                        0x22u8,
                        Seq::new(
                            items@.len(),
                            |i: int|
                                if 0 <= i < items@.len() {
                                    items@[i].tree()
                                } else {
                                    Tree::Foreign
                                },
                        ),
                    ),
                ],
            ),
        }
    }

    /// The literal nests at most `limit` levels, itself included.
    pub open spec fn within(self, limit: int) -> bool
        decreases self,
    {
        limit >= 1 && match self {
            Value::Tuple(fields) => forall|i: int|
                0 <= i < fields@.len() ==> (#[trigger] fields@[i]).within(limit - 1),
            Value::List(items) => forall|i: int|
                0 <= i < items@.len() ==> (#[trigger] items@[i]).within(limit - 1),
            _ => true,
        }
    }

    /// Whether the literal nests deeper than `limit` levels.
    pub fn deeper_than(&self, limit: usize) -> (r: bool)
        ensures
            r == !self.within(limit as int),
        decreases self,
    {
        if limit == 0 {
            return true;
        }
        match self {
            Value::Tuple(fields) => {
                let mut i: usize = 0;
                while i < fields.len()
                    invariant
                        i <= fields.len(),
                        limit >= 1,
                        *self == Value::Tuple(*fields),
                        forall|j: int| 0 <= j < i ==> (#[trigger] fields@[j]).within(limit - 1),
                    decreases fields.len() - i,
                {
                    assert(decreases_to!(*self => self->Tuple_0));
                    assert(decreases_to!(*fields => fields[i as int]));
                    if fields[i].deeper_than(limit - 1) {
                        assert(!fields@[i as int].within(limit - 1));
                        return true;
                    }
                    i = i + 1;
                }
                false
            },
            Value::List(items) => {
                let mut i: usize = 0;
                while i < items.len()
                    invariant
                        i <= items.len(),
                        limit >= 1,
                        *self == Value::List(*items),
                        forall|j: int| 0 <= j < i ==> (#[trigger] items@[j]).within(limit - 1),
                    decreases items.len() - i,
                {
                    assert(decreases_to!(*self => self->List_0));
                    assert(decreases_to!(*items => items[i as int]));
                    if items[i].deeper_than(limit - 1) {
                        assert(!items@[i as int].within(limit - 1));
                        return true;
                    }
                    i = i + 1;
                }
                false
            },
            _ => false,
        }
    }
}

/// The wire forms of a sequence of literals.
pub open spec fn value_trees(vs: Seq<Value>) -> Seq<Tree> {
    Seq::new(vs.len(), |i: int| vs[i].tree())
}

/// The wire form of a tuple or list in terms of its members.
pub proof fn lemma_value_tree(v: Value)
    ensures
        match v {
            Value::Tuple(fields) => v.tree() == Tree::Variant(
                6u8,
                seq![Tree::List(0x22u8, value_trees(fields@))],
            ),
            Value::List(items) => v.tree() == Tree::Variant(
                7u8,
                seq![Tree::List(0x22u8, value_trees(items@))],
            ),
            _ => true,
        },
        kind_of(v.tree()) == Some(0x22u8),
{
    match v {
        Value::Tuple(fields) => {
            assert(v.tree()->Variant_1[0]->List_1 =~= value_trees(fields@));
            assert(v.tree()->Variant_1 =~= seq![Tree::List(0x22u8, value_trees(fields@))]);
        },
        Value::List(items) => {
            assert(v.tree()->Variant_1[0]->List_1 =~= value_trees(items@));
            assert(v.tree()->Variant_1 =~= seq![Tree::List(0x22u8, value_trees(items@))]);
        },
        _ => {},
    }
}

/// The wire value of a byte string.
pub(crate) fn bytes_value(b: &[u8]) -> (v: SborValue)
    ensures
        sbor_tree(v) == bytes_tree(b@),
{
    let mut items: Vec<SborValue> = Vec::new();
    let mut i: usize = 0;
    while i < b.len()
        invariant
            i <= b.len(),
            items@.len() == i,
            forall|j: int| 0 <= j < i ==> sbor_tree(#[trigger] items@[j]) == Tree::U8(b@[j]),
        decreases b.len() - i,
    {
        items.push(scalar_value(Scalar::U8(b[i])));
        i = i + 1;
    }
    assert(sbor_trees(items@) =~= b@.map_values(|b: u8| Tree::U8(b)));
    branch_value(Branch::List(KIND_U8, items))
}

/// Reads a byte string back.
pub(crate) fn bytes_of(v: SborValue) -> (r: Option<Vec<u8>>)
    ensures
        match r {
            Some(b) => sbor_tree(v) == bytes_tree(b@),
            None => forall|s: Seq<u8>| sbor_tree(v) != #[trigger] bytes_tree(s),
        },
{
    let ghost t = sbor_tree(v);
    match branch_of(v) {
        Some(Branch::List(kind, items)) => {
            if kind != KIND_U8 {
                return None;
            }
            let ghost all = items@;
            let mut rest = reversed(items);
            let mut b: Vec<u8> = Vec::new();
            while rest.len() > 0
                invariant
                    t == sbor_tree(v),
                    t == Tree::List(KIND_U8, sbor_trees(all)),
                    b@.len() + rest@.len() == all.len(),
                    rest@ == all.skip(b@.len() as int).reverse(),
                    forall|j: int| 0 <= j < b@.len() ==> sbor_tree(all[j]) == Tree::U8(#[trigger] b@[j]),
                decreases rest.len(),
            {
                let ghost n = b@.len() as int;
                match rest.pop() {
                    Some(item) => {
                        assert(item == all[n]);
                        assert(rest@ =~= all.skip(n + 1).reverse());
                        match scalar_of(item) {
                            Some(Scalar::U8(x)) => {
                                b.push(x);
                            },
                            _ => {
                                proof {
                                    assert(sbor_trees(all)[n] == sbor_tree(item));
                                    lemma_not_bytes(sbor_trees(all), n);
                                }
                                return None;
                            },
                        }
                    },
                    None => {},
                }
            }
            assert(sbor_trees(all) =~= b@.map_values(|b: u8| Tree::U8(b)));
            Some(b)
        },
        _ => None,
    }
}

/// An array with an element that is no byte is no byte string.
proof fn lemma_not_bytes(trees: Seq<Tree>, n: int)
    requires
        0 <= n < trees.len(),
        !(trees[n] is U8),
    ensures
        forall|s: Seq<u8>| Tree::List(KIND_U8, trees) != #[trigger] bytes_tree(s),
{
    assert forall|s: Seq<u8>| Tree::List(KIND_U8, trees) != #[trigger] bytes_tree(s) by {
        let m = s.map_values(|b: u8| Tree::U8(b));
        assert(bytes_tree(s)->List_1 == m);
        if trees == m {
            assert(m[n] == Tree::U8(s[n]));
        }
    }
}

/// One byte string has one wire form.
pub proof fn lemma_bytes_tree_injective(a: Seq<u8>, b: Seq<u8>)
    requires
        bytes_tree(a) == bytes_tree(b),
    ensures
        a == b,
{
    let ta = a.map_values(|b: u8| Tree::U8(b));
    let tb = b.map_values(|b: u8| Tree::U8(b));
    assert(ta == tb);
    assert(a.len() == ta.len() && b.len() == tb.len());
    assert forall|i: int| 0 <= i < a.len() implies a[i] == b[i] by {
        assert(ta[i] == Tree::U8(a[i]));
        assert(tb[i] == Tree::U8(b[i]));
    }
    assert(a =~= b);
}

/// Copies sixteen bytes into an array.
pub(crate) fn array16(b: &[u8]) -> (a: [u8; 16])
    requires
        b@.len() == 16,
    ensures
        a@ == b@,
{
    let mut a: [u8; 16] = [0u8; 16];
    let mut i: usize = 0;
    while i < 16
        invariant
            i <= 16,
            b@.len() == 16,
            forall|j: int| 0 <= j < i ==> a@[j] == b@[j],
        decreases 16 - i,
    {
        a[i] = b[i];
        i = i + 1;
    }
    assert(a@ =~= b@);
    a
}

/// Reads a sixteen-byte address back.
pub(crate) fn address_of(v: SborValue) -> (r: Option<[u8; 16]>)
    ensures
        match r {
            Some(a) => sbor_tree(v) == bytes_tree(a@),
            None => forall|a: [u8; 16]| sbor_tree(v) != bytes_tree(#[trigger] a@),
        },
{
    match bytes_of(v) {
        Some(b) => {
            if b.len() == 16 {
                Some(array16(&b))
            } else {
                proof {
                    assert forall|a: [u8; 16]| sbor_tree(v) != bytes_tree(#[trigger] a@) by {
                        if sbor_tree(v) == bytes_tree(a@) {
                            lemma_bytes_tree_injective(a@, b@);
                        }
                    }
                }
                None
            }
        },
        None => None,
    }
}

/// The wire value of one variant.
pub(crate) fn variant1(d: u8, field: SborValue) -> (v: SborValue)
    ensures
        sbor_tree(v) == Tree::Variant(d, seq![sbor_tree(field)]),
{
    let mut fields: Vec<SborValue> = Vec::new();
    fields.push(field);
    assert(sbor_trees(fields@) =~= seq![sbor_tree(field)]);
    branch_value(Branch::Variant(d, fields))
}

/// The wire value of a variant with two fields.
pub(crate) fn variant2(d: u8, first: SborValue, second: SborValue) -> (v: SborValue)
    ensures
        sbor_tree(v) == Tree::Variant(d, seq![sbor_tree(first), sbor_tree(second)]),
{
    let mut fields: Vec<SborValue> = Vec::new();
    fields.push(first);
    fields.push(second);
    assert(sbor_trees(fields@) =~= seq![sbor_tree(first), sbor_tree(second)]);
    branch_value(Branch::Variant(d, fields))
}

/// The wire value of a literal.
pub(crate) fn wire_value(value: &Value) -> (v: SborValue)
    ensures
        sbor_tree(v) == value.tree(),
    decreases value,
{
    match value {
        Value::U64(x) => variant1(0, scalar_value(Scalar::U64(*x))),
        Value::U128(x) => variant1(1, scalar_value(Scalar::U128(*x))),
        Value::Bytes(b) => variant1(2, bytes_value(b)),
        Value::Address(a) => variant1(3, bytes_value(a)),
        Value::Key(k) => variant2(4, bytes_value(&k.owner), bytes_value(&k.local)),
        Value::Bucket { resource } => variant1(5, bytes_value(resource)),
        Value::Tuple(fields) => {
            let mut items: Vec<SborValue> = Vec::new();
            let mut i: usize = 0;
            while i < fields.len()
                invariant
                    i <= fields.len(),
                    *value == Value::Tuple(*fields),
                    items@.len() == i,
                    forall|j: int|
                        0 <= j < i ==> sbor_tree(#[trigger] items@[j]) == fields@[j].tree(),
                decreases fields.len() - i,
            {
                assert(decreases_to!(*value => value->Tuple_0));
                assert(decreases_to!(*fields => fields[i as int]));
                items.push(wire_value(&fields[i]));
                i = i + 1;
            }
            proof {
                lemma_value_tree(*value);
                assert(sbor_trees(items@) =~= value_trees(fields@));
            }
            variant1(6, branch_value(Branch::List(KIND_VARIANT, items)))
        },
        Value::List(members) => {
            let mut items: Vec<SborValue> = Vec::new();
            let mut i: usize = 0;
            while i < members.len()
                invariant
                    i <= members.len(),
                    *value == Value::List(*members),
                    items@.len() == i,
                    forall|j: int|
                        0 <= j < i ==> sbor_tree(#[trigger] items@[j]) == members@[j].tree(),
                decreases members.len() - i,
            {
                assert(decreases_to!(*value => value->List_0));
                assert(decreases_to!(*members => members[i as int]));
                items.push(wire_value(&members[i]));
                i = i + 1;
            }
            proof {
                lemma_value_tree(*value);
                assert(sbor_trees(items@) =~= value_trees(members@));
            }
            variant1(7, branch_value(Branch::List(KIND_VARIANT, items)))
        },
    }
}

/// A tree that is the wire form of no literal.
pub open spec fn no_value(t: Tree) -> bool {
    forall|x: Value| #[trigger] x.tree() != t
}

/// Reads a literal back.
pub(crate) fn value_of(v: SborValue) -> (r: Option<Value>)
    ensures
        match r {
            Some(x) => x.tree() == sbor_tree(v),
            None => no_value(sbor_tree(v)),
        },
    decreases sbor_tree(v), 1nat,
{
    let ghost t = sbor_tree(v);
    let branch = branch_of(v);
    proof {
        assert forall|x: Value| (#[trigger] x.tree()) is Variant by {
            lemma_value_tree(x);
        }
    }
    match branch {
        Some(Branch::Variant(d, parts)) => {
            let mut fields = parts;
            let ghost ts = sbor_trees(parts@);
            assert(t == Tree::Variant(d, ts));
            if d == 4 {
                if fields.len() != 2 {
                    proof {
                        lemma_value_arity(t);
                    }
                    return None;
                }
                let local = fields.pop();
                let owner = fields.pop();
                match (owner, local) {
                    (Some(o), Some(l)) => {
                        assert(ts[0] == sbor_tree(o) && ts[1] == sbor_tree(l));
                        let owner = address_of(o);
                        let local = address_of(l);
                        match (owner, local) {
                            (Some(owner), Some(local)) => {
                                let x = Value::Key(SubstateKey { owner, local });
                                assert(x.tree()->Variant_1 =~= ts);
                                return Some(x);
                            },
                            _ => {
                                proof {
                                    lemma_value_arity(t);
                                    assert forall|x: Value| #[trigger] x.tree() != t by {
                                        if x.tree() == t {
                                            assert(x is Key);
                                            assert(ts[0] == bytes_tree(x->Key_0.owner@));
                                            assert(ts[1] == bytes_tree(x->Key_0.local@));
                                        }
                                    }
                                }
                                return None;
                            },
                        }
                    },
                    _ => {
                        return None;
                    },
                }
            }
            if fields.len() != 1 || d > 7 {
                proof {
                    lemma_value_arity(t);
                }
                return None;
            }
            match fields.pop() {
                None => None,
                Some(field) => {
                    assert(ts[0] == sbor_tree(field));
                    assert(ts =~= seq![sbor_tree(field)]);
                    assert(decreases_to!(t => t->Variant_1[0]));
                    if d == 6 || d == 7 {
                        let members = values_of(field);
                        match members {
                            Some(vs) => {
                                let x = if d == 6 {
                                    Value::Tuple(vs)
                                } else {
                                    Value::List(vs)
                                };
                                proof {
                                    lemma_value_tree(x);
                                }
                                Some(x)
                            },
                            None => {
                                proof {
                                    lemma_value_arity(t);
                                    assert forall|x: Value| #[trigger] x.tree() != t by {
                                        if x.tree() == t {
                                            lemma_value_tree(x);
                                            if x is Tuple {
                                                assert(ts[0] == Tree::List(
                                                    0x22u8,
                                                    value_trees(x->Tuple_0@),
                                                ));
                                            } else {
                                                assert(x is List);
                                                assert(ts[0] == Tree::List(
                                                    0x22u8,
                                                    value_trees(x->List_0@),
                                                ));
                                            }
                                        }
                                    }
                                }
                                None
                            },
                        }
                    } else {
                        let r = simple_value(d, field);
                        proof {
                            lemma_value_arity(t);
                            if r is Some {
                                assert(r->0.tree()->Variant_1 =~= ts);
                            }
                        }
                        r
                    }
                },
            }
        },
        _ => None,
    }
}

/// The kinds of literal and how many fields each has on the wire.
proof fn lemma_value_arity(t: Tree)
    ensures
        forall|x: Value| #[trigger]
            x.tree() == t ==> t is Variant && t->Variant_0 <= 7 && t->Variant_1.len() == (if x is Key {
                2nat
            } else {
                1nat
            }) && (t->Variant_0 == 4 <==> x is Key) && (t->Variant_0 == 6 <==> x is Tuple) && (
            t->Variant_0 == 7 <==> x is List),
{
    assert forall|x: Value| #[trigger]
        x.tree() == t implies t is Variant && t->Variant_0 <= 7 && t->Variant_1.len() == (if x is Key {
        2nat
    } else {
        1nat
    }) && (t->Variant_0 == 4 <==> x is Key) && (t->Variant_0 == 6 <==> x is Tuple) && (
    t->Variant_0 == 7 <==> x is List) by {
        lemma_value_tree(x);
    }
}

/// Reads a literal without members and with one field back.
fn simple_value(d: u8, field: SborValue) -> (r: Option<Value>)
    requires
        d <= 7,
        d != 4,
        d != 6,
        d != 7,
    ensures
        match r {
            Some(x) => x.tree() == Tree::Variant(d, seq![sbor_tree(field)]),
            None => no_value(Tree::Variant(d, seq![sbor_tree(field)])),
        },
{
    let ghost f = sbor_tree(field);
    let ghost t = Tree::Variant(d, seq![f]);
    proof {
        lemma_value_arity(t);
        assert(seq![f][0] == f);
        assert forall|x: Value| #[trigger] x.tree() == t implies match x {
            Value::U64(n) => d == 0 && f == Tree::U64(n),
            Value::U128(n) => d == 1 && f == Tree::U128(n),
            Value::Bytes(b) => d == 2 && f == bytes_tree(b@),
            Value::Address(a) => d == 3 && f == bytes_tree(a@),
            Value::Bucket { resource } => d == 5 && f == bytes_tree(resource@),
            _ => false,
        } by {
            assert(x.tree()->Variant_1[0] == f);
        }
    }
    if d == 0 {
        match scalar_of(field) {
            Some(Scalar::U64(x)) => Some(Value::U64(x)),
            _ => None,
        }
    } else if d == 1 {
        match scalar_of(field) {
            Some(Scalar::U128(x)) => Some(Value::U128(x)),
            _ => None,
        }
    } else if d == 2 {
        match bytes_of(field) {
            Some(b) => Some(Value::Bytes(b)),
            None => None,
        }
    } else if d == 3 {
        match address_of(field) {
            Some(a) => Some(Value::Address(a)),
            None => None,
        }
    } else {
        match address_of(field) {
            Some(a) => Some(Value::Bucket { resource: a }),
            None => None,
        }
    }
}

/// Reads a list of literals back.
pub(crate) fn values_of(v: SborValue) -> (r: Option<Vec<Value>>)
    ensures
        match r {
            Some(vs) => sbor_tree(v) == Tree::List(0x22u8, value_trees(vs@)),
            None => forall|vs: Seq<Value>|
                sbor_tree(v) != Tree::List(0x22u8, #[trigger] value_trees(vs)),
        },
    decreases sbor_tree(v), 0nat,
{
    let ghost t = sbor_tree(v);
    match branch_of(v) {
        Some(Branch::List(kind, items)) => {
            if kind != KIND_VARIANT {
                return None;
            }
            let ghost all = items@;
            let mut rest = reversed(items);
            let mut vs: Vec<Value> = Vec::new();
            while rest.len() > 0
                invariant
                    t == sbor_tree(v),
                    t == Tree::List(KIND_VARIANT, sbor_trees(all)),
                    vs@.len() + rest@.len() == all.len(),
                    rest@ == all.skip(vs@.len() as int).reverse(),
                    forall|j: int|
                        0 <= j < vs@.len() ==> sbor_tree(all[j]) == (#[trigger] vs@[j]).tree(),
                decreases rest.len(),
            {
                let ghost n = vs@.len() as int;
                match rest.pop() {
                    Some(item) => {
                        assert(item == all[n]);
                        assert(rest@ =~= all.skip(n + 1).reverse());
                        assert(sbor_trees(all)[n] == sbor_tree(item));
                        assert(decreases_to!(t => t->List_1[n]));
                        let x = value_of(item);
                        match x {
                            Some(x) => {
                                vs.push(x);
                            },
                            None => {
                                proof {
                                    assert forall|ws: Seq<Value>| t != Tree::List(
                                        0x22u8,
                                        #[trigger] value_trees(ws),
                                    ) by {
                                        if t == Tree::List(0x22u8, value_trees(ws)) {
                                            assert(sbor_trees(all) == value_trees(ws));
                                            assert(value_trees(ws)[n] == ws[n].tree());
                                        }
                                    }
                                }
                                return None;
                            },
                        }
                    },
                    None => {},
                }
            }
            assert(sbor_trees(all) =~= value_trees(vs@));
            Some(vs)
        },
        _ => None,
    }
}

/// A literal within `limit` levels takes at most twice as many on the wire.
pub proof fn lemma_value_nests(v: Value, limit: int)
    requires
        v.within(limit),
    ensures
        nests(v.tree(), 2 * limit + 1),
    decreases v, 1nat,
{
    match v {
        Value::Tuple(fields) => {
            lemma_values_nest(v, fields, limit);
        },
        Value::List(items) => {
            lemma_values_nest(v, items, limit);
        },
        _ => {
            let parts = v.tree()->Variant_1;
            assert forall|i: int| 0 <= i < parts.len() implies nests(
                #[trigger] parts[i],
                2 * limit,
            ) by {
                match v {
                    Value::Bytes(b) => {
                        lemma_bytes_nest(b@, 2 * limit);
                    },
                    Value::Address(a) => {
                        lemma_bytes_nest(a@, 2 * limit);
                    },
                    Value::Key(k) => {
                        lemma_bytes_nest(k.owner@, 2 * limit);
                        lemma_bytes_nest(k.local@, 2 * limit);
                    },
                    Value::Bucket { resource } => {
                        lemma_bytes_nest(resource@, 2 * limit);
                    },
                    _ => {},
                }
            }
        },
    }
}

proof fn lemma_values_nest(v: Value, members: Vec<Value>, limit: int)
    requires
        v == Value::Tuple(members) || v == Value::List(members),
        v.within(limit),
    ensures
        nests(v.tree(), 2 * limit + 1),
    decreases v, 0nat,
{
    lemma_value_tree(v);
    let inner = Tree::List(0x22u8, value_trees(members@));
    assert forall|i: int| 0 <= i < members@.len() implies nests(
        #[trigger] value_trees(members@)[i],
        2 * limit - 1,
    ) by {
        if v is Tuple {
            assert(decreases_to!(v => v->Tuple_0));
        } else {
            assert(decreases_to!(v => v->List_0));
        }
        assert(decreases_to!(members => members[i]));
        assert(members@[i].within(limit - 1));
        lemma_value_nests(members@[i], limit - 1);
    }
    assert(nests(inner, 2 * limit));
    assert(v.tree()->Variant_1[0] == inner);
}

/// A byte string takes two levels on the wire.
pub proof fn lemma_bytes_nest(s: Seq<u8>, limit: int)
    requires
        limit >= 2,
    ensures
        nests(bytes_tree(s), limit),
        plain(bytes_tree(s)),
{
    let m = s.map_values(|b: u8| Tree::U8(b));
    assert forall|i: int| 0 <= i < m.len() implies nests(#[trigger] m[i], limit - 1) && plain(m[i]) by {
        assert(m[i] == Tree::U8(s[i]));
    }
}

/// Everything in a literal's wire form is of a known kind.
pub proof fn lemma_value_plain(v: Value)
    ensures
        plain(v.tree()),
    decreases v,
{
    lemma_value_tree(v);
    let parts = v.tree()->Variant_1;
    assert forall|i: int| 0 <= i < parts.len() implies plain(#[trigger] parts[i]) by {
        match v {
            Value::Bytes(b) => {
                lemma_bytes_nest(b@, 2);
            },
            Value::Address(a) => {
                lemma_bytes_nest(a@, 2);
            },
            Value::Key(k) => {
                lemma_bytes_nest(k.owner@, 2);
                lemma_bytes_nest(k.local@, 2);
            },
            Value::Bucket { resource } => {
                lemma_bytes_nest(resource@, 2);
            },
            Value::Tuple(fields) => {
                let inner = value_trees(fields@);
                assert forall|j: int| 0 <= j < inner.len() implies plain(#[trigger] inner[j]) by {
                    assert(decreases_to!(v => v->Tuple_0));
                    assert(decreases_to!(fields => fields[j]));
                    lemma_value_plain(fields@[j]);
                }
            },
            Value::List(items) => {
                let inner = value_trees(items@);
                assert forall|j: int| 0 <= j < inner.len() implies plain(#[trigger] inner[j]) by {
                    assert(decreases_to!(v => v->List_0));
                    assert(decreases_to!(items => items[j]));
                    lemma_value_plain(items@[j]);
                }
            },
            _ => {},
        }
    }
}

} // verus!
