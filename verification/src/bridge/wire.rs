//! Wire forms: how a type is written as a dynamic value and read back.
use vstd::prelude::*;

use crate::bridge::sbor_value::{
    branch_of, branch_value, kind_of, nests, plain, sbor_tree, sbor_trees, scalar_of, scalar_value,
    Branch, SborValue, Scalar, Tree, KIND_TEXT, KIND_U8, KIND_LIST, KIND_RECORD, KIND_VARIANT,
};
use crate::bridge::value::{
    lemma_value_plain, lemma_value_tree, value_of, wire_value, Value,
};
use crate::list::reversed;

verus! {

/// The element kinds that arrays here declare.
pub open spec fn known_kind(k: u8) -> bool {
    k == KIND_U8 || k == KIND_TEXT || k == KIND_LIST || k == KIND_RECORD || k == KIND_VARIANT
}

/// A type with one canonical wire form.
pub trait Wire: Sized {
    /// The wire form.
    spec fn tree(self) -> Tree;

    /// The value kind that every wire form of the type has.
    spec fn wire_kind() -> u8;

    /// Every wire form has the type's value kind.
    proof fn law_kind(x: Self)
        ensures
            kind_of(x.tree()) == Some(Self::wire_kind()),
    ;

    /// No wire form holds anything of a foreign kind.
    proof fn law_plain(x: Self)
        ensures
            plain(x.tree()),
    ;

    /// The value kind of the type's wire forms.
    fn kind() -> (k: u8)
        ensures
            k == Self::wire_kind(),
            known_kind(k),
    ;

    /// Writes the wire form.
    fn to_wire(&self) -> (v: SborValue)
        ensures
            sbor_tree(v) == self.tree(),
    ;

    /// Reads the wire form back; nothing, exactly when it is none.
    fn from_wire(v: SborValue) -> (r: Option<Self>)
        ensures
            match r {
                Some(x) => x.tree() == sbor_tree(v),
                None => forall|x: Self| #[trigger] x.tree() != sbor_tree(v),
            },
    ;
}

/// The wire forms of a sequence.
pub open spec fn trees<T: Wire>(s: Seq<T>) -> Seq<Tree> {
    Seq::new(s.len(), |i: int| s[i].tree())
}

/// The wire form of a vector.
pub open spec fn list_tree<T: Wire>(s: Seq<T>) -> Tree {
    Tree::List(T::wire_kind(), trees(s))
}

/// Writes a vector.
pub(crate) fn list_to_wire<T: Wire>(items: &Vec<T>) -> (v: SborValue)
    ensures
        sbor_tree(v) == list_tree(items@),
{
    let mut out: Vec<SborValue> = Vec::new();
    let mut i: usize = 0;
    while i < items.len()
        invariant
            i <= items.len(),
            out@.len() == i,
            forall|j: int| 0 <= j < i ==> sbor_tree(#[trigger] out@[j]) == items@[j].tree(),
        decreases items.len() - i,
    {
        out.push(items[i].to_wire());
        i = i + 1;
    }
    assert(sbor_trees(out@) =~= trees(items@));
    branch_value(Branch::List(T::kind(), out))
}

/// Reads a vector back.
pub(crate) fn list_from_wire<T: Wire>(v: SborValue) -> (r: Option<Vec<T>>)
    ensures
        match r {
            Some(s) => list_tree(s@) == sbor_tree(v),
            None => forall|s: Seq<T>| #[trigger] list_tree(s) != sbor_tree(v),
        },
{
    let ghost t = sbor_tree(v);
    match branch_of(v) {
        Some(Branch::List(kind, items)) => {
            if kind != T::kind() {
                return None;
            }
            let ghost all = items@;
            let mut rest = reversed(items);
            let mut out: Vec<T> = Vec::new();
            while rest.len() > 0
                invariant
                    t == sbor_tree(v),
                    t == Tree::List(T::wire_kind(), sbor_trees(all)),
                    out@.len() + rest@.len() == all.len(),
                    rest@ == all.skip(out@.len() as int).reverse(),
                    forall|j: int|
                        0 <= j < out@.len() ==> sbor_tree(all[j]) == (#[trigger] out@[j]).tree(),
                decreases rest.len(),
            {
                let ghost n = out@.len() as int;
                match rest.pop() {
                    Some(item) => {
                        assert(item == all[n]);
                        assert(rest@ =~= all.skip(n + 1).reverse());
                        assert(sbor_trees(all)[n] == sbor_tree(item));
                        match T::from_wire(item) {
                            Some(x) => {
                                out.push(x);
                            },
                            None => {
                                proof {
                                    assert forall|s: Seq<T>| #[trigger] list_tree(s) != t by {
                                        if list_tree(s) == t {
                                            assert(trees(s) == sbor_trees(all));
                                            assert(trees(s)[n] == s[n].tree());
                                        }
                                    }
                                }
                                return None;
                            },
                        }
                    },
                    None => {},
                }
            }
            assert(sbor_trees(all) =~= trees(out@));
            Some(out)
        },
        _ => None,
    }
}

/// Each member of a list sits one level below it.
pub proof fn lemma_list_nests<T: Wire>(s: Seq<T>, limit: int)
    requires
        limit >= 1,
        forall|i: int| 0 <= i < s.len() ==> nests((#[trigger] s[i]).tree(), limit - 1),
    ensures
        nests(list_tree(s), limit),
{
    assert forall|i: int| 0 <= i < trees(s).len() implies nests(#[trigger] trees(s)[i], limit - 1) by {
        assert(trees(s)[i] == s[i].tree());
    }
}

/// The wire form of a vector holds nothing foreign.
pub proof fn lemma_list_plain<T: Wire>(s: Seq<T>)
    ensures
        plain(list_tree(s)),
{
    assert forall|i: int| 0 <= i < trees(s).len() implies plain(#[trigger] trees(s)[i]) by {
        assert(trees(s)[i] == s[i].tree());
        T::law_plain(s[i]);
    }
}

impl Wire for String {
    open spec fn tree(self) -> Tree {
        Tree::Text(self@)
    }

    open spec fn wire_kind() -> u8 {
        KIND_TEXT
    }

    proof fn law_kind(x: Self) {
    }

    proof fn law_plain(x: Self) {
    }

    fn kind() -> (k: u8) {
        KIND_TEXT
    }

    fn to_wire(&self) -> (v: SborValue) {
        let text: String = self.clone();
        assert(self.tree() == Tree::Text(text@));
        scalar_value(Scalar::Text(text))
    }

    fn from_wire(v: SborValue) -> (r: Option<Self>) {
        match scalar_of(v) {
            Some(Scalar::Text(s)) => Some(s),
            _ => None,
        }
    }
}

impl Wire for Value {
    open spec fn tree(self) -> Tree {
        Value::tree(self)
    }

    open spec fn wire_kind() -> u8 {
        KIND_VARIANT
    }

    proof fn law_kind(x: Self) {
        lemma_value_tree(x);
    }

    proof fn law_plain(x: Self) {
        lemma_value_plain(x);
    }

    fn kind() -> (k: u8) {
        KIND_VARIANT
    }

    fn to_wire(&self) -> (v: SborValue) {
        assert(<Value as Wire>::tree(*self) == Value::tree(*self));
        wire_value(self)
    }

    fn from_wire(v: SborValue) -> (r: Option<Self>) {
        proof {
            assert forall|x: Value| #[trigger] <Value as Wire>::tree(x) == Value::tree(x) by {}
        }
       value_of(v)
    }
}

/// Writes a 16-bit number.
pub(crate) fn u16_value(x: u16) -> (v: SborValue)
    ensures
        sbor_tree(v) == Tree::U16(x),
{
    scalar_value(Scalar::U16(x))
}

/// Writes a 32-bit number.
pub(crate) fn u32_value(x: u32) -> (v: SborValue)
    ensures
        sbor_tree(v) == Tree::U32(x),
{
    scalar_value(Scalar::U32(x))
}

/// Writes a 128-bit number.
pub(crate) fn u128_value(x: u128) -> (v: SborValue)
    ensures
        sbor_tree(v) == Tree::U128(x),
{
    scalar_value(Scalar::U128(x))
}

/// Reads a 16-bit number back.
pub(crate) fn u16_of(v: SborValue) -> (r: Option<u16>)
    ensures
        match r {
            Some(x) => sbor_tree(v) == Tree::U16(x),
            None => !(sbor_tree(v) is U16),
        },
{
    match scalar_of(v) {
        Some(Scalar::U16(x)) => Some(x),
        _ => None,
    }
}

/// Reads a 32-bit number back.
pub(crate) fn u32_of(v: SborValue) -> (r: Option<u32>)
    ensures
        match r {
            Some(x) => sbor_tree(v) == Tree::U32(x),
            None => !(sbor_tree(v) is U32),
        },
{
    match scalar_of(v) {
        Some(Scalar::U32(x)) => Some(x),
        _ => None,
    }
}

/// Reads a 128-bit number back.
pub(crate) fn u128_of(v: SborValue) -> (r: Option<u128>)
    ensures
        match r {
            Some(x) => sbor_tree(v) == Tree::U128(x),
            None => !(sbor_tree(v) is U128),
        },
{
    match scalar_of(v) {
        Some(Scalar::U128(x)) => Some(x),
        _ => None,
    }
}

/// Writes a variant without fields.
pub(crate) fn variant0(d: u8) -> (v: SborValue)
    ensures
        sbor_tree(v) == Tree::Variant(d, Seq::<Tree>::empty()),
{
    let fields: Vec<SborValue> = Vec::new();
    assert(sbor_trees(fields@) =~= Seq::<Tree>::empty());
    branch_value(Branch::Variant(d, fields))
}

/// Writes a variant with three fields.
pub(crate) fn variant3(d: u8, a: SborValue, b: SborValue, c: SborValue) -> (v: SborValue)
    ensures
        sbor_tree(v) == Tree::Variant(d, seq![sbor_tree(a), sbor_tree(b), sbor_tree(c)]),
{
    let mut fields: Vec<SborValue> = Vec::new();
    fields.push(a);
    fields.push(b);
    fields.push(c);
    assert(sbor_trees(fields@) =~= seq![sbor_tree(a), sbor_tree(b), sbor_tree(c)]);
    branch_value(Branch::Variant(d, fields))
}

/// Writes a record.
pub(crate) fn record(fields: Vec<SborValue>) -> (v: SborValue)
    ensures
        sbor_tree(v) == Tree::Record(sbor_trees(fields@)),
{
    branch_value(Branch::Record(fields))
}

/// Takes a variant apart.
pub(crate) fn variant_of(v: SborValue) -> (r: Option<(u8, Vec<SborValue>)>)
    ensures
        match r {
            Some((d, fields)) => sbor_tree(v) == Tree::Variant(d, sbor_trees(fields@)),
            None => !(sbor_tree(v) is Variant),
        },
{
    match branch_of(v) {
        Some(Branch::Variant(d, fields)) => Some((d, fields)),
        _ => None,
    }
}

/// Takes a record apart.
pub(crate) fn record_of(v: SborValue) -> (r: Option<Vec<SborValue>>)
    ensures
        match r {
            Some(fields) => sbor_tree(v) == Tree::Record(sbor_trees(fields@)),
            None => !(sbor_tree(v) is Record),
        },
{
    match branch_of(v) {
        Some(Branch::Record(fields)) => Some(fields),
        _ => None,
    }
}

/// The only field.
pub(crate) fn take1(fields: Vec<SborValue>) -> (r: Option<SborValue>)
    ensures
        match r {
            Some(a) => sbor_trees(fields@) == seq![sbor_tree(a)],
            None => fields@.len() != 1,
        },
{
    if fields.len() != 1 {
        return None;
    }
    let mut rest = fields;
    let a = rest.pop();
    proof {
        if a is Some {
            assert(sbor_trees(fields@) =~= seq![sbor_tree(a->0)]);
        }
    }
    a
}

/// The only two fields.
pub(crate) fn take2(fields: Vec<SborValue>) -> (r: Option<(SborValue, SborValue)>)
    ensures
        match r {
            Some((a, b)) => sbor_trees(fields@) == seq![sbor_tree(a), sbor_tree(b)],
            None => fields@.len() != 2,
        },
{
    if fields.len() != 2 {
        return None;
    }
    let mut rest = fields;
    let b = rest.pop();
    let a = rest.pop();
    match (a, b) {
        (Some(a), Some(b)) => {
            assert(sbor_trees(fields@) =~= seq![sbor_tree(a), sbor_tree(b)]);
            Some((a, b))
        },
        _ => None,
    }
}

/// The only three fields.
pub(crate) fn take3(fields: Vec<SborValue>) -> (r: Option<(SborValue, SborValue, SborValue)>)
    ensures
        match r {
            Some((a, b, c)) => sbor_trees(fields@) == seq![
                sbor_tree(a),
                sbor_tree(b),
                sbor_tree(c),
            ],
            None => fields@.len() != 3,
        },
{
    if fields.len() != 3 {
        return None;
    }
    let mut rest = fields;
    let c = rest.pop();
    let b = rest.pop();
    let a = rest.pop();
    match (a, b, c) {
        (Some(a), Some(b), Some(c)) => {
            assert(sbor_trees(fields@) =~= seq![sbor_tree(a), sbor_tree(b), sbor_tree(c)]);
            Some((a, b, c))
        },
        _ => None,
    }
}

} // verus!
