//! Wire forms of numbers, addresses and vectors, and of records over them.
use vstd::prelude::*;

use crate::bridge::sbor_value::{plain, sbor_tree, sbor_trees, SborValue, Tree, KIND_LIST};
use crate::bridge::value::{address_of, bytes_tree, bytes_value};
use crate::bridge::wire::{
    lemma_list_plain, list_from_wire, list_to_wire, list_tree, record, record_of, take2, take3,
    Wire,
};

verus! {

impl Wire for [u8; 16] {
    open spec fn tree(self) -> Tree {
        bytes_tree(self@)
    }

    open spec fn wire_kind() -> u8 {
        KIND_LIST
    }

    proof fn law_kind(x: Self) {
        assert(x.tree() == bytes_tree(x@));
    }

    proof fn law_plain(x: Self) {
        assert(x.tree() == bytes_tree(x@));
        let items = x.tree()->List_1;
        assert forall|i: int| 0 <= i < items.len() implies plain(#[trigger] items[i]) by {
            assert(items[i] == Tree::U8(x@[i]));
        }
    }

    fn kind() -> (k: u8) {
        KIND_LIST
    }

    fn to_wire(&self) -> (v: SborValue) {
        assert(self.tree() == bytes_tree(self@));
        bytes_value(self.as_slice())
    }

    fn from_wire(v: SborValue) -> (r: Option<Self>) {
        proof {
            assert forall|x: [u8; 16]| #[trigger] x.tree() == bytes_tree(x@) by {}
        }
        address_of(v)
    }
}

impl<T: Wire> Wire for Vec<T> {
    open spec fn tree(self) -> Tree {
        list_tree(self@)
    }

    open spec fn wire_kind() -> u8 {
        KIND_LIST
    }

    proof fn law_kind(x: Self) {
        assert(x.tree() == list_tree(x@));
    }

    proof fn law_plain(x: Self) {
        assert(x.tree() == list_tree(x@));
        lemma_list_plain(x@);
    }

    fn kind() -> (k: u8) {
        KIND_LIST
    }

    fn to_wire(&self) -> (v: SborValue) {
        assert(self.tree() == list_tree(self@));
        list_to_wire(self)
    }

    fn from_wire(v: SborValue) -> (r: Option<Self>) {
        proof {
            assert forall|x: Vec<T>| #[trigger] x.tree() == list_tree(x@) by {}
        }
        list_from_wire::<T>(v)
    }
}

/// The form of a record of two.
pub open spec fn form2<A: Wire, B: Wire>(a: A, b: B) -> Tree {
    Tree::Record(seq![a.tree(), b.tree()])
}

/// The form of a record of three.
pub open spec fn form3<A: Wire, B: Wire, C: Wire>(a: A, b: B, c: C) -> Tree {
    Tree::Record(seq![a.tree(), b.tree(), c.tree()])
}

/// Writes a record of two.
pub(crate) fn write2<A: Wire, B: Wire>(a: &A, b: &B) -> (v: SborValue)
    ensures
        sbor_tree(v) == form2(*a, *b),
{
    let mut fields: Vec<SborValue> = Vec::new();
    fields.push(a.to_wire());
    fields.push(b.to_wire());
    assert(sbor_trees(fields@) =~= seq![a.tree(), b.tree()]);
    record(fields)
}

/// Writes a record of three.
pub(crate) fn write3<A: Wire, B: Wire, C: Wire>(a: &A, b: &B, c: &C) -> (v: SborValue)
    ensures
        sbor_tree(v) == form3(*a, *b, *c),
{
    let mut fields: Vec<SborValue> = Vec::new();
    fields.push(a.to_wire());
    fields.push(b.to_wire());
    fields.push(c.to_wire());
    assert(sbor_trees(fields@) =~= seq![a.tree(), b.tree(), c.tree()]);
    record(fields)
}

/// Reads a record of two back.
pub(crate) fn read2<A: Wire, B: Wire>(v: SborValue) -> (r: Option<(A, B)>)
    ensures
        match r {
            Some((a, b)) => sbor_tree(v) == form2(a, b),
            None => forall|a: A, b: B| sbor_tree(v) != #[trigger] form2(a, b),
        },
{
    let ghost t = sbor_tree(v);
    match record_of(v) {
        None => None,
        Some(fields) => {
            let ghost ts = sbor_trees(fields@);
            match take2(fields) {
                None => {
                    proof {
                        assert forall|a: A, b: B| t != #[trigger] form2(a, b) by {
                            assert(form2(a, b)->Record_0.len() == 2);
                        }
                    }
                    None
                },
                Some((x, y)) => {
                    let ghost tx = sbor_tree(x);
                    let ghost ty = sbor_tree(y);
                    match (A::from_wire(x), B::from_wire(y)) {
                        (Some(a), Some(b)) => {
                            assert(ts =~= seq![a.tree(), b.tree()]);
                            Some((a, b))
                        },
                        _ => {
                            proof {
                                assert forall|a: A, b: B| t != #[trigger] form2(a, b) by {
                                    assert(form2(a, b)->Record_0[0] == a.tree());
                                    assert(form2(a, b)->Record_0[1] == b.tree());
                                    assert(ts[0] == tx && ts[1] == ty);
                                }
                            }
                            None
                        },
                    }
                },
            }
        },
    }
}

/// Reads a record of three back.
pub(crate) fn read3<A: Wire, B: Wire, C: Wire>(v: SborValue) -> (r: Option<(A, B, C)>)
    ensures
        match r {
            Some((a, b, c)) => sbor_tree(v) == form3(a, b, c),
            None => forall|a: A, b: B, c: C| sbor_tree(v) != #[trigger] form3(a, b, c),
        },
{
    let ghost t = sbor_tree(v);
    match record_of(v) {
        None => None,
        Some(fields) => {
            let ghost ts = sbor_trees(fields@);
            match take3(fields) {
                None => {
                    proof {
                        assert forall|a: A, b: B, c: C| t != #[trigger] form3(a, b, c) by {
                            assert(form3(a, b, c)->Record_0.len() == 3);
                        }
                    }
                    None
                },
                Some((x, y, z)) => {
                    let ghost tx = sbor_tree(x);
                    let ghost ty = sbor_tree(y);
                    let ghost tz = sbor_tree(z);
                    match (A::from_wire(x), B::from_wire(y), C::from_wire(z)) {
                        (Some(a), Some(b), Some(c)) => {
                            assert(ts =~= seq![a.tree(), b.tree(), c.tree()]);
                            Some((a, b, c))
                        },
                        _ => {
                            proof {
                                assert forall|a: A, b: B, c: C| t != #[trigger] form3(a, b, c) by {
                                    assert(form3(a, b, c)->Record_0[0] == a.tree());
                                    assert(form3(a, b, c)->Record_0[1] == b.tree());
                                    assert(form3(a, b, c)->Record_0[2] == c.tree());
                                    assert(ts[0] == tx && ts[1] == ty && ts[2] == tz);
                                }
                            }
                            None
                        },
                    }
                },
            }
        },
    }
}

} // verus!
