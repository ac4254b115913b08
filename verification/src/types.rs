//! Identities shared across the library: transactions, owners, cells and
//! declared keys.
use vstd::prelude::*;

use crate::bytes::{be_value, lemma_be_canonical, lemma_be_order};
use crate::order::{
    lemma_lex_asymmetric, lemma_lex_irreflexive, lemma_lex_total, lemma_lex_transitive, lex_lt,
    lex_lt_at, rank_bytes, OrdKey, Rank,
};
use crate::storage::entry_key::{lemma_lex_head, lemma_lex_tail};

verus! {

/// The identity of a transaction.
#[derive(Clone, Copy, Debug, PartialEq, Eq, PartialOrd, Ord, Hash)]
pub struct TxHash(pub [u8; 32]);

impl OrdKey for TxHash {
    open spec fn before(self, other: Self) -> bool {
        lex_lt(self.0@, other.0@)
    }

    proof fn law_irreflexive(a: Self) {
        lemma_lex_irreflexive(a.0@);
    }

    proof fn law_transitive(a: Self, b: Self, c: Self) {
        lemma_lex_transitive(a.0@, b.0@, c.0@);
    }

    proof fn law_total(a: Self, b: Self) {
        lemma_lex_total(a.0@, b.0@);
        if a.0@ == b.0@ {
            assert(a.0 =~= b.0);
        }
    }

    fn rank(&self, other: &Self) -> (r: Rank) {
        self.0.rank(&other.0)
    }
}

/// A cell of state: the owner whose prefix routes it, and its local half.
#[derive(Clone, Copy, Debug, PartialEq, Eq, PartialOrd, Ord, Hash)]
pub struct SubstateKey {
    /// The owner prefix.
    pub owner: [u8; 16],
    /// The key under the owner.
    pub local: [u8; 16],
}

impl SubstateKey {
    /// Owner bytes followed by local bytes.
    pub open spec fn bytes(self) -> Seq<u8> {
        self.owner@ + self.local@
    }

    /// The 32 identity bytes, owner first.
    pub fn to_bytes(&self) -> (b: Vec<u8>)
        ensures
            b@ == self.bytes(),
            b@.len() == 32,
    {
        let mut b: Vec<u8> = Vec::new();
        b.extend_from_slice(&self.owner);
        b.extend_from_slice(&self.local);
        assert(b@ =~= self.bytes());
        b
    }
}

/// The identity bytes name one cell.
pub proof fn lemma_substate_bytes_injective(a: SubstateKey, b: SubstateKey)
    requires
        a.bytes() == b.bytes(),
    ensures
        a == b,
{
    assert(a.owner@ =~= a.bytes().take(16));
    assert(b.owner@ =~= b.bytes().take(16));
    assert(a.local@ =~= a.bytes().skip(16));
    assert(b.local@ =~= b.bytes().skip(16));
    assert(a.owner =~= b.owner);
    assert(a.local =~= b.local);
}

impl OrdKey for SubstateKey {
    open spec fn before(self, other: Self) -> bool {
        lex_lt(self.bytes(), other.bytes())
    }

    proof fn law_irreflexive(a: Self) {
        lemma_lex_irreflexive(a.bytes());
    }

    proof fn law_transitive(a: Self, b: Self, c: Self) {
        lemma_lex_transitive(a.bytes(), b.bytes(), c.bytes());
    }

    proof fn law_total(a: Self, b: Self) {
        lemma_lex_total(a.bytes(), b.bytes());
        if a.bytes() == b.bytes() {
            lemma_substate_bytes_injective(a, b);
        }
    }

    fn rank(&self, other: &Self) -> (r: Rank) {
        let a = self.to_bytes();
        let b = other.to_bytes();
        let r = rank_bytes(&a, &b);
        proof {
            if r is Same {
                lemma_substate_bytes_injective(*self, *other);
            }
        }
        r
    }
}

/// A key admission conflicts on: a whole node, a whole owner prefix, or one
/// cell under an owner.
#[derive(Clone, Copy, Debug, PartialEq, Eq, PartialOrd, Ord, Hash)]
pub enum DeclaredKey {
    /// A whole node, by its identity.
    Node {
        /// The node's identity bytes.
        node: [u8; 30],
    },
    /// An owner prefix, or one cell under it.
    Prefix {
        /// The owner prefix.
        owner: [u8; 16],
        /// The cell under the owner; absent for the whole prefix.
        local: Option<[u8; 16]>,
    },
}

impl DeclaredKey {
    /// The key of a whole node.
    pub fn node(node: [u8; 30]) -> (k: Self)
        ensures
            k == (DeclaredKey::Node { node }),
    {
        DeclaredKey::Node { node }
    }

    /// The key of a whole owner prefix.
    pub fn prefix(owner: [u8; 16]) -> (k: Self)
        ensures
            k == (DeclaredKey::Prefix { owner, local: None }),
    {
        DeclaredKey::Prefix { owner, local: None }
    }

    /// The key of one cell under an owner.
    pub fn substate(owner: [u8; 16], local: [u8; 16]) -> (k: Self)
        ensures
            k == (DeclaredKey::Prefix { owner, local: Some(local) }),
    {
        DeclaredKey::Prefix { owner, local: Some(local) }
    }

    /// A byte string that names the key: nodes first, then prefixes, and a
    /// whole prefix ahead of the cells under it.
    pub open spec fn code(self) -> Seq<u8> {
        match self {
            DeclaredKey::Node { node } => seq![0u8] + node@,
            DeclaredKey::Prefix { owner, local } => match local {
                None => seq![1u8] + owner@,
                Some(l) => seq![1u8] + owner@ + l@,
            },
        }
    }

    fn to_code(&self) -> (b: Vec<u8>)
        ensures
            b@ == self.code(),
    {
        let mut b: Vec<u8> = Vec::new();
        match self {
            DeclaredKey::Node { node } => {
                b.push(0);
                b.extend_from_slice(node);
            },
            DeclaredKey::Prefix { owner, local } => {
                b.push(1);
                b.extend_from_slice(owner);
                match local {
                    None => {},
                    Some(l) => {
                        b.extend_from_slice(l);
                    },
                }
            },
        }
        assert(b@ =~= self.code());
        b
    }
}

/// The code names one declared key.
pub proof fn lemma_declared_code_injective(a: DeclaredKey, b: DeclaredKey)
    requires
        a.code() == b.code(),
    ensures
        a == b,
{
    assert(a.code()[0] == b.code()[0]);
    match (a, b) {
        (DeclaredKey::Node { node: m }, DeclaredKey::Node { node: n }) => {
            assert(m@ =~= a.code().skip(1));
            assert(n@ =~= b.code().skip(1));
            assert(m =~= n);
            assert(a == b);
        },
        (
            DeclaredKey::Prefix { owner: o, local: l },
            DeclaredKey::Prefix { owner: p, local: m },
        ) => {
            assert(a.code().len() == b.code().len());
            assert(o@ =~= a.code().subrange(1, 17));
            assert(p@ =~= b.code().subrange(1, 17));
            assert(o =~= p);
            match (l, m) {
                (Some(x), Some(y)) => {
                    assert(x@ =~= a.code().skip(17));
                    assert(y@ =~= b.code().skip(17));
                    assert(x =~= y);
                },
                (None, None) => {},
                _ => {},
            }
            assert(l == m);
            assert(a == b);
        },
        (DeclaredKey::Node { .. }, DeclaredKey::Prefix { .. }) => {
            assert(a.code()[0] == 0u8 && b.code()[0] == 1u8);
        },
        (DeclaredKey::Prefix { .. }, DeclaredKey::Node { .. }) => {
            assert(a.code()[0] == 1u8 && b.code()[0] == 0u8);
        },
    }
}

impl OrdKey for DeclaredKey {
    open spec fn before(self, other: Self) -> bool {
        lex_lt(self.code(), other.code())
    }

    proof fn law_irreflexive(a: Self) {
        lemma_lex_irreflexive(a.code());
    }

    proof fn law_transitive(a: Self, b: Self, c: Self) {
        lemma_lex_transitive(a.code(), b.code(), c.code());
    }

    proof fn law_total(a: Self, b: Self) {
        lemma_lex_total(a.code(), b.code());
        if a.code() == b.code() {
            lemma_declared_code_injective(a, b);
        }
    }

    fn rank(&self, other: &Self) -> (r: Rank) {
        let a = self.to_code();
        let b = other.to_code();
        let r = rank_bytes(&a, &b);
        proof {
            if r is Same {
                lemma_declared_code_injective(*self, *other);
            }
        }
        r
    }
}

/// Byte strings of one length are ordered as the numbers that they are, highest
/// byte first.
proof fn lemma_bytes_order(a: Seq<u8>, b: Seq<u8>)
    requires
        a.len() == b.len(),
    ensures
        lex_lt(a, b) <==> be_value(a) < be_value(b),
{
    lemma_be_canonical(a);
    lemma_be_canonical(b);
    lemma_be_order(be_value(a), be_value(b), a.len());
}

/// Identities ascend as the numbers that their bytes are, highest byte first: a
/// transaction by its hash, a cell by its owner's bytes and its local ones behind
/// them.
pub proof fn law_identities_ascend_as_numbers(a: TxHash, b: TxHash, x: SubstateKey, y: SubstateKey)
    ensures
        a.before(b) <==> be_value(a.0@) < be_value(b.0@),
        x.before(y) <==> be_value(x.owner@ + x.local@) < be_value(y.owner@ + y.local@),
{
    lemma_bytes_order(a.0@, b.0@);
    lemma_bytes_order(x.owner@ + x.local@, y.owner@ + y.local@);
}

/// Declared keys ascend by kind: every node before every prefix, nodes by their
/// bytes, prefixes by their owner's, and of one owner the whole prefix before its
/// cells, which go by their own bytes.
pub proof fn law_declared_keys_ascend_by_kind(
    m: [u8; 30],
    n: [u8; 30],
    o: [u8; 16],
    p: [u8; 16],
    l: Option<[u8; 16]>,
    k: Option<[u8; 16]>,
)
    ensures
        ({
            let node = DeclaredKey::Node { node: m };
            let other = DeclaredKey::Node { node: n };
            let here = DeclaredKey::Prefix { owner: o, local: l };
            let there = DeclaredKey::Prefix { owner: p, local: k };
            &&& node.before(here) && !here.before(node)
            &&& node.before(other) <==> be_value(m@) < be_value(n@)
            &&& be_value(o@) < be_value(p@) ==> here.before(there)
            &&& o == p && l is None && k is Some ==> here.before(there)
            &&& o == p && l is Some && k is Some ==> (here.before(there) <==> be_value(l->0@)
                < be_value(k->0@))
        }),
{
    let node = DeclaredKey::Node { node: m };
    let other = DeclaredKey::Node { node: n };
    let here = DeclaredKey::Prefix { owner: o, local: l };
    let there = DeclaredKey::Prefix { owner: p, local: k };
    assert(lex_lt_at(node.code(), here.code(), 0));
    lemma_lex_asymmetric(node.code(), here.code());
    lemma_bytes_order(m@, n@);
    lemma_lex_head(seq![0u8], m@, n@);
    lemma_bytes_order(o@, p@);
    lemma_lex_head(seq![1u8], o@, p@);
    let ls: Seq<u8> = match l {
        Some(x) => x@,
        None => Seq::empty(),
    };
    let ks: Seq<u8> = match k {
        Some(x) => x@,
        None => Seq::empty(),
    };
    assert(here.code() =~= seq![1u8] + o@ + ls);
    assert(there.code() =~= seq![1u8] + p@ + ks);
    if be_value(o@) < be_value(p@) {
        lemma_lex_tail(seq![1u8] + o@, ls, seq![1u8] + p@, ks);
    }
    if o == p {
        lemma_lex_head(seq![1u8] + o@, ls, ks);
        if l is None && k is Some {
            assert(lex_lt_at(ls, ks, 0));
        }
        if l is Some && k is Some {
            lemma_bytes_order(ls, ks);
        }
    }
}

} // verus!
