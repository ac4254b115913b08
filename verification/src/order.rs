//! Total orders on keys, and the lexicographic order on byte strings.
use vstd::prelude::*;

verus! {

/// How one key stands to another in a total order.
#[derive(Clone, Copy, Debug, PartialEq, Eq, Structural)]
pub enum Rank {
    /// The first key comes strictly earlier.
    Before,
    /// The two keys are the same.
    Same,
    /// The first key comes strictly later.
    After,
}

/// A key with a strict total order that agrees with equality.
pub trait OrdKey: Copy + Sized {
    /// `self` comes strictly before `other`.
    spec fn before(self, other: Self) -> bool;

    /// No key comes before itself.
    proof fn law_irreflexive(a: Self)
        ensures
            !a.before(a),
    ;

    /// The order is transitive.
    proof fn law_transitive(a: Self, b: Self, c: Self)
        requires
            a.before(b),
            b.before(c),
        ensures
            a.before(c),
    ;

    /// Any two keys are the same or ordered one way.
    proof fn law_total(a: Self, b: Self)
        ensures
            a == b || a.before(b) || b.before(a),
    ;

    /// Decides how `self` stands to `other`.
    fn rank(&self, other: &Self) -> (r: Rank)
        ensures
            match r {
                Rank::Before => self.before(*other),
                Rank::Same => *self == *other,
                Rank::After => other.before(*self),
            },
    ;
}

/// `a` and `b` agree below `i`, and at `i` either `a` has ended or its byte is
/// the smaller one.
pub open spec fn lex_lt_at(a: Seq<u8>, b: Seq<u8>, i: int) -> bool {
    &&& 0 <= i <= a.len()
    &&& i < b.len()
    &&& forall|j: int| 0 <= j < i ==> a[j] == b[j]
    &&& i == a.len() || a[i] < b[i]
}

/// The strict lexicographic order on byte strings: a proper prefix comes
/// first, otherwise the first differing byte decides.
pub open spec fn lex_lt(a: Seq<u8>, b: Seq<u8>) -> bool {
    exists|i: int| lex_lt_at(a, b, i)
}

/// No byte string comes before itself.
pub proof fn lemma_lex_irreflexive(a: Seq<u8>)
    ensures
        !lex_lt(a, a),
{
}

/// The lexicographic order is transitive.
pub proof fn lemma_lex_transitive(a: Seq<u8>, b: Seq<u8>, c: Seq<u8>)
    requires
        lex_lt(a, b),
        lex_lt(b, c),
    ensures
        lex_lt(a, c),
{
    let i = choose|i: int| lex_lt_at(a, b, i);
    let j = choose|j: int| lex_lt_at(b, c, j);
    if i <= j {
        assert(lex_lt_at(a, c, i)) by {
            assert forall|k: int| 0 <= k < i implies a[k] == c[k] by {
                assert(a[k] == b[k]);
                assert(b[k] == c[k]);
            }
            if i < j {
                assert(b[i] == c[i]);
            }
        }
    } else {
        assert(lex_lt_at(a, c, j)) by {
            assert forall|k: int| 0 <= k < j implies a[k] == c[k] by {
                assert(a[k] == b[k]);
                assert(b[k] == c[k]);
            }
            assert(a[j] == b[j]);
        }
    }
}

/// The lexicographic order never holds both ways.
pub proof fn lemma_lex_asymmetric(a: Seq<u8>, b: Seq<u8>)
    requires
        lex_lt(a, b),
    ensures
        !lex_lt(b, a),
        a != b,
{
    if lex_lt(b, a) {
        lemma_lex_transitive(a, b, a);
    }
    lemma_lex_irreflexive(a);
}

/// Two byte strings that agree below `i` are equal or ordered one way.
proof fn lemma_lex_total_from(a: Seq<u8>, b: Seq<u8>, i: int)
    requires
        0 <= i <= a.len(),
        i <= b.len(),
        forall|j: int| 0 <= j < i ==> a[j] == b[j],
    ensures
        a == b || lex_lt(a, b) || lex_lt(b, a),
    decreases a.len() - i,
{
    if i == a.len() && i == b.len() {
        assert(a =~= b);
    } else if i == a.len() || (i < b.len() && a[i] < b[i]) {
        assert(lex_lt_at(a, b, i));
    } else if i == b.len() || b[i] < a[i] {
        assert(lex_lt_at(b, a, i));
    } else {
        lemma_lex_total_from(a, b, i + 1);
    }
}

/// Any two byte strings are equal or ordered one way.
pub proof fn lemma_lex_total(a: Seq<u8>, b: Seq<u8>)
    ensures
        a == b || lex_lt(a, b) || lex_lt(b, a),
{
    lemma_lex_total_from(a, b, 0);
}

/// Decides how one byte string stands to another, lexicographically.
pub fn rank_bytes(a: &[u8], b: &[u8]) -> (r: Rank)
    ensures
        match r {
            Rank::Before => lex_lt(a@, b@),
            Rank::Same => a@ == b@,
            Rank::After => lex_lt(b@, a@),
        },
{
    let mut i: usize = 0;
    while i < a.len() && i < b.len()
        invariant
            i <= a.len(),
            i <= b.len(),
            forall|j: int| 0 <= j < i ==> a@[j] == b@[j],
        decreases a.len() - i,
    {
        if a[i] < b[i] {
            assert(lex_lt_at(a@, b@, i as int));
            return Rank::Before;
        }
        if b[i] < a[i] {
            assert(lex_lt_at(b@, a@, i as int));
            return Rank::After;
        }
        i = i + 1;
    }
    if a.len() == b.len() {
        assert(a@ =~= b@);
        Rank::Same
    } else if i == a.len() {
        assert(lex_lt_at(a@, b@, i as int));
        Rank::Before
    } else {
        assert(lex_lt_at(b@, a@, i as int));
        Rank::After
    }
}

/// Whether two byte strings are the same.
pub fn same_bytes(a: &[u8], b: &[u8]) -> (r: bool)
    ensures
        r == (a@ == b@),
{
    match rank_bytes(a, b) {
        Rank::Same => true,
        Rank::Before => {
            proof {
                lemma_lex_irreflexive(a@);
            }
            false
        },
        Rank::After => {
            proof {
                lemma_lex_irreflexive(a@);
            }
            false
        },
    }
}

/// Whether two keys are the same.
pub fn same_key<K: OrdKey>(a: &K, b: &K) -> (r: bool)
    ensures
        r == (*a == *b),
{
    match a.rank(b) {
        Rank::Same => true,
        Rank::Before => {
            proof {
                K::law_irreflexive(*a);
            }
            false
        },
        Rank::After => {
            proof {
                K::law_irreflexive(*a);
            }
            false
        },
    }
}

/// Whether `key` is among `keys`.
pub fn has_key<K: OrdKey>(keys: &[K], key: &K) -> (r: bool)
    ensures
        r == keys@.contains(*key),
{
    let mut i: usize = 0;
    while i < keys.len()
        invariant
            i <= keys.len(),
            forall|j: int| 0 <= j < i ==> keys@[j] != *key,
        decreases keys.len() - i,
    {
        if same_key(&keys[i], key) {
            return true;
        }
        i = i + 1;
    }
    false
}

impl OrdKey for u64 {
    open spec fn before(self, other: Self) -> bool {
        self < other
    }

    proof fn law_irreflexive(a: Self) {
    }

    proof fn law_transitive(a: Self, b: Self, c: Self) {
    }

    proof fn law_total(a: Self, b: Self) {
    }

    fn rank(&self, other: &Self) -> (r: Rank) {
        if *self < *other {
            Rank::Before
        } else if *self == *other {
            Rank::Same
        } else {
            Rank::After
        }
    }
}

impl<const N: usize> OrdKey for [u8; N] {
    open spec fn before(self, other: Self) -> bool {
        lex_lt(self@, other@)
    }

    proof fn law_irreflexive(a: Self) {
        lemma_lex_irreflexive(a@);
    }

    proof fn law_transitive(a: Self, b: Self, c: Self) {
        lemma_lex_transitive(a@, b@, c@);
    }

    proof fn law_total(a: Self, b: Self) {
        lemma_lex_total(a@, b@);
        if a@ == b@ {
            assert(a =~= b);
        }
    }

    fn rank(&self, other: &Self) -> (r: Rank) {
        let a: &[u8] = self;
        let b: &[u8] = other;
        assert(a@ == self@ && b@ == other@);
        let r = rank_bytes(a, b);
        proof {
            if r is Same {
                assert(*self =~= *other);
            }
            assert(self.before(*other) == lex_lt(self@, other@));
            assert(other.before(*self) == lex_lt(other@, self@));
        }
        r
    }
}

} // verus!
