//! A many-to-many relation kept row by row, with no empty rows.
use vstd::prelude::*;

use crate::order::OrdKey;
use crate::sorted::{strictly_sorted, SortedMap, SortedSet};

verus! {

/// The rows of a relation.
pub open spec fn linked<A, B>(rows: Map<A, Set<B>>, a: A, b: B) -> bool {
    rows.dom().contains(a) && rows[a].contains(b)
}

/// The row of `a`, empty where it has none.
pub open spec fn row_of<A, B>(rows: Map<A, Set<B>>, a: A) -> Set<B> {
    if rows.dom().contains(a) {
        rows[a]
    } else {
        Set::empty()
    }
}

/// The relation with `a` related to `b` as well.
pub open spec fn with_link<A, B>(rows: Map<A, Set<B>>, a: A, b: B) -> Map<A, Set<B>> {
    rows.insert(a, row_of(rows, a).insert(b))
}

/// The relation with `a` no longer related to `b`; a row that empties goes.
pub open spec fn without_link<A, B>(rows: Map<A, Set<B>>, a: A, b: B) -> Map<A, Set<B>> {
    if row_of(rows, a).remove(b) == Set::<B>::empty() {
        rows.remove(a)
    } else {
        rows.insert(a, row_of(rows, a).remove(b))
    }
}

/// A relation between keys, stored as sorted rows.
pub struct Index<A: OrdKey, B: OrdKey> {
    rows: SortedMap<A, SortedSet<B>>,
}

impl<A: OrdKey, B: OrdKey> View for Index<A, B> {
    type V = Map<A, Set<B>>;

    closed spec fn view(&self) -> Map<A, Set<B>> {
        self.rows@.map_values(|s: SortedSet<B>| s@)
    }
}

impl<A: OrdKey, B: OrdKey> Index<A, B> {
    #[verifier::type_invariant]
    spec fn tight(self) -> bool {
        forall|a: A| #[trigger]
            self.rows@.dom().contains(a) ==> self.rows@[a]@.finite() && self.rows@[a]@
                != Set::<B>::empty()
    }

    /// The row keys, in ascending order.
    pub closed spec fn order(&self) -> Seq<A> {
        self.rows.order()
    }

    /// The empty relation.
    pub fn new() -> (r: Self)
        ensures
            r@ == Map::<A, Set<B>>::empty(),
    {
        let r = Index { rows: SortedMap::new() };
        assert(r@ =~= Map::<A, Set<B>>::empty());
        r
    }

    /// The number of rows. No row is empty.
    pub fn len(&self) -> (n: usize)
        ensures
            n == self@.dom().len(),
            n == self.order().len(),
            self@.dom().finite(),
            self@.dom() == self.order().to_set(),
            strictly_sorted(self.order()),
            forall|a: A| #[trigger]
                self@.dom().contains(a) ==> self@[a].finite() && self@[a] != Set::<B>::empty(),
    {
        proof {
            use_type_invariant(self);
            assert(self@.dom() =~= self.rows@.dom());
        }
        self.rows.len()
    }

    /// The row key at position `i` of the ascending order.
    pub fn key_at(&self, i: usize) -> (a: A)
        requires
            i < self.order().len(),
        ensures
            a == self.order()[i as int],
            self@.dom().contains(a),
    {
        self.rows.key_at(i)
    }

    /// Whether `a` has a row.
    pub fn contains_row(&self, a: &A) -> (r: bool)
        ensures
            r == self@.dom().contains(*a),
    {
        self.rows.contains_key(a)
    }

    /// The row of `a`.
    pub fn row(&self, a: &A) -> (r: Option<&SortedSet<B>>)
        ensures
            match r {
                Some(s) => self@.dom().contains(*a) && s@ == self@[*a] && s@.finite() && s@
                    != Set::<B>::empty(),
                None => !self@.dom().contains(*a),
            },
    {
        proof {
            use_type_invariant(self);
        }
        self.rows.get(a)
    }

    /// The size of the row of `a`.
    pub fn row_len(&self, a: &A) -> (n: usize)
        ensures
            n == row_of(self@, *a).len(),
            row_of(self@, *a).finite(),
    {
        match self.row(a) {
            Some(s) => s.len(),
            None => 0,
        }
    }

    /// Relates `a` to `b`.
    pub fn link(&mut self, a: A, b: B)
        ensures
            final(self)@ == with_link(old(self)@, a, b),
    {
        proof {
            use_type_invariant(&*self);
        }
        let mut other: Index<A, B> = Index { rows: SortedMap::new() };
        std::mem::swap(&mut other, self);
        let mut rows = other.rows;
        let ghost r0 = rows@;
        let mut set = match rows.remove(&a) {
            Some(s) => s,
            None => SortedSet::new(),
        };
        set.insert(b);
        assert(set@.contains(b));
        let ghost set_view = set@;
        rows.insert(a, set);
        proof {
            assert(rows@ =~= r0.insert(a, rows@[a]));
            assert(rows@.map_values(|s: SortedSet<B>| s@) =~= with_link(
                r0.map_values(|s: SortedSet<B>| s@),
                a,
                b,
            ));
            assert forall|x: A| #[trigger] rows@.dom().contains(x) implies rows@[x]@.finite()
                && rows@[x]@ != Set::<B>::empty() by {
                if x != a {
                    assert(r0.dom().contains(x));
                } else if r0.dom().contains(a) {
                    assert(r0[a]@.finite());
                }
            }
        }
        *self = Index { rows };
    }

    /// Ends the relation of `a` to `b`.
    pub fn unlink(&mut self, a: &A, b: &B)
        ensures
            final(self)@ == without_link(old(self)@, *a, *b),
    {
        proof {
            use_type_invariant(&*self);
        }
        let mut other: Index<A, B> = Index { rows: SortedMap::new() };
        std::mem::swap(&mut other, self);
        let mut rows = other.rows;
        let ghost r0 = rows@;
        let ghost v0 = r0.map_values(|s: SortedSet<B>| s@);
        match rows.remove(a) {
            Some(mut set) => {
                set.remove(b);
                if !set.is_empty() {
                    rows.insert(*a, set);
                    assert(rows@ =~= r0.insert(*a, rows@[*a]));
                } else {
                    assert(rows@ =~= r0.remove(*a));
                }
            },
            None => {
                assert(row_of(v0, *a).remove(*b) =~= Set::<B>::empty());
                assert(v0.remove(*a) =~= v0);
            },
        }
        proof {
            assert(rows@.map_values(|s: SortedSet<B>| s@) =~= without_link(v0, *a, *b));
            assert forall|x: A| #[trigger] rows@.dom().contains(x) implies rows@[x]@.finite()
                && rows@[x]@ != Set::<B>::empty() by {
                assert(r0.dom().contains(x));
            }
        }
        *self = Index { rows };
    }

    /// Puts a whole row in place.
    pub fn put_row(&mut self, a: A, set: SortedSet<B>)
        requires
            set@ != Set::<B>::empty(),
        ensures
            final(self)@ == old(self)@.insert(a, set@),
    {
        proof {
            use_type_invariant(&*self);
        }
        let mut other: Index<A, B> = Index { rows: SortedMap::new() };
        std::mem::swap(&mut other, self);
        let mut rows = other.rows;
        let ghost r0 = rows@;
        let _n: usize = set.len();
        rows.insert(a, set);
        proof {
            assert(rows@.map_values(|s: SortedSet<B>| s@) =~= r0.map_values(
                |s: SortedSet<B>| s@,
            ).insert(a, set@));
            assert forall|x: A| #[trigger] rows@.dom().contains(x) implies rows@[x]@.finite()
                && rows@[x]@ != Set::<B>::empty() by {
                if x != a {
                    assert(r0.dom().contains(x));
                }
            }
        }
        *self = Index { rows };
    }

    /// Takes a whole row out.
    pub fn take_row(&mut self, a: &A) -> (r: Option<SortedSet<B>>)
        ensures
            final(self)@ == old(self)@.remove(*a),
            match r {
                Some(s) => old(self)@.dom().contains(*a) && s@ == old(self)@[*a],
                None => !old(self)@.dom().contains(*a),
            },
    {
        proof {
            use_type_invariant(&*self);
        }
        let mut other: Index<A, B> = Index { rows: SortedMap::new() };
        std::mem::swap(&mut other, self);
        let mut rows = other.rows;
        let ghost r0 = rows@;
        let r = rows.remove(a);
        proof {
            assert(rows@.map_values(|s: SortedSet<B>| s@) =~= r0.map_values(
                |s: SortedSet<B>| s@,
            ).remove(*a));
            assert forall|x: A| #[trigger] rows@.dom().contains(x) implies rows@[x]@.finite()
                && rows@[x]@ != Set::<B>::empty() by {
                assert(r0.dom().contains(x));
            }
        }
        *self = Index { rows };
        r
    }
}

/// Relating two keys adds that one relation, and ending it takes that one away;
/// every other stands.
pub proof fn law_links_are_made_and_ended_one_by_one<A, B>(
    rows: Map<A, Set<B>>,
    a: A,
    b: B,
    x: A,
    y: B,
)
    ensures
        with_link(rows, a, b).contains_key(x) && with_link(rows, a, b)[x].contains(y) <==> (
        rows.contains_key(x) && rows[x].contains(y)) || (x == a && y == b),
        without_link(rows, a, b).contains_key(x) && without_link(rows, a, b)[x].contains(y)
            <==> rows.contains_key(x) && rows[x].contains(y) && !(x == a && y == b),
        row_of(rows, x).contains(y) <==> rows.contains_key(x) && rows[x].contains(y),
{
    if row_of(rows, a).remove(b) == Set::<B>::empty() {
        assert(!row_of(rows, a).remove(b).contains(y));
    }
}

} // verus!
