//! Sets and maps kept as sorted vectors.
use vstd::prelude::*;

use crate::order::{OrdKey, Rank};

verus! {

/// One more key is taken.
pub proof fn lemma_take_next<K>(order: Seq<K>, i: int)
    requires
        0 <= i < order.len(),
    ensures
        forall|k: K| #[trigger]
            order.take(i + 1).contains(k) == (order.take(i).contains(k) || k == order[i]),
{
    assert forall|k: K| #[trigger] order.take(i + 1).contains(k) == (order.take(
        i,
    ).contains(k) || k == order[i]) by {
        if order.take(i).contains(k) {
            let j = order.take(i).index_of(k);
            assert(order.take(i + 1)[j] == k);
        }
        if k == order[i] {
            assert(order.take(i + 1)[i] == k);
        }
        if order.take(i + 1).contains(k) && k != order[i] {
            let j = order.take(i + 1).index_of(k);
            assert(order.take(i)[j] == k);
        }
    }
}

/// Every key comes strictly before all later ones.
pub open spec fn strictly_sorted<K: OrdKey>(s: Seq<K>) -> bool {
    forall|i: int, j: int| 0 <= i < j < s.len() ==> (#[trigger] s[i]).before(#[trigger] s[j])
}

/// A strictly sorted sequence repeats no key.
pub proof fn lemma_sorted_distinct<K: OrdKey>(s: Seq<K>)
    requires
        strictly_sorted(s),
    ensures
        s.no_duplicates(),
        s.to_set().finite(),
        s.to_set().len() == s.len(),
{
    assert forall|i: int, j: int| 0 <= i < s.len() && 0 <= j < s.len() && i != j implies s[i]
        != s[j] by {
        if i < j {
            K::law_irreflexive(s[i]);
        } else {
            K::law_irreflexive(s[j]);
        }
    }
    s.unique_seq_to_set();
    vstd::seq_lib::seq_to_set_is_finite(s);
}

/// Two strictly sorted sequences with the same members are the same.
pub proof fn lemma_sorted_unique<K: OrdKey>(s: Seq<K>, t: Seq<K>)
    requires
        strictly_sorted(s),
        strictly_sorted(t),
        s.to_set() == t.to_set(),
    ensures
        s == t,
    decreases s.len(),
{
    lemma_sorted_distinct(s);
    lemma_sorted_distinct(t);
    if s.len() > 0 {
        let a = s.last();
        let b = t.last();
        assert(t.to_set().contains(a)) by {
            assert(s.to_set().contains(s[s.len() - 1]));
        }
        assert(s.to_set().contains(b)) by {
            assert(t.to_set().contains(t[t.len() - 1]));
        }
        let i = choose|i: int| 0 <= i < t.len() && t[i] == a;
        let j = choose|j: int| 0 <= j < s.len() && s[j] == b;
        if a != b {
            assert(a.before(b));
            assert(b.before(a));
            K::law_transitive(a, b, a);
            K::law_irreflexive(a);
        }
        let s1 = s.drop_last();
        let t1 = t.drop_last();
        assert(s1.to_set() =~= s.to_set().remove(a)) by {
            assert forall|x: K| s1.to_set().contains(x) == s.to_set().remove(a).contains(x) by {
                if s.to_set().contains(x) && x != a {
                    let k = choose|k: int| 0 <= k < s.len() && s[k] == x;
                    assert(s1[k] == x);
                }
                if s1.to_set().contains(x) {
                    let k = choose|k: int| 0 <= k < s1.len() && s1[k] == x;
                    assert(s[k] == x);
                }
            }
        }
        assert(t1.to_set() =~= t.to_set().remove(a)) by {
            assert forall|x: K| t1.to_set().contains(x) == t.to_set().remove(a).contains(x) by {
                if t.to_set().contains(x) && x != a {
                    let k = choose|k: int| 0 <= k < t.len() && t[k] == x;
                    assert(t1[k] == x);
                }
                if t1.to_set().contains(x) {
                    let k = choose|k: int| 0 <= k < t1.len() && t1[k] == x;
                    assert(t[k] == x);
                }
            }
        }
        lemma_sorted_unique(s1, t1);
        assert(s =~= s1.push(a));
        assert(t =~= t1.push(a));
    } else {
        assert(s =~= t);
    }
}

/// Finds where `key` stands, or would stand, in a sorted vector.
fn locate<K: OrdKey>(keys: &Vec<K>, key: &K) -> (r: (usize, bool))
    requires
        strictly_sorted(keys@),
    ensures
        r.0 <= keys.len(),
        forall|j: int| 0 <= j < r.0 ==> (#[trigger] keys@[j]).before(*key),
        r.1 ==> r.0 < keys.len() && keys@[r.0 as int] == *key,
        !r.1 ==> forall|j: int| r.0 <= j < keys.len() ==> key.before(#[trigger] keys@[j]),
        r.1 == keys@.contains(*key),
{
    let mut i: usize = 0;
    while i < keys.len()
        invariant
            i <= keys.len(),
            strictly_sorted(keys@),
            forall|j: int| 0 <= j < i ==> (#[trigger] keys@[j]).before(*key),
        decreases keys.len() - i,
    {
        match keys[i].rank(key) {
            Rank::Before => {
                i = i + 1;
            },
            Rank::Same => {
                return (i, true);
            },
            Rank::After => {
                proof {
                    assert forall|j: int| i <= j < keys.len() implies key.before(
                        #[trigger] keys@[j],
                    ) by {
                        if i < j {
                            K::law_transitive(*key, keys@[i as int], keys@[j]);
                        }
                    }
                    lemma_absent(keys@, *key, i as int);
                }
                return (i, false);
            },
        }
    }
    proof {
        lemma_absent(keys@, *key, i as int);
    }
    (i, false)
}

/// A key that falls between its neighbours is not in the sequence.
proof fn lemma_absent<K: OrdKey>(s: Seq<K>, key: K, i: int)
    requires
        0 <= i <= s.len(),
        forall|j: int| 0 <= j < i ==> (#[trigger] s[j]).before(key),
        forall|j: int| i <= j < s.len() ==> key.before(#[trigger] s[j]),
    ensures
        !s.contains(key),
{
    if s.contains(key) {
        let j = choose|j: int| 0 <= j < s.len() && s[j] == key;
        K::law_irreflexive(s[j]);
    }
}

/// A finite set of keys, held in ascending order.
pub struct SortedSet<K: OrdKey> {
    items: Vec<K>,
}

impl<K: OrdKey> View for SortedSet<K> {
    type V = Set<K>;

    closed spec fn view(&self) -> Set<K> {
        self.items@.to_set()
    }
}

impl<K: OrdKey> SortedSet<K> {
    #[verifier::type_invariant]
    spec fn sorted(self) -> bool {
        strictly_sorted(self.items@)
    }

    /// The members, in ascending order.
    pub closed spec fn order(&self) -> Seq<K> {
        self.items@
    }

    /// The empty set.
    pub fn new() -> (s: Self)
        ensures
            s@ == Set::<K>::empty(),
            s.order() == Seq::<K>::empty(),
    {
        let s = SortedSet { items: Vec::new() };
        assert(s.items@.to_set() =~= Set::<K>::empty());
        s
    }

    /// The number of members.
    pub fn len(&self) -> (n: usize)
        ensures
            n == self@.len(),
            n == self.order().len(),
            self@.finite(),
            self@ == self.order().to_set(),
            strictly_sorted(self.order()),
    {
        proof {
            use_type_invariant(self);
            lemma_sorted_distinct(self.items@);
        }
        self.items.len()
    }

    /// Whether the set has no members.
    pub fn is_empty(&self) -> (r: bool)
        ensures
            r == (self@ == Set::<K>::empty()),
            r == (self@.len() == 0),
            self@.finite(),
    {
        proof {
            use_type_invariant(self);
            lemma_sorted_distinct(self.items@);
            if self.items.len() == 0 {
                assert(self.items@.to_set() =~= Set::<K>::empty());
            } else {
                assert(self.items@.to_set().contains(self.items@[0]));
            }
        }
        self.items.len() == 0
    }

    /// The member at position `i` of the ascending order.
    pub fn at(&self, i: usize) -> (k: K)
        requires
            i < self.order().len(),
        ensures
            k == self.order()[i as int],
            self@.contains(k),
    {
        let k = self.items[i];
        assert(self.items@.contains(k));
        k
    }

    /// Whether `key` is a member.
    pub fn contains(&self, key: &K) -> (r: bool)
        ensures
            r == self@.contains(*key),
    {
        proof {
            use_type_invariant(self);
        }
        let r = locate(&self.items, key);
        r.1
    }

    /// Adds `key`; reports whether it was absent.
    pub fn insert(&mut self, key: K) -> (fresh: bool)
        ensures
            final(self)@ == old(self)@.insert(key),
            fresh == !old(self)@.contains(key),
    {
        proof {
            use_type_invariant(&*self);
        }
        let mut items: Vec<K> = Vec::new();
        std::mem::swap(&mut items, &mut self.items);
        let ghost before = items@;
        let r = locate(&items, &key);
        if !r.1 {
            items.insert(r.0, key);
            proof {
                let i = r.0 as int;
                assert(items@ =~= before.insert(i, key));
                assert(items@.to_set() =~= before.to_set().insert(key)) by {
                    assert forall|x: K|
                        items@.to_set().contains(x) == before.to_set().insert(key).contains(x) by {
                        if before.contains(x) {
                            let k = choose|k: int| 0 <= k < before.len() && before[k] == x;
                            if k < i {
                                assert(items@[k] == x);
                            } else {
                                assert(items@[k + 1] == x);
                            }
                        }
                        if items@.contains(x) {
                            let k = choose|k: int| 0 <= k < items@.len() && items@[k] == x;
                            if k < i {
                                assert(before[k] == x);
                            } else if k > i {
                                assert(before[k - 1] == x);
                            }
                        }
                        assert(items@[i] == key);
                    }
                }
                assert(strictly_sorted(items@));
            }
        } else {
            assert(before.to_set().insert(key) =~= before.to_set());
        }
        self.items = items;
        !r.1
    }

    /// Takes `key` out; reports whether it was present.
    pub fn remove(&mut self, key: &K) -> (found: bool)
        ensures
            final(self)@ == old(self)@.remove(*key),
            found == old(self)@.contains(*key),
    {
        proof {
            use_type_invariant(&*self);
        }
        let mut items: Vec<K> = Vec::new();
        std::mem::swap(&mut items, &mut self.items);
        let ghost before = items@;
        let r = locate(&items, key);
        if r.1 {
            let _gone = items.remove(r.0);
            proof {
                let i = r.0 as int;
                lemma_sorted_distinct(before);
                assert(items@ =~= before.remove(i));
                assert(items@.to_set() =~= before.to_set().remove(*key)) by {
                    assert forall|x: K|
                        items@.to_set().contains(x) == before.to_set().remove(*key).contains(x) by {
                        if before.contains(x) && x != *key {
                            let k = choose|k: int| 0 <= k < before.len() && before[k] == x;
                            if k < i {
                                assert(items@[k] == x);
                            } else {
                                assert(items@[k - 1] == x);
                            }
                        }
                        if items@.contains(x) {
                            let k = choose|k: int| 0 <= k < items@.len() && items@[k] == x;
                            if k < i {
                                assert(before[k] == x);
                            } else {
                                assert(before[k + 1] == x);
                            }
                        }
                    }
                }
            }
        } else {
            assert(before.to_set().remove(*key) =~= before.to_set());
        }
        self.items = items;
        r.1
    }

    /// The members in ascending order.
    pub fn to_vec(&self) -> (v: Vec<K>)
        ensures
            v@ == self.order(),
            v@.to_set() == self@,
            strictly_sorted(v@),
    {
        proof {
            use_type_invariant(self);
        }
        let mut v: Vec<K> = Vec::new();
        let mut i: usize = 0;
        while i < self.items.len()
            invariant
                i <= self.items.len(),
                v@ == self.items@.take(i as int),
            decreases self.items.len() - i,
        {
            v.push(self.items[i]);
            i = i + 1;
        }
        assert(v@ =~= self.items@);
        v
    }

}

/// The value paired with `key`, where the keys are distinct.
spec fn paired<K, V>(keys: Seq<K>, vals: Seq<V>) -> Map<K, V> {
    Map::new(|k: K| keys.contains(k), |k: K| vals[keys.index_of(k)])
}

/// The entry at position `i` is what the map holds for its key.
proof fn lemma_paired_at<K: OrdKey, V>(keys: Seq<K>, vals: Seq<V>, i: int)
    requires
        strictly_sorted(keys),
        0 <= i < keys.len(),
    ensures
        keys.index_of(keys[i]) == i,
        paired(keys, vals).dom().contains(keys[i]),
        paired(keys, vals)[keys[i]] == vals[i],
{
    lemma_sorted_distinct(keys);
    assert(keys.contains(keys[i]));
    let j = keys.index_of(keys[i]);
    assert(0 <= j < keys.len() && keys[j] == keys[i]);
}

/// A finite map, held in ascending key order.
pub struct SortedMap<K: OrdKey, V> {
    keys: Vec<K>,
    vals: Vec<V>,
}

impl<K: OrdKey, V> View for SortedMap<K, V> {
    type V = Map<K, V>;

    closed spec fn view(&self) -> Map<K, V> {
        paired(self.keys@, self.vals@)
    }
}

impl<K: OrdKey, V> SortedMap<K, V> {
    #[verifier::type_invariant]
    spec fn sorted(self) -> bool {
        &&& strictly_sorted(self.keys@)
        &&& self.keys@.len() == self.vals@.len()
    }

    /// The keys, in ascending order.
    pub closed spec fn order(&self) -> Seq<K> {
        self.keys@
    }

    /// The empty map.
    pub fn new() -> (m: Self)
        ensures
            m@ == Map::<K, V>::empty(),
            m.order() == Seq::<K>::empty(),
    {
        let m = SortedMap { keys: Vec::new(), vals: Vec::new() };
        assert(m@ =~= Map::<K, V>::empty());
        m
    }

    /// The number of entries.
    pub fn len(&self) -> (n: usize)
        ensures
            n == self@.dom().len(),
            n == self.order().len(),
            self@.dom().finite(),
            self@.dom() == self.order().to_set(),
            strictly_sorted(self.order()),
    {
        proof {
            use_type_invariant(self);
            lemma_sorted_distinct(self.keys@);
            assert(self@.dom() =~= self.keys@.to_set());
        }
        self.keys.len()
    }

    /// Whether the map has no entries.
    pub fn is_empty(&self) -> (r: bool)
        ensures
            r == (self@ == Map::<K, V>::empty()),
            r == (self@.dom() == Set::<K>::empty()),
    {
        proof {
            use_type_invariant(self);
            if self.keys.len() == 0 {
                assert(self@ =~= Map::<K, V>::empty());
            } else {
                lemma_paired_at(self.keys@, self.vals@, 0);
            }
        }
        self.keys.len() == 0
    }

    /// The key at position `i` of the ascending order.
    pub fn key_at(&self, i: usize) -> (k: K)
        requires
            i < self.order().len(),
        ensures
            k == self.order()[i as int],
            self@.dom().contains(k),
    {
        proof {
            use_type_invariant(self);
            lemma_paired_at(self.keys@, self.vals@, i as int);
        }
        self.keys[i]
    }

    /// The value under the key at position `i` of the ascending order.
    pub fn value_at(&self, i: usize) -> (v: &V)
        requires
            i < self.order().len(),
        ensures
            *v == self@[self.order()[i as int]],
            self@.dom().contains(self.order()[i as int]),
    {
        proof {
            use_type_invariant(self);
            lemma_paired_at(self.keys@, self.vals@, i as int);
        }
        &self.vals[i]
    }

    /// Whether `key` has an entry.
    pub fn contains_key(&self, key: &K) -> (r: bool)
        ensures
            r == self@.dom().contains(*key),
    {
        proof {
            use_type_invariant(self);
        }
        let r = locate(&self.keys, key);
        r.1
    }

    /// The value under `key`.
    pub fn get(&self, key: &K) -> (r: Option<&V>)
        ensures
            match r {
                Some(v) => self@.dom().contains(*key) && *v == self@[*key],
                None => !self@.dom().contains(*key),
            },
    {
        proof {
            use_type_invariant(self);
        }
        let r = locate(&self.keys, key);
        if r.1 {
            proof {
                lemma_paired_at(self.keys@, self.vals@, r.0 as int);
            }
            Some(&self.vals[r.0])
        } else {
            None
        }
    }

    /// Puts `value` under `key`; hands back what stood there.
    pub fn insert(&mut self, key: K, value: V) -> (prior: Option<V>)
        ensures
            final(self)@ == old(self)@.insert(key, value),
            match prior {
                Some(v) => old(self)@.dom().contains(key) && v == old(self)@[key],
                None => !old(self)@.dom().contains(key),
            },
    {
        let prior = self.remove(&key);
        proof {
            use_type_invariant(&*self);
        }
        let ghost cleared = self@;
        let mut other: SortedMap<K, V> = SortedMap { keys: Vec::new(), vals: Vec::new() };
        std::mem::swap(&mut other, self);
        let mut keys = other.keys;
        let mut vals = other.vals;
        let ghost k0 = keys@;
        let ghost v0 = vals@;
        let r = locate(&keys, &key);
        assert(!cleared.dom().contains(key));
        assert(cleared == paired(k0, v0));
        keys.insert(r.0, key);
        vals.insert(r.0, value);
        proof {
            let i = r.0 as int;
            assert(keys@ =~= k0.insert(i, key));
            assert(vals@ =~= v0.insert(i, value));
            assert(strictly_sorted(keys@));
            assert(paired(keys@, vals@) =~= cleared.insert(key, value)) by {
                lemma_paired_at(keys@, vals@, i);
                assert forall|x: K| #![auto]
                    paired(keys@, vals@).dom().contains(x) == cleared.insert(
                        key,
                        value,
                    ).dom().contains(x) by {
                    if k0.contains(x) {
                        let k = k0.index_of(x);
                        if k < i {
                            assert(keys@[k] == x);
                        } else {
                            assert(keys@[k + 1] == x);
                        }
                    }
                    if keys@.contains(x) {
                        let k = keys@.index_of(x);
                        if k < i {
                            assert(k0[k] == x);
                        } else if k > i {
                            assert(k0[k - 1] == x);
                        }
                    }
                }
                assert forall|x: K| cleared.insert(key, value).dom().contains(x) implies paired(
                    keys@,
                    vals@,
                )[x] == cleared.insert(key, value)[x] by {
                    if x != key {
                        let k = k0.index_of(x);
                        assert(k0.contains(x));
                        lemma_paired_at(k0, v0, k);
                        if k < i {
                            assert(keys@[k] == x);
                            lemma_paired_at(keys@, vals@, k);
                        } else {
                            assert(keys@[k + 1] == x);
                            lemma_paired_at(keys@, vals@, k + 1);
                        }
                    }
                }
            }
            assert(cleared.insert(key, value) =~= old(self)@.insert(key, value));
        }
        self.set_parts(keys, vals);
        prior
    }

    fn set_parts(&mut self, keys: Vec<K>, vals: Vec<V>)
        requires
            strictly_sorted(keys@),
            keys@.len() == vals@.len(),
        ensures
            final(self).keys == keys,
            final(self).vals == vals,
    {
        *self = SortedMap { keys, vals };
    }

    /// Takes the entry under `key` out.
    pub fn remove(&mut self, key: &K) -> (prior: Option<V>)
        ensures
            final(self)@ == old(self)@.remove(*key),
            match prior {
                Some(v) => old(self)@.dom().contains(*key) && v == old(self)@[*key],
                None => !old(self)@.dom().contains(*key),
            },
    {
        proof {
            use_type_invariant(&*self);
        }
        let mut other: SortedMap<K, V> = SortedMap { keys: Vec::new(), vals: Vec::new() };
        std::mem::swap(&mut other, self);
        let mut keys = other.keys;
        let mut vals = other.vals;
        let ghost k0 = keys@;
        let ghost v0 = vals@;
        let r = locate(&keys, key);
        if r.1 {
            let _gone = keys.remove(r.0);
            let v = vals.remove(r.0);
            proof {
                let i = r.0 as int;
                lemma_paired_at(k0, v0, i);
                lemma_sorted_distinct(k0);
                assert(keys@ =~= k0.remove(i));
                assert(vals@ =~= v0.remove(i));
                assert(strictly_sorted(keys@));
                assert(paired(keys@, vals@) =~= paired(k0, v0).remove(*key)) by {
                    assert forall|x: K| #![auto]
                        paired(keys@, vals@).dom().contains(x) == paired(k0, v0).remove(
                            *key,
                        ).dom().contains(x) by {
                        if k0.contains(x) && x != *key {
                            let k = k0.index_of(x);
                            if k < i {
                                assert(keys@[k] == x);
                            } else {
                                assert(keys@[k - 1] == x);
                            }
                        }
                        if keys@.contains(x) {
                            let k = keys@.index_of(x);
                            if k < i {
                                assert(k0[k] == x);
                            } else {
                                assert(k0[k + 1] == x);
                            }
                        }
                    }
                    assert forall|x: K| paired(k0, v0).remove(*key).dom().contains(x) implies paired(
                        keys@,
                        vals@,
                    )[x] == paired(k0, v0).remove(*key)[x] by {
                        assert(k0.contains(x));
                        let k = k0.index_of(x);
                        lemma_paired_at(k0, v0, k);
                        if k < i {
                            assert(keys@[k] == x);
                            lemma_paired_at(keys@, vals@, k);
                        } else {
                            assert(keys@[k - 1] == x);
                            lemma_paired_at(keys@, vals@, k - 1);
                        }
                    }
                }
            }
            self.set_parts(keys, vals);
            Some(v)
        } else {
            self.set_parts(keys, vals);
            assert(paired(k0, v0).remove(*key) =~= paired(k0, v0));
            None
        }
    }
}

} // verus!
