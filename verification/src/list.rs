//! Lists taken apart from the front.
use vstd::prelude::*;

verus! {

/// The list back to front, so that popping hands its items out in order.
pub fn reversed<T>(list: Vec<T>) -> (r: Vec<T>)
    ensures
        r@ == list@.reverse(),
{
    let ghost all = list@;
    let mut front = list;
    let mut r: Vec<T> = Vec::new();
    while front.len() > 0
        invariant
            front@.len() + r@.len() == all.len(),
            front@ == all.take(front@.len() as int),
            r@ == all.skip(front@.len() as int).reverse(),
        decreases front.len(),
    {
        let ghost n = front@.len() as int;
        if let Some(item) = front.pop() {
            r.push(item);
            assert(r@ =~= all.skip(n - 1).reverse());
            assert(front@ =~= all.take(n - 1));
        }
    }
    assert(all.skip(0) =~= all);
    r
}

/// Predicates that agree keep the same.
pub proof fn lemma_filter_by<T>(s: Seq<T>, p: spec_fn(T) -> bool, q: spec_fn(T) -> bool)
    requires
        forall|x: T| #[trigger] p(x) == q(x),
    ensures
        s.filter(p) == s.filter(q),
    decreases s.len(),
{
    reveal(Seq::filter);
    if s.len() > 0 {
        lemma_filter_by(s.drop_last(), p, q);
        assert(p(s.last()) == q(s.last()));
    }
}

/// A filter holds what the list does and the predicate keeps, and nothing else.
pub proof fn lemma_filter_holds<T>(s: Seq<T>, p: spec_fn(T) -> bool)
    ensures
        forall|x: T| #[trigger] s.filter(p).contains(x) == (s.contains(x) && p(x)),
        forall|i: int|
            0 <= i < s.filter(p).len() ==> p(#[trigger] s.filter(p)[i]) && s.contains(
                s.filter(p)[i],
            ),
    decreases s.len(),
{
    reveal(Seq::filter);
    if s.len() > 0 {
        let before = s.drop_last();
        lemma_filter_holds(before, p);
        assert forall|x: T| #[trigger] s.filter(p).contains(x) == (s.contains(x) && p(x)) by {
            assert(s =~= before.push(s.last()));
            if s.contains(x) && x != s.last() {
                let i = choose|i: int| 0 <= i < s.len() && s[i] == x;
                assert(before[i] == x);
            }
            if before.contains(x) {
                let i = choose|i: int| 0 <= i < before.len() && before[i] == x;
                assert(s[i] == x);
            }
            if before.filter(p).contains(x) {
                let i = choose|i: int| 0 <= i < before.filter(p).len() && before.filter(p)[i] == x;
                assert(s.filter(p)[i] == x);
            }
            if p(s.last()) {
                assert(s.filter(p)[s.filter(p).len() - 1] == s.last());
                assert(s[s.len() - 1] == s.last());
            }
            if s.filter(p).contains(x) {
                let i = choose|i: int| 0 <= i < s.filter(p).len() && s.filter(p)[i] == x;
                if i < before.filter(p).len() {
                    assert(before.filter(p)[i] == x);
                    assert(before.filter(p).contains(x));
                } else {
                    assert(x == s.last());
                    assert(s[s.len() - 1] == x);
                }
            }
        }
        assert forall|i: int| 0 <= i < s.filter(p).len() implies p(#[trigger] s.filter(p)[i])
            && s.contains(s.filter(p)[i]) by {
            assert(s.filter(p).contains(s.filter(p)[i]));
        }
    }
}

/// The list is what is left of another when some positions are struck out.
pub open spec fn thins<T>(sub: Seq<T>, whole: Seq<T>) -> bool {
    exists|at: Seq<int>| stands_at(sub, whole, at)
}

/// The list's entries stand at these positions of another, in order.
pub open spec fn stands_at<T>(sub: Seq<T>, whole: Seq<T>, at: Seq<int>) -> bool {
    &&& at.len() == sub.len()
    &&& forall|i: int|
        0 <= i < at.len() ==> 0 <= #[trigger] at[i] < whole.len() && sub[i] == whole[at[i]]
    &&& forall|i: int, j: int| 0 <= i < j < at.len() ==> #[trigger] at[i] < #[trigger] at[j]
}

/// Nothing thins anything; one entry more may be taken along or struck out.
pub proof fn lemma_thins_next<T>(sub: Seq<T>, whole: Seq<T>, x: T)
    requires
        thins(sub, whole),
    ensures
        thins(sub, whole.push(x)),
        thins(sub.push(x), whole.push(x)),
{
    let at = choose|at: Seq<int>| stands_at(sub, whole, at);
    assert(stands_at(sub, whole.push(x), at));
    assert(stands_at(sub.push(x), whole.push(x), at.push(whole.len() as int)));
}

/// The empty list thins any.
pub proof fn lemma_thins_none<T>(whole: Seq<T>)
    ensures
        thins(Seq::<T>::empty(), whole),
{
    assert(stands_at(Seq::<T>::empty(), whole, Seq::<int>::empty()));
}

/// What thins two lists, one behind the other, thins both together.
pub proof fn lemma_thins_concat<T>(a: Seq<T>, s: Seq<T>, b: Seq<T>, t: Seq<T>)
    requires
        thins(a, s),
        thins(b, t),
    ensures
        thins(a + b, s + t),
{
    let p = choose|at: Seq<int>| stands_at(a, s, at);
    let q = choose|at: Seq<int>| stands_at(b, t, at);
    let moved = Seq::new(q.len(), |i: int| s.len() + q[i]);
    let at = p + moved;
    assert forall|i: int| 0 <= i < at.len() implies 0 <= #[trigger] at[i] < (s + t).len() && (a
        + b)[i] == (s + t)[at[i]] by {
        if i < p.len() {
            assert(at[i] == p[i]);
        } else {
            assert(at[i] == s.len() + q[i - p.len()]);
        }
    }
    assert forall|i: int, j: int| 0 <= i < j < at.len() implies #[trigger] at[i]
        < #[trigger] at[j] by {
        if j < p.len() {
            assert(p[i] < p[j]);
        } else if i >= p.len() {
            assert(q[i - p.len()] < q[j - p.len()]);
        } else {
            assert(p[i] < s.len());
        }
    }
    assert(stands_at(a + b, s + t, at));
}

/// Some entry of a list satisfies a condition.
pub open spec fn some_at<T>(s: Seq<T>, p: spec_fn(T) -> bool) -> bool {
    exists|i: int| 0 <= i < s.len() && p(#[trigger] s[i])
}

/// The last entry of a list that satisfies a condition stands at this position.
pub open spec fn last_at<T>(s: Seq<T>, p: spec_fn(T) -> bool, at: int) -> bool {
    &&& 0 <= at < s.len()
    &&& p(s[at])
    &&& forall|i: int| at < i < s.len() ==> !p(#[trigger] s[i])
}

/// Whether and where an entry satisfies a condition last, by the list's own last
/// entry and those before it.
pub proof fn lemma_last_at<T>(s: Seq<T>, p: spec_fn(T) -> bool)
    ensures
        s.len() == 0 ==> !some_at(s, p),
        s.len() > 0 ==> some_at(s, p) == (some_at(s.drop_last(), p) || p(s.last())),
        s.len() > 0 && p(s.last()) ==> last_at(s, p, s.len() - 1),
        s.len() > 0 && p(s.last()) ==> forall|at: int| #[trigger]
            last_at(s, p, at) ==> at == s.len() - 1,
        s.len() > 0 && !p(s.last()) ==> forall|at: int| #[trigger]
            last_at(s, p, at) == last_at(s.drop_last(), p, at),
        forall|at: int| #[trigger] last_at(s, p, at) ==> some_at(s, p),
{
    if s.len() > 0 {
        let t = s.drop_last();
        if some_at(t, p) {
            let i = choose|i: int| 0 <= i < t.len() && p(#[trigger] t[i]);
            assert(p(s[i]));
        }
        if p(s.last()) {
            assert(p(s[s.len() - 1]));
        }
        if some_at(s, p) {
            let i = choose|i: int| 0 <= i < s.len() && p(#[trigger] s[i]);
            if i < t.len() {
                assert(p(t[i]));
            }
        }
        assert forall|at: int| p(s.last()) && #[trigger] last_at(s, p, at) implies at == s.len()
            - 1 by {
            if at < s.len() - 1 {
                assert(!p(s[s.len() - 1]));
            }
        }
        assert forall|at: int| !p(s.last()) implies #[trigger] last_at(s, p, at) == last_at(
            t,
            p,
            at,
        ) by {
            if last_at(t, p, at) {
                assert(s[at] == t[at]);
                assert forall|i: int| at < i < s.len() implies !p(#[trigger] s[i]) by {
                    if i < t.len() {
                        assert(s[i] == t[i]);
                    }
                }
            }
            if last_at(s, p, at) {
                assert(s[at] == t[at]);
                assert forall|i: int| at < i < t.len() implies !p(#[trigger] t[i]) by {
                    assert(s[i] == t[i]);
                }
            }
        }
    }
}

/// Where some byte satisfies a condition, a lowest one does.
pub proof fn lemma_least_byte(p: spec_fn(u8) -> bool, n: u8) -> (m: u8)
    requires
        p(n),
    ensures
        p(m),
        m <= n,
        forall|t: u8| #[trigger] p(t) ==> m <= t,
    decreases n,
{
    if exists|t: u8| #[trigger] p(t) && t < n {
        let t = choose|t: u8| #[trigger] p(t) && t < n;
        lemma_least_byte(p, t)
    } else {
        n
    }
}

} // verus!
