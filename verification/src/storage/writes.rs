//! Merging and filtering cell writes.
use vstd::prelude::*;

use crate::list::{last_at, lemma_last_at, some_at};
use crate::shard::{bit_at, prefix_bit};
use crate::sorted::{lemma_take_next, SortedMap};
use crate::storage::canonical::copy_bytes;
use crate::types::SubstateKey;

verus! {

/// A value that a write leaves, if any.
pub open spec fn left(change: Option<Vec<u8>>) -> Option<Seq<u8>> {
    match change {
        Some(v) => Some(v@),
        None => None,
    }
}

/// A copy of a change.
pub fn copy_option(change: &Option<Vec<u8>>) -> (c: Option<Vec<u8>>)
    ensures
        left(c) == left(*change),
{
    match change {
        Some(v) => Some(copy_bytes(v)),
        None => None,
    }
}

/// Writes to cells: a new value for each, or none any more.
pub struct StateWrites {
    cells: SortedMap<SubstateKey, Option<Vec<u8>>>,
}

impl View for StateWrites {
    type V = Map<SubstateKey, Option<Seq<u8>>>;

    closed spec fn view(&self) -> Map<SubstateKey, Option<Seq<u8>>> {
        self.cells@.map_values(|c: Option<Vec<u8>>| left(c))
    }
}

impl StateWrites {
    /// The written cells, ascending.
    pub closed spec fn order(&self) -> Seq<SubstateKey> {
        self.cells.order()
    }

    /// No writes.
    pub fn new() -> (w: Self)
        ensures
            w@ == Map::<SubstateKey, Option<Seq<u8>>>::empty(),
    {
        let w = StateWrites { cells: SortedMap::new() };
        assert(w@ =~= Map::<SubstateKey, Option<Seq<u8>>>::empty());
        w
    }

    /// Writes a cell; an earlier write of it is replaced.
    pub fn insert(&mut self, key: SubstateKey, change: Option<Vec<u8>>)
        ensures
            final(self)@ == old(self)@.insert(key, left(change)),
    {
        let ghost before = self.cells@;
        self.cells.insert(key, change);
        assert(self@ =~= before.map_values(|c: Option<Vec<u8>>| left(c)).insert(key, left(change)));
    }

    /// How many cells are written.
    pub fn len(&self) -> (n: usize)
        ensures
            n == self@.dom().len(),
            n == self.order().len(),
            self@.dom() == self.order().to_set(),
            crate::sorted::strictly_sorted(self.order()),
    {
        let n = self.cells.len();
        assert(self@.dom() =~= self.cells@.dom());
        n
    }

    /// The written cell at a position.
    pub fn key_at(&self, i: usize) -> (k: SubstateKey)
        requires
            i < self.order().len(),
        ensures
            k == self.order()[i as int],
            self@.contains_key(k),
    {
        self.cells.key_at(i)
    }

    /// What is written at a position.
    pub fn change_at(&self, i: usize) -> (c: &Option<Vec<u8>>)
        requires
            i < self.order().len(),
        ensures
            left(*c) == self@[self.order()[i as int]],
    {
        self.cells.value_at(i)
    }

    /// What is written to a cell, if it is written.
    pub fn get(&self, key: &SubstateKey) -> (r: Option<&Option<Vec<u8>>>)
        ensures
            match r {
                Some(c) => self@.contains_key(*key) && left(*c) == self@[*key],
                None => !self@.contains_key(*key),
            },
    {
        self.cells.get(key)
    }

    /// Lays later writes over these.
    pub fn extend(&mut self, later: &StateWrites)
        ensures
            final(self)@ == old(self)@.union_prefer_right(later@),
    {
        let count: usize = later.len();
        let ghost start = self@;
        let ghost order = later.order();
        let mut i: usize = 0;
        assert(self@ =~= laid_over(start, later@, order, 0));
        while i < count
            invariant
                i <= count,
                count == order.len(),
                order == later.order(),
                self@ == laid_over(start, later@, order, i as int),
            decreases count - i,
        {
            let key = later.key_at(i);
            let change = copy_option(later.change_at(i));
            self.insert(key, change);
            assert(self@ =~= laid_over(start, later@, order, i + 1)) by {
                lemma_take_next(order, i as int);
            }
            i = i + 1;
        }
        proof {
            assert(order.take(count as int) =~= order);
            assert forall|k: SubstateKey| order.contains(k) == later@.contains_key(k) by {
                assert(order.to_set().contains(k) == order.contains(k));
            }
            assert(self@ =~= start.union_prefer_right(later@));
        }
    }
}

/// The first `n` keys of later writes laid over earlier ones.
spec fn laid_over(
    start: Map<SubstateKey, Option<Seq<u8>>>,
    later: Map<SubstateKey, Option<Seq<u8>>>,
    order: Seq<SubstateKey>,
    n: int,
) -> Map<SubstateKey, Option<Seq<u8>>> {
    Map::new(
        |k: SubstateKey| start.contains_key(k) || order.take(n).contains(k),
        |k: SubstateKey|
            if order.take(n).contains(k) {
                later[k]
            } else {
                start[k]
            },
    )
}

/// What writes laid one over the other come to.
pub open spec fn merged(list: Seq<&StateWrites>) -> Map<SubstateKey, Option<Seq<u8>>>
    decreases list.len(),
{
    if list.len() == 0 {
        Map::empty()
    } else {
        merged(list.drop_last()).union_prefer_right(list.last()@)
    }
}

/// Merges writes in order; later ones win per cell.
#[must_use]
pub fn merge_state_writes(list: &[&StateWrites]) -> (w: StateWrites)
    ensures
        w@ == merged(list@),
{
    let mut w = StateWrites::new();
    let mut i: usize = 0;
    assert(list@.take(0) =~= Seq::empty());
    while i < list.len()
        invariant
            i <= list@.len(),
            w@ == merged(list@.take(i as int)),
        decreases list@.len() - i,
    {
        proof {
            assert(list@.take(i + 1).drop_last() =~= list@.take(i as int));
        }
        w.extend(list[i]);
        i = i + 1;
    }
    assert(list@.take(list@.len() as int) =~= list@);
    w
}

/// What the receipts' writes come to; a failed receipt has none.
pub open spec fn receipt_writes(list: Seq<Option<StateWrites>>) -> Map<SubstateKey, Option<Seq<u8>>>
    decreases list.len(),
{
    if list.len() == 0 {
        Map::empty()
    } else {
        let before = receipt_writes(list.drop_last());
        match list.last() {
            Some(w) => before.union_prefer_right(w@),
            None => before,
        }
    }
}

/// Merges the writes of receipts in commit order; a failed receipt, which has
/// none, contributes nothing.
#[must_use]
pub fn merge_writes_from_receipts(receipts: &[Option<StateWrites>]) -> (w: StateWrites)
    ensures
        w@ == receipt_writes(receipts@),
{
    let mut w = StateWrites::new();
    let mut i: usize = 0;
    assert(receipts@.take(0) =~= Seq::empty());
    while i < receipts.len()
        invariant
            i <= receipts@.len(),
            w@ == receipt_writes(receipts@.take(i as int)),
        decreases receipts@.len() - i,
    {
        proof {
            assert(receipts@.take(i + 1).drop_last() =~= receipts@.take(i as int));
        }
        match &receipts[i] {
            Some(writes) => {
                w.extend(writes);
            },
            None => {},
        }
        i = i + 1;
    }
    assert(receipts@.take(receipts@.len() as int) =~= receipts@);
    w
}

/// A key's leading bits are the prefix.
pub open spec fn under_prefix(key: Seq<u8>, prefix: Seq<bool>) -> bool {
    forall|i: int| 0 <= i < prefix.len() ==> (bit_at(key, i) == 1) == #[trigger] prefix[i]
}

/// Whether a key's leading bits are the prefix.
pub fn key_under_prefix(key: &[u8], prefix: &[bool]) -> (r: bool)
    requires
        prefix@.len() <= 8 * key@.len(),
    ensures
        r == under_prefix(key@, prefix@),
{
    let mut i: usize = 0;
    while i < prefix.len()
        invariant
            i <= prefix@.len(),
            prefix@.len() <= 8 * key@.len(),
            forall|j: int| 0 <= j < i ==> (bit_at(key@, j) == 1) == #[trigger] prefix@[j],
        decreases prefix@.len() - i,
    {
        if prefix_bit(key, i) != prefix[i] {
            assert((bit_at(key@, i as int) == 1) != prefix@[i as int]);
            return false;
        }
        i = i + 1;
    }
    true
}

/// The cells whose leading bits are the prefix.
pub open spec fn within(
    writes: Map<SubstateKey, Option<Seq<u8>>>,
    prefix: Seq<bool>,
) -> Map<SubstateKey, Option<Seq<u8>>> {
    writes.restrict(
        Set::new(
            |k: SubstateKey| writes.contains_key(k) && under_prefix(k.bytes(), prefix),
        ),
    )
}

/// Restricts writes to the cells under a prefix of their 32 bytes.
#[must_use]
pub fn filter_writes_to_prefix(writes: &StateWrites, prefix: &[bool]) -> (w: StateWrites)
    requires
        prefix@.len() <= 256,
    ensures
        w@ == within(writes@, prefix@),
{
    let mut w = StateWrites::new();
    let count: usize = writes.len();
    let ghost order = writes.order();
    let mut i: usize = 0;
    while i < count
        invariant
            i <= count,
            count == order.len(),
            order == writes.order(),
            writes@.dom() == order.to_set(),
            crate::sorted::strictly_sorted(order),
            prefix@.len() <= 256,
            forall|k: SubstateKey| #[trigger]
                w@.contains_key(k) <==> order.take(i as int).contains(k) && under_prefix(
                    k.bytes(),
                    prefix@,
                ),
            forall|k: SubstateKey| #[trigger] w@.contains_key(k) ==> w@[k] == writes@[k],
        decreases count - i,
    {
        let key = writes.key_at(i);
        let bytes = key.to_bytes();
        proof {
            lemma_take_next(order, i as int);
        }
        if key_under_prefix(bytes.as_slice(), prefix) {
            w.insert(key, copy_option(writes.change_at(i)));
        }
        i = i + 1;
    }
    proof {
        assert(order.take(count as int) =~= order);
        assert forall|k: SubstateKey| order.contains(k) == writes@.contains_key(k) by {
            assert(order.to_set().contains(k) == order.contains(k));
        }
        assert(w@ =~= within(writes@, prefix@));
    }
    w
}

/// Later writes win: the last writer of a cell decides what it holds.
pub proof fn law_later_writes_win(list: Seq<&StateWrites>, i: int, key: SubstateKey)
    requires
        0 <= i < list.len(),
        list[i]@.contains_key(key),
        forall|j: int| i < j < list.len() ==> !(#[trigger] list[j])@.contains_key(key),
    ensures
        merged(list).contains_key(key),
        merged(list)[key] == list[i]@[key],
    decreases list.len(),
{
    if i < list.len() - 1 {
        assert(!list[list.len() - 1]@.contains_key(key));
        assert forall|j: int| i < j < list.drop_last().len() implies !(
        #[trigger] list.drop_last()[j])@.contains_key(key) by {
            assert(!list[j]@.contains_key(key));
        }
        law_later_writes_win(list.drop_last(), i, key);
    }
}

/// The two children of a prefix split its cells: each cell under the prefix is
/// under exactly one of them.
pub proof fn law_children_split_a_prefix(key: Seq<u8>, prefix: Seq<bool>)
    ensures
        under_prefix(key, prefix) <==> (under_prefix(key, prefix.push(false)) || under_prefix(
            key,
            prefix.push(true),
        )),
        !(under_prefix(key, prefix.push(false)) && under_prefix(key, prefix.push(true))),
{
    let n = prefix.len() as int;
    let zero = prefix.push(false);
    let one = prefix.push(true);
    assert(zero[n] == false);
    assert(one[n] == true);
    if under_prefix(key, prefix) {
        if bit_at(key, n) == 1 {
            assert forall|i: int| 0 <= i < one.len() implies (bit_at(key, i) == 1)
                == #[trigger] one[i] by {
                if i < n {
                    assert(one[i] == prefix[i]);
                }
            }
        } else {
            assert forall|i: int| 0 <= i < zero.len() implies (bit_at(key, i) == 1)
                == #[trigger] zero[i] by {
                if i < n {
                    assert(zero[i] == prefix[i]);
                }
            }
        }
    }
    if under_prefix(key, zero) {
        assert forall|i: int| 0 <= i < n implies (bit_at(key, i) == 1) == #[trigger] prefix[i] by {
            assert(zero[i] == prefix[i]);
        }
    }
    if under_prefix(key, one) {
        assert forall|i: int| 0 <= i < n implies (bit_at(key, i) == 1) == #[trigger] prefix[i] by {
            assert(one[i] == prefix[i]);
        }
    }
}

/// The empty prefix keeps everything.
pub proof fn law_empty_prefix_keeps_all(writes: Map<SubstateKey, Option<Seq<u8>>>)
    ensures
        within(writes, Seq::empty()) == writes,
{
    assert(within(writes, Seq::empty()) =~= writes);
}

/// Merging loses no cell and makes none up: a cell is written exactly where some
/// of the writes writes it.
pub proof fn law_merging_keeps_every_cell(list: Seq<&StateWrites>, key: SubstateKey)
    ensures
        merged(list).contains_key(key) <==> exists|i: int|
            0 <= i < list.len() && (#[trigger] list[i])@.contains_key(key),
    decreases list.len(),
{
    if list.len() > 0 {
        let t = list.drop_last();
        law_merging_keeps_every_cell(t, key);
        if merged(t).contains_key(key) {
            let i = choose|i: int| 0 <= i < t.len() && (#[trigger] t[i])@.contains_key(key);
            assert(list[i]@.contains_key(key));
        }
        if list.last()@.contains_key(key) {
            assert(list[list.len() - 1]@.contains_key(key));
        }
        if exists|i: int| 0 <= i < list.len() && (#[trigger] list[i])@.contains_key(key) {
            let i = choose|i: int| 0 <= i < list.len() && (#[trigger] list[i])@.contains_key(key);
            if i < t.len() {
                assert(t[i]@.contains_key(key));
            }
        }
    }
}

/// Receipts' writes come to the last word on each cell: a cell is written exactly
/// where some receipt that did not fail writes it, with what the last such
/// receipt left there.
pub proof fn law_the_last_receipt_decides(list: Seq<Option<StateWrites>>, key: SubstateKey)
    ensures
        ({
            let writes = |w: Option<StateWrites>| w is Some && w->0@.contains_key(key);
            &&& receipt_writes(list).contains_key(key) <==> some_at(list, writes)
            &&& forall|i: int| #[trigger]
                last_at(list, writes, i) ==> receipt_writes(list)[key] == list[i]->0@[key]
        }),
    decreases list.len(),
{
    lemma_last_at(list, |w: Option<StateWrites>| w is Some && w->0@.contains_key(key));
    if list.len() > 0 {
        law_the_last_receipt_decides(list.drop_last(), key);
    }
}

/// Restricting writes to a prefix keeps exactly the cells whose owner and local
/// bytes, one behind the other, open with its bits, each as it was written.
pub proof fn law_a_prefix_keeps_what_opens_with_it(
    writes: Map<SubstateKey, Option<Seq<u8>>>,
    prefix: Seq<bool>,
    key: SubstateKey,
)
    ensures
        within(writes, prefix).contains_key(key) <==> writes.contains_key(key) && forall|i: int|
            0 <= i < prefix.len() ==> (bit_at(key.owner@ + key.local@, i) == 1)
                == #[trigger] prefix[i],
        within(writes, prefix).contains_key(key) ==> within(writes, prefix)[key] == writes[key],
{
}

/// A change leaves the bytes it puts, and none where it puts none.
pub proof fn law_a_change_leaves_what_it_puts(change: Option<Vec<u8>>)
    ensures
        left(change) is Some <==> change is Some,
        change is Some ==> left(change)->0 == change->0@,
{
}

} // verus!
