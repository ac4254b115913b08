//! Folding kernel receipts into absolute writes, and burning fees on top.
use vstd::prelude::*;

use crate::bridge::staking::VmEvent;
use crate::bytes::{
    le_bytes, le_value, lemma_le_canonical, lemma_le_round_trip, lemma_widths, u128_from_le, u128_le,
};
use crate::shard::{ShardId, ShardTrie};
use crate::sorted::SortedMap;
use crate::storage::canonical::copy_bytes;
use crate::storage::writes::{copy_option, left, StateWrites};
use crate::types::SubstateKey;

verus! {

/// What each written cell is left with.
pub type Cells = Map<SubstateKey, Option<Seq<u8>>>;

/// A change of an amount.
#[derive(Clone, Copy, Debug, PartialEq, Eq, Structural)]
pub struct Movement {
    /// What is added.
    pub credit: u128,
    /// What is taken.
    pub debit: u128,
}

/// What a transaction changed, as the kernel records it.
#[derive(Debug, PartialEq, Eq)]
pub struct Delta {
    /// Cells written outright, by key.
    pub cells: Vec<(SubstateKey, Option<Vec<u8>>)>,
    /// Amounts that moved, by key.
    pub movements: Vec<(SubstateKey, Movement)>,
    /// Reservations that were drawn on, by key.
    pub settles: Vec<(SubstateKey, u128)>,
    /// How many ordered-collection entries changed.
    pub entries: usize,
}

/// How a transaction came out.
#[derive(Debug, PartialEq, Eq)]
pub enum Outcome {
    /// It completed.
    Completed,
    /// The sender's doing.
    UserError {
        /// What went wrong.
        reason: String,
    },
    /// The protocol's doing.
    ProtocolError {
        /// What went wrong.
        reason: String,
    },
    /// A reservation was not covered.
    Infeasible {
        /// The cell.
        key: SubstateKey,
        /// How much was not covered.
        amount: u128,
    },
}

/// A kernel receipt.
#[derive(Debug, PartialEq, Eq)]
pub struct Receipt {
    /// How it came out.
    pub outcome: Outcome,
    /// Fuel consumed.
    pub fuel: u64,
    /// What admitting, routing and locking its declaration is worth, in fuel.
    pub declared_work: u64,
    /// What changed.
    pub delta: Delta,
    /// What it emitted, in order.
    pub events: Vec<VmEvent>,
}

/// Where a fold departs from what the kernel vetted.
#[derive(Clone, Copy, Debug, PartialEq, Eq, Structural)]
pub enum FoldFault {
    /// Ordered-collection entries changed.
    Entries,
    /// A cell is no amount.
    AmountCell,
    /// A movement passes its floor or its ceiling.
    Movement,
    /// A settle passes the committed amount.
    Settle,
}

/// The cells that a batch reads before it writes.
pub struct VmBase {
    cells: SortedMap<SubstateKey, Vec<u8>>,
}

impl View for VmBase {
    type V = Map<SubstateKey, Seq<u8>>;

    closed spec fn view(&self) -> Map<SubstateKey, Seq<u8>> {
        self.cells@.map_values(|v: Vec<u8>| v@)
    }
}

impl VmBase {
    /// No cells.
    pub fn new() -> (b: Self)
        ensures
            b@ == Map::<SubstateKey, Seq<u8>>::empty(),
    {
        let b = VmBase { cells: SortedMap::new() };
        assert(b@ =~= Map::<SubstateKey, Seq<u8>>::empty());
        b
    }

    /// Sets a cell.
    pub fn insert(&mut self, key: SubstateKey, value: Vec<u8>)
        ensures
            final(self)@ == old(self)@.insert(key, value@),
    {
        let ghost before = self.cells@;
        self.cells.insert(key, value);
        assert(self@ =~= before.map_values(|v: Vec<u8>| v@).insert(key, value@));
    }

    /// Clears a cell.
    pub fn remove(&mut self, key: &SubstateKey)
        ensures
            final(self)@ == old(self)@.remove(*key),
    {
        let ghost before = self.cells@;
        self.cells.remove(key);
        assert(self@ =~= before.map_values(|v: Vec<u8>| v@).remove(*key));
    }

    /// The value of a cell.
    pub fn cell(&self, key: &SubstateKey) -> (r: Option<Vec<u8>>)
        ensures
            left(r) == (if self@.contains_key(*key) {
                Some(self@[*key])
            } else {
                None
            }),
    {
        match self.cells.get(key) {
            Some(v) => Some(copy_bytes(v)),
            None => None,
        }
    }
}

/// Which owners a shard folds for: all of them, or its own.
pub struct Locality<'a> {
    /// Whether the batch crosses shards.
    pub cross_shard: bool,
    /// The shard.
    pub local_shard: ShardId,
    /// The partition.
    pub trie: &'a ShardTrie,
}

impl<'a> Locality<'a> {
    /// The shard folds for an owner.
    pub open spec fn local(&self, owner: [u8; 16]) -> bool {
        !self.cross_shard || self.trie.shard_of(owner@) == self.local_shard
    }

    /// Whether the shard folds for an owner.
    pub fn is_local(&self, owner: &[u8; 16]) -> (r: bool)
        requires
            self.trie.wf(),
        ensures
            r == self.local(*owner),
    {
        if self.cross_shard {
            self.trie.shard_for_prefix(owner) == self.local_shard
        } else {
            true
        }
    }
}

/// The value of a cell as a transaction sees it: its own write, else the
/// batch's, else the base's.
pub open spec fn current(
    writes: Cells,
    running: Cells,
    base: Map<SubstateKey, Seq<u8>>,
    key: SubstateKey,
) -> Option<Seq<u8>> {
    if writes.contains_key(key) {
        writes[key]
    } else if running.contains_key(key) {
        running[key]
    } else if base.contains_key(key) {
        Some(base[key])
    } else {
        None
    }
}

/// The amount that a cell holds: none is nothing, sixteen bytes are a number
/// lowest byte first, anything else is no amount.
pub open spec fn amount_in(cell: Option<Seq<u8>>) -> Option<nat> {
    match cell {
        None => Some(0),
        Some(c) => if c.len() == 16 {
            Some(le_value(c))
        } else {
            None
        },
    }
}

/// The bytes that an amount is held as.
pub open spec fn amount_cell(amount: nat) -> Seq<u8> {
    le_bytes(amount, 16)
}

/// What a cell is left with when it comes to an amount: nothing at all, where
/// the amount is nothing.
pub open spec fn remainder(amount: nat) -> Option<Seq<u8>> {
    if amount == 0 {
        None
    } else {
        Some(amount_cell(amount))
    }
}

/// The writes after one movement.
pub open spec fn moved(
    writes: Cells,
    running: Cells,
    base: Map<SubstateKey, Seq<u8>>,
    key: SubstateKey,
    m: Movement,
) -> Result<Cells, FoldFault> {
    match amount_in(current(writes, running, base, key)) {
        None => Err(FoldFault::AmountCell),
        Some(x) => if x + m.credit > u128::MAX || x + m.credit < m.debit {
            Err(FoldFault::Movement)
        } else {
            Ok(writes.insert(key, remainder((x + m.credit - m.debit) as nat)))
        },
    }
}

/// The writes after one settle.
pub open spec fn settled(
    writes: Cells,
    running: Cells,
    base: Map<SubstateKey, Seq<u8>>,
    key: SubstateKey,
    amount: u128,
) -> Result<Cells, FoldFault> {
    match amount_in(current(writes, running, base, key)) {
        None => Err(FoldFault::AmountCell),
        Some(x) => if x < amount {
            Err(FoldFault::Settle)
        } else {
            Ok(writes.insert(key, remainder((x - amount) as nat)))
        },
    }
}

/// The local cells of a list written outright, in order.
pub open spec fn written(
    list: Seq<(SubstateKey, Option<Vec<u8>>)>,
    local: spec_fn([u8; 16]) -> bool,
) -> Cells
    decreases list.len(),
{
    if list.len() == 0 {
        Map::empty()
    } else {
        let before = written(list.drop_last(), local);
        if local(list.last().0.owner) {
            before.insert(list.last().0, left(list.last().1))
        } else {
            before
        }
    }
}

/// The writes after the local movements of a list, in order.
pub open spec fn all_moved(
    writes: Cells,
    running: Cells,
    base: Map<SubstateKey, Seq<u8>>,
    list: Seq<(SubstateKey, Movement)>,
    local: spec_fn([u8; 16]) -> bool,
) -> Result<Cells, FoldFault>
    decreases list.len(),
{
    if list.len() == 0 {
        Ok(writes)
    } else {
        match all_moved(writes, running, base, list.drop_last(), local) {
            Err(e) => Err(e),
            Ok(w) => if local(list.last().0.owner) {
                moved(w, running, base, list.last().0, list.last().1)
            } else {
                Ok(w)
            },
        }
    }
}

/// The writes after the local settles of a list, in order.
pub open spec fn all_settled(
    writes: Cells,
    running: Cells,
    base: Map<SubstateKey, Seq<u8>>,
    list: Seq<(SubstateKey, u128)>,
    local: spec_fn([u8; 16]) -> bool,
) -> Result<Cells, FoldFault>
    decreases list.len(),
{
    if list.len() == 0 {
        Ok(writes)
    } else {
        match all_settled(writes, running, base, list.drop_last(), local) {
            Err(e) => Err(e),
            Ok(w) => if local(list.last().0.owner) {
                settled(w, running, base, list.last().0, list.last().1)
            } else {
                Ok(w)
            },
        }
    }
}

/// The absolute writes of a delta: cells, then movements, then settles, of the
/// owners the shard folds for.
pub open spec fn folded(
    delta: Delta,
    running: Cells,
    base: Map<SubstateKey, Seq<u8>>,
    local: spec_fn([u8; 16]) -> bool,
) -> Result<Cells, FoldFault> {
    if delta.entries > 0 {
        Err(FoldFault::Entries)
    } else {
        match all_moved(
            written(delta.cells@, local),
            running,
            base,
            delta.movements@,
            local,
        ) {
            Err(e) => Err(e),
            Ok(w) => all_settled(w, running, base, delta.settles@, local),
        }
    }
}

/// The value of a cell as a transaction sees it.
pub fn read_through(
    writes: &StateWrites,
    running: &StateWrites,
    base: &VmBase,
    key: &SubstateKey,
) -> (r: Option<Vec<u8>>)
    ensures
        left(r) == current(writes@, running@, base@, *key),
{
    match writes.get(key) {
        Some(c) => copy_option(c),
        None => {
            match running.get(key) {
                Some(c) => copy_option(c),
                None => base.cell(key),
            }
        },
    }
}

/// The amount that a cell holds, if it is one.
pub fn decode_amount(cell: &Option<Vec<u8>>) -> (r: Option<u128>)
    ensures
        match r {
            Some(x) => amount_in(left(*cell)) == Some(x as nat),
            None => amount_in(left(*cell)) is None,
        },
{
    match cell {
        None => Some(0),
        Some(c) => {
            if c.len() == 16 {
                Some(u128_from_le(c.as_slice()))
            } else {
                None
            }
        },
    }
}

/// The bytes that an amount is held as.
pub fn encode_amount(amount: u128) -> (c: Vec<u8>)
    ensures
        c@ == amount_cell(amount as nat),
        c@.len() == 16,
{
    u128_le(amount)
}

/// What a cell is left with when it comes to an amount. A cell that comes to
/// nothing is deleted rather than zeroed.
pub fn cell_left(amount: u128) -> (c: Option<Vec<u8>>)
    ensures
        left(c) == remainder(amount as nat),
{
    if amount == 0 {
        None
    } else {
        Some(encode_amount(amount))
    }
}

/// Folds a receipt's delta into absolute writes and lays them over what the
/// batch has folded so far. Where the fold departs from what the kernel
/// vetted, nothing is laid over.
pub fn fold_delta(
    receipt: &Receipt,
    base: &VmBase,
    running: &mut StateWrites,
    locality: &Locality,
) -> (r: Result<StateWrites, FoldFault>)
    requires
        locality.trie.wf(),
    ensures
        match folded(
            receipt.delta,
            old(running)@,
            base@,
            |o: [u8; 16]| locality.local(o),
        ) {
            Ok(w) => r is Ok && r->Ok_0@ == w && final(running)@ == old(running)@.union_prefer_right(w),
            Err(e) => r is Err && r->Err_0 == e && final(running)@ == old(running)@,
        },
{
    let ghost local = |o: [u8; 16]| locality.local(o);
    let delta = &receipt.delta;
    if delta.entries > 0 {
        return Err(FoldFault::Entries);
    }
    let mut writes = StateWrites::new();
    let mut i: usize = 0;
    assert(delta.cells@.take(0) =~= Seq::empty());
    while i < delta.cells.len()
        invariant
            i <= delta.cells@.len(),
            locality.trie.wf(),
            local == (|o: [u8; 16]| locality.local(o)),
            writes@ == written(delta.cells@.take(i as int), local),
        decreases delta.cells@.len() - i,
    {
        proof {
            assert(delta.cells@.take(i + 1).drop_last() =~= delta.cells@.take(i as int));
        }
        let key = delta.cells[i].0;
        if locality.is_local(&key.owner) {
            writes.insert(key, copy_option(&delta.cells[i].1));
        }
        i = i + 1;
    }
    assert(delta.cells@.take(delta.cells@.len() as int) =~= delta.cells@);
    let ghost w0 = writes@;
    let mut j: usize = 0;
    assert(delta.movements@.take(0) =~= Seq::empty());
    while j < delta.movements.len()
        invariant
            j <= delta.movements@.len(),
            locality.trie.wf(),
            local == (|o: [u8; 16]| locality.local(o)),
            running@ == old(running)@,
            *delta == receipt.delta,
            delta.entries == 0,
            w0 == written(delta.cells@, local),
            all_moved(w0, running@, base@, delta.movements@.take(j as int), local) == Ok::<
                Cells,
                FoldFault,
            >(writes@),
        decreases delta.movements@.len() - j,
    {
        let ghost next = delta.movements@.take(j + 1);
        proof {
            assert(next.drop_last() =~= delta.movements@.take(j as int));
        }
        let key = delta.movements[j].0;
        if locality.is_local(&key.owner) {
            let movement = delta.movements[j].1;
            let cell = read_through(&writes, running, base, &key);
            let fault = match decode_amount(&cell) {
                None => Some(FoldFault::AmountCell),
                Some(before) => {
                    match before.checked_add(movement.credit) {
                        None => Some(FoldFault::Movement),
                        Some(credited) => {
                            if credited < movement.debit {
                                Some(FoldFault::Movement)
                            } else {
                                writes.insert(key, cell_left(credited - movement.debit));
                                None
                            }
                        },
                    }
                },
            };
            match fault {
                Some(e) => {
                    proof {
                        assert(all_moved(w0, running@, base@, next, local) == Err::<
                            Cells,
                            FoldFault,
                        >(e));
                        lemma_moved_stays_err(
                            w0,
                            running@,
                            base@,
                            delta.movements@,
                            local,
                            (j + 1) as nat,
                        );
                    }
                    return Err(e);
                },
                None => {},
            }
        }
        j = j + 1;
    }
    assert(delta.movements@.take(delta.movements@.len() as int) =~= delta.movements@);
    let ghost w1 = writes@;
    let mut k: usize = 0;
    assert(delta.settles@.take(0) =~= Seq::empty());
    while k < delta.settles.len()
        invariant
            k <= delta.settles@.len(),
            locality.trie.wf(),
            local == (|o: [u8; 16]| locality.local(o)),
            running@ == old(running)@,
            *delta == receipt.delta,
            delta.entries == 0,
            w0 == written(delta.cells@, local),
            all_moved(w0, running@, base@, delta.movements@, local) == Ok::<Cells, FoldFault>(w1),
            all_settled(w1, running@, base@, delta.settles@.take(k as int), local) == Ok::<
                Cells,
                FoldFault,
            >(writes@),
        decreases delta.settles@.len() - k,
    {
        let ghost next = delta.settles@.take(k + 1);
        proof {
            assert(next.drop_last() =~= delta.settles@.take(k as int));
        }
        let key = delta.settles[k].0;
        if locality.is_local(&key.owner) {
            let amount: u128 = delta.settles[k].1;
            let cell = read_through(&writes, running, base, &key);
            let fault = match decode_amount(&cell) {
                None => Some(FoldFault::AmountCell),
                Some(before) => {
                    if before < amount {
                        Some(FoldFault::Settle)
                    } else {
                        writes.insert(key, cell_left(before - amount));
                        None
                    }
                },
            };
            match fault {
                Some(e) => {
                    proof {
                        assert(all_settled(w1, running@, base@, next, local) == Err::<
                            Cells,
                            FoldFault,
                        >(e));
                        lemma_settled_stays_err(
                            w1,
                            running@,
                            base@,
                            delta.settles@,
                            local,
                            (k + 1) as nat,
                        );
                    }
                    return Err(e);
                },
                None => {},
            }
        }
        k = k + 1;
    }
    assert(delta.settles@.take(delta.settles@.len() as int) =~= delta.settles@);
    running.extend(&writes);
    Ok(writes)
}

proof fn lemma_moved_stays_err(
    w: Cells,
    running: Cells,
    base: Map<SubstateKey, Seq<u8>>,
    list: Seq<(SubstateKey, Movement)>,
    local: spec_fn([u8; 16]) -> bool,
    n: nat,
)
    requires
        n <= list.len(),
        all_moved(w, running, base, list.take(n as int), local) is Err,
    ensures
        all_moved(w, running, base, list, local) == all_moved(
            w,
            running,
            base,
            list.take(n as int),
            local,
        ),
    decreases list.len() - n,
{
    if n < list.len() {
        assert(list.take((n + 1) as int).drop_last() =~= list.take(n as int));
        lemma_moved_stays_err(w, running, base, list, local, n + 1);
    } else {
        assert(list.take(n as int) =~= list);
    }
}

proof fn lemma_settled_stays_err(
    w: Cells,
    running: Cells,
    base: Map<SubstateKey, Seq<u8>>,
    list: Seq<(SubstateKey, u128)>,
    local: spec_fn([u8; 16]) -> bool,
    n: nat,
)
    requires
        n <= list.len(),
        all_settled(w, running, base, list.take(n as int), local) is Err,
    ensures
        all_settled(w, running, base, list, local) == all_settled(
            w,
            running,
            base,
            list.take(n as int),
            local,
        ),
    decreases list.len() - n,
{
    if n < list.len() {
        assert(list.take((n + 1) as int).drop_last() =~= list.take(n as int));
        lemma_settled_stays_err(w, running, base, list, local, n + 1);
    } else {
        assert(list.take(n as int) =~= list);
    }
}

/// What stands in a cell before a transaction: what the batch left there, else
/// what the base holds.
pub open spec fn standing(
    running: Cells,
    base: Map<SubstateKey, Seq<u8>>,
    key: SubstateKey,
) -> Option<Seq<u8>> {
    match running.dom().contains(key) {
        true => running[key],
        false => match base.dom().contains(key) {
            true => Some(base[key]),
            false => None,
        },
    }
}

/// A list's last write of a cell stands at this position.
pub open spec fn last_write(
    cells: Seq<(SubstateKey, Option<Vec<u8>>)>,
    key: SubstateKey,
    at: int,
) -> bool {
    &&& 0 <= at < cells.len()
    &&& cells[at].0 == key
    &&& forall|i: int| at < i < cells.len() ==> (#[trigger] cells[i]).0 != key
}

/// A list writes a cell outright.
pub open spec fn writes_outright(
    cells: Seq<(SubstateKey, Option<Vec<u8>>)>,
    key: SubstateKey,
) -> bool {
    exists|at: int| 0 <= at < cells.len() && (#[trigger] cells[at]).0 == key
}

/// What a transaction's movements and settles of a cell start from: its own last
/// write of it, else what stood there.
pub open spec fn opening(
    cells: Seq<(SubstateKey, Option<Vec<u8>>)>,
    running: Cells,
    base: Map<SubstateKey, Seq<u8>>,
    key: SubstateKey,
) -> Option<Seq<u8>> {
    if writes_outright(cells, key) {
        match cells[choose|at: int| last_write(cells, key, at)].1 {
            Some(v) => Some(v@),
            None => None,
        }
    } else {
        standing(running, base, key)
    }
}

/// What movements add to a cell, less what they take.
pub open spec fn net_of(list: Seq<(SubstateKey, Movement)>, key: SubstateKey) -> int
    decreases list.len(),
{
    if list.len() == 0 {
        0
    } else {
        net_of(list.drop_last(), key) + (if list.last().0 == key {
            list.last().1.credit - list.last().1.debit
        } else {
            0
        })
    }
}

/// What settles draw from a cell.
pub open spec fn drawn_of(list: Seq<(SubstateKey, u128)>, key: SubstateKey) -> int
    decreases list.len(),
{
    if list.len() == 0 {
        0
    } else {
        drawn_of(list.drop_last(), key) + (if list.last().0 == key {
            list.last().1 as int
        } else {
            0
        })
    }
}

/// A list of changes speaks of a cell.
pub open spec fn speaks_of<T>(list: Seq<(SubstateKey, T)>, key: SubstateKey) -> bool {
    exists|i: int| 0 <= i < list.len() && (#[trigger] list[i]).0 == key
}

/// A cell holds an amount: no cell holds nothing, and any other amount is
/// sixteen bytes that read as it.
pub open spec fn holds_amount(cell: Option<Seq<u8>>, amount: int) -> bool {
    match cell {
        None => amount == 0,
        Some(c) => c.len() == 16 && le_value(c) == amount,
    }
}

/// A cell is left with an amount: deleted at nothing, else sixteen bytes that
/// read as it.
pub open spec fn left_with(cell: Option<Seq<u8>>, amount: int) -> bool {
    match cell {
        None => amount == 0,
        Some(c) => amount > 0 && c.len() == 16 && le_value(c) == amount,
    }
}

/// What an amount leaves is that amount.
pub proof fn lemma_remainder(amount: nat)
    requires
        amount <= u128::MAX,
    ensures
        left_with(remainder(amount), amount as int),
        amount_in(remainder(amount)) == Some(amount),
{
    lemma_widths();
    if amount > 0 {
        lemma_le_round_trip(amount, 16);
    }
}

/// What a cell holds is an amount of sixteen bytes.
proof fn lemma_amount_in(cell: Option<Seq<u8>>)
    ensures
        match amount_in(cell) {
            Some(x) => holds_amount(cell, x as int) && x <= u128::MAX,
            None => forall|x: int| !holds_amount(cell, x),
        },
{
    lemma_widths();
    if cell is Some && cell->0.len() == 16 {
        lemma_le_canonical(cell->0);
    }
}

/// The outright writes of a list: the last of each local cell.
proof fn lemma_written(
    list: Seq<(SubstateKey, Option<Vec<u8>>)>,
    local: spec_fn([u8; 16]) -> bool,
    key: SubstateKey,
)
    ensures
        written(list, local).contains_key(key) == (local(key.owner) && writes_outright(list, key)),
        forall|at: int| #[trigger]
            last_write(list, key, at) && local(key.owner) ==> written(list, local)[key] == (
            match list[at].1 {
                Some(v) => Some(v@),
                None => None,
            }),
        writes_outright(list, key) ==> exists|at: int| last_write(list, key, at),
    decreases list.len(),
{
    if list.len() > 0 {
        let t = list.drop_last();
        lemma_written(t, local, key);
        let x = list.last();
        if x.0 == key {
            assert(list[list.len() - 1].0 == key);
            assert(last_write(list, key, list.len() - 1));
            assert forall|at: int| #[trigger] last_write(list, key, at) implies at == list.len()
                - 1 by {
                if at < list.len() - 1 {
                    assert(list[list.len() - 1].0 != key);
                }
            }
        } else {
            assert forall|at: int| last_write(t, key, at) == #[trigger] last_write(
                list,
                key,
                at,
            ) by {
                if last_write(t, key, at) {
                    assert(list[at] == t[at]);
                    assert forall|i: int| at < i < list.len() implies (#[trigger] list[i]).0
                        != key by {
                        if i < t.len() {
                            assert(t[i] == list[i]);
                        }
                    }
                }
                if last_write(list, key, at) {
                    assert(list[at] == t[at]);
                    assert forall|i: int| at < i < t.len() implies (#[trigger] t[i]).0 != key by {
                        assert(t[i] == list[i]);
                    }
                }
            }
            if writes_outright(list, key) {
                let at = choose|at: int| 0 <= at < list.len() && (#[trigger] list[at]).0 == key;
                assert(t[at].0 == key);
            }
            if writes_outright(t, key) {
                let at = choose|at: int| 0 <= at < t.len() && (#[trigger] t[at]).0 == key;
                assert(list[at].0 == key);
                let last = choose|at: int| last_write(t, key, at);
                assert(last_write(list, key, last));
            }
        }
    }
}

proof fn lemma_speaks<T>(list: Seq<(SubstateKey, T)>, key: SubstateKey)
    ensures
        list.len() == 0 ==> !speaks_of(list, key),
        list.len() > 0 ==> speaks_of(list, key) == (speaks_of(list.drop_last(), key)
            || list.last().0 == key),
{
    if list.len() > 0 {
        let t = list.drop_last();
        if speaks_of(t, key) {
            let i = choose|i: int| 0 <= i < t.len() && (#[trigger] t[i]).0 == key;
            assert(list[i].0 == key);
        }
        if list.last().0 == key {
            assert(list[list.len() - 1].0 == key);
        }
        if speaks_of(list, key) {
            let i = choose|i: int| 0 <= i < list.len() && (#[trigger] list[i]).0 == key;
            if i < t.len() {
                assert(t[i].0 == key);
            }
        }
    }
}

/// The movements of a list leave a cell with what it held and their net.
proof fn lemma_all_moved(
    writes: Cells,
    running: Cells,
    base: Map<SubstateKey, Seq<u8>>,
    list: Seq<(SubstateKey, Movement)>,
    local: spec_fn([u8; 16]) -> bool,
    key: SubstateKey,
)
    requires
        all_moved(writes, running, base, list, local) is Ok,
    ensures
        ({
            let after = all_moved(writes, running, base, list, local)->Ok_0;
            let start = amount_in(current(writes, running, base, key));
            if speaks_of(list, key) && local(key.owner) {
                &&& start is Some
                &&& 0 <= start->0 + net_of(list, key) <= u128::MAX
                &&& after.contains_key(key)
                &&& after[key] == remainder((start->0 + net_of(list, key)) as nat)
                &&& amount_in(after[key]) == Some((start->0 + net_of(list, key)) as nat)
            } else {
                &&& after.contains_key(key) == writes.contains_key(key)
                &&& writes.contains_key(key) ==> after[key] == writes[key]
            }
        }),
        !speaks_of(list, key) ==> net_of(list, key) == 0,
    decreases list.len(),
{
    lemma_speaks(list, key);
    if list.len() > 0 {
        let t = list.drop_last();
        lemma_all_moved(writes, running, base, t, local, key);
        let w = all_moved(writes, running, base, t, local)->Ok_0;
        if list.last().0 == key && local(key.owner) {
            let x = amount_in(current(w, running, base, key))->0;
            lemma_remainder((x + list.last().1.credit - list.last().1.debit) as nat);
        }
    }
}

/// The settles of a list leave a cell with what it held less what they draw.
proof fn lemma_all_settled(
    writes: Cells,
    running: Cells,
    base: Map<SubstateKey, Seq<u8>>,
    list: Seq<(SubstateKey, u128)>,
    local: spec_fn([u8; 16]) -> bool,
    key: SubstateKey,
)
    requires
        all_settled(writes, running, base, list, local) is Ok,
    ensures
        ({
            let after = all_settled(writes, running, base, list, local)->Ok_0;
            let start = amount_in(current(writes, running, base, key));
            if speaks_of(list, key) && local(key.owner) {
                &&& start is Some
                &&& 0 <= start->0 - drawn_of(list, key) <= u128::MAX
                &&& after.contains_key(key)
                &&& after[key] == remainder((start->0 - drawn_of(list, key)) as nat)
                &&& amount_in(after[key]) == Some((start->0 - drawn_of(list, key)) as nat)
            } else {
                &&& after.contains_key(key) == writes.contains_key(key)
                &&& writes.contains_key(key) ==> after[key] == writes[key]
            }
        }),
        !speaks_of(list, key) ==> drawn_of(list, key) == 0,
    decreases list.len(),
{
    lemma_speaks(list, key);
    if list.len() > 0 {
        let t = list.drop_last();
        lemma_all_settled(writes, running, base, t, local, key);
        let w = all_settled(writes, running, base, t, local)->Ok_0;
        if list.last().0 == key && local(key.owner) {
            lemma_amount_in(current(w, running, base, key));
            let x = amount_in(current(w, running, base, key))->0;
            lemma_remainder((x - list.last().1) as nat);
        }
    }
}

/// What a cell holds after the outright writes is what its movements start from.
proof fn lemma_opening(
    cells: Seq<(SubstateKey, Option<Vec<u8>>)>,
    running: Cells,
    base: Map<SubstateKey, Seq<u8>>,
    local: spec_fn([u8; 16]) -> bool,
    key: SubstateKey,
)
    requires
        local(key.owner),
    ensures
        current(written(cells, local), running, base, key) == opening(cells, running, base, key),
{
    lemma_written(cells, local, key);
    if writes_outright(cells, key) {
        let at = choose|at: int| last_write(cells, key, at);
        assert(last_write(cells, key, at));
    }
}

/// A fold conserves amounts. A local cell that is moved or settled is left with
/// what it opened with, and all its credits, less all its debits and all that is
/// settled; at nothing it is deleted. A local cell that is only written is left
/// with its last write. Nothing else is written, and nothing of another shard's.
pub proof fn law_a_fold_conserves_amounts(
    delta: Delta,
    running: Cells,
    base: Map<SubstateKey, Seq<u8>>,
    local: spec_fn([u8; 16]) -> bool,
    key: SubstateKey,
)
    requires
        folded(delta, running, base, local) is Ok,
    ensures
        ({
            let after = folded(delta, running, base, local)->Ok_0;
            let open = opening(delta.cells@, running, base, key);
            &&& after.contains_key(key) <==> local(key.owner) && (writes_outright(delta.cells@, key)
                || speaks_of(delta.movements@, key) || speaks_of(delta.settles@, key))
            &&& after.contains_key(key) && (speaks_of(delta.movements@, key) || speaks_of(
                delta.settles@,
                key,
            )) ==> exists|before: int| #[trigger]
                holds_amount(open, before) && left_with(
                    after[key],
                    before + net_of(delta.movements@, key) - drawn_of(delta.settles@, key),
                )
            &&& after.contains_key(key) && !speaks_of(delta.movements@, key) && !speaks_of(
                delta.settles@,
                key,
            ) ==> after[key] == open
            &&& delta.entries == 0
        }),
{
    let w0 = written(delta.cells@, local);
    let w1 = all_moved(w0, running, base, delta.movements@, local)->Ok_0;
    lemma_written(delta.cells@, local, key);
    lemma_all_moved(w0, running, base, delta.movements@, local, key);
    lemma_all_settled(w1, running, base, delta.settles@, local, key);
    if local(key.owner) {
        lemma_opening(delta.cells@, running, base, local, key);
        let open = opening(delta.cells@, running, base, key);
        lemma_amount_in(open);
        if speaks_of(delta.movements@, key) || speaks_of(delta.settles@, key) {
            let before = amount_in(open)->0 as int;
            assert(holds_amount(open, before));
            lemma_remainder(
                (before + net_of(delta.movements@, key) - drawn_of(delta.settles@, key)) as nat,
            );
        }
    }
}

/// A cell's amount can take a movement behind those of a list: with the credit
/// it stays in range, and it covers the debit.
pub open spec fn takes_movement(open: Option<Seq<u8>>, net: int, m: Movement) -> bool {
    exists|before: int| #[trigger]
        holds_amount(open, before) && before + net + m.credit <= u128::MAX && before + net
            + m.credit >= m.debit
}

/// A cell's amount covers a settle behind those of a list.
pub open spec fn covers_settle(open: Option<Seq<u8>>, net: int, amount: u128) -> bool {
    exists|before: int| #[trigger] holds_amount(open, before) && before + net >= amount
}

/// The movements of a list go through exactly where every local one can be taken
/// behind those before it.
proof fn lemma_moves_through(
    cells: Seq<(SubstateKey, Option<Vec<u8>>)>,
    running: Cells,
    base: Map<SubstateKey, Seq<u8>>,
    list: Seq<(SubstateKey, Movement)>,
    local: spec_fn([u8; 16]) -> bool,
)
    ensures
        all_moved(written(cells, local), running, base, list, local) is Ok <==> forall|i: int|
            0 <= i < list.len() && local((#[trigger] list[i]).0.owner) ==> takes_movement(
                opening(cells, running, base, list[i].0),
                net_of(list.take(i), list[i].0),
                list[i].1,
            ),
        all_moved(written(cells, local), running, base, list, local) is Err ==> (
        all_moved(written(cells, local), running, base, list, local)->Err_0 == FoldFault::AmountCell
            && exists|i: int|
            0 <= i < list.len() && local((#[trigger] list[i]).0.owner) && forall|x: int|
                !holds_amount(opening(cells, running, base, list[i].0), x)) || all_moved(
            written(cells, local),
            running,
            base,
            list,
            local,
        )->Err_0 == FoldFault::Movement,
    decreases list.len(),
{
    let w0 = written(cells, local);
    if list.len() > 0 {
        let t = list.drop_last();
        let n = list.len() - 1;
        lemma_moves_through(cells, running, base, t, local);
        assert forall|i: int| 0 <= i < n implies list.take(i) == t.take(i) && list[i] == t[i] by {
            assert(list.take(i) =~= t.take(i));
        }
        assert(list.take(n) =~= t);
        assert(list[n] == list.last());
        let before = all_moved(w0, running, base, t, local);
        let key = list.last().0;
        let m = list.last().1;
        if before is Err {
            let i = choose|i: int|
                0 <= i < t.len() && local((#[trigger] t[i]).0.owner) && !takes_movement(
                    opening(cells, running, base, t[i].0),
                    net_of(t.take(i), t[i].0),
                    t[i].1,
                );
            assert(list[i] == t[i]);
            assert(list.take(i) == t.take(i));
            if before->Err_0 == FoldFault::AmountCell {
                let i = choose|i: int|
                    0 <= i < t.len() && local((#[trigger] t[i]).0.owner) && forall|x: int|
                        !holds_amount(opening(cells, running, base, t[i].0), x);
                assert(list[i] == t[i]);
            }
        } else {
            assert forall|i: int| 0 <= i < n && local((#[trigger] list[i]).0.owner) implies
                takes_movement(
                opening(cells, running, base, list[i].0),
                net_of(list.take(i), list[i].0),
                list[i].1,
            ) by {
                assert(t[i] == list[i]);
            }
            if local(key.owner) {
                let w = before->Ok_0;
                let open = opening(cells, running, base, key);
                lemma_all_moved(w0, running, base, t, local, key);
                lemma_opening(cells, running, base, local, key);
                lemma_amount_in(open);
                lemma_amount_in(current(w, running, base, key));
                match amount_in(open) {
                    Some(x) => {
                        assert(holds_amount(open, x as int));
                        assert(amount_in(current(w, running, base, key)) == Some(
                            (x + net_of(t, key)) as nat,
                        ));
                        assert(takes_movement(open, net_of(t, key), m) == (x + net_of(t, key)
                            + m.credit <= u128::MAX && x + net_of(t, key) + m.credit >= m.debit));
                    },
                    None => {
                        assert(!takes_movement(open, net_of(t, key), m));
                        assert(amount_in(current(w, running, base, key)) is None);
                        assert(list[n].0 == key);
                    },
                }
            }
        }
    }
}

/// The settles of a list go through exactly where every local one is covered
/// behind the movements and the settles before it.
proof fn lemma_settles_through(
    cells: Seq<(SubstateKey, Option<Vec<u8>>)>,
    running: Cells,
    base: Map<SubstateKey, Seq<u8>>,
    moves: Seq<(SubstateKey, Movement)>,
    list: Seq<(SubstateKey, u128)>,
    local: spec_fn([u8; 16]) -> bool,
)
    requires
        all_moved(written(cells, local), running, base, moves, local) is Ok,
    ensures
        ({
            let w1 = all_moved(written(cells, local), running, base, moves, local)->Ok_0;
            let r = all_settled(w1, running, base, list, local);
            &&& r is Ok <==> forall|i: int|
                0 <= i < list.len() && local((#[trigger] list[i]).0.owner) ==> covers_settle(
                    opening(cells, running, base, list[i].0),
                    net_of(moves, list[i].0) - drawn_of(list.take(i), list[i].0),
                    list[i].1,
                )
            &&& r is Err ==> (r->Err_0 == FoldFault::AmountCell && exists|i: int|
                0 <= i < list.len() && local((#[trigger] list[i]).0.owner) && forall|x: int|
                    !holds_amount(opening(cells, running, base, list[i].0), x)) || r->Err_0
                == FoldFault::Settle
        }),
    decreases list.len(),
{
    let w0 = written(cells, local);
    let w1 = all_moved(w0, running, base, moves, local)->Ok_0;
    if list.len() > 0 {
        let t = list.drop_last();
        let n = list.len() - 1;
        lemma_settles_through(cells, running, base, moves, t, local);
        assert forall|i: int| 0 <= i < n implies list.take(i) == t.take(i) && list[i] == t[i] by {
            assert(list.take(i) =~= t.take(i));
        }
        assert(list.take(n) =~= t);
        assert(list[n] == list.last());
        let before = all_settled(w1, running, base, t, local);
        let key = list.last().0;
        let amount = list.last().1;
        if before is Err {
            let i = choose|i: int|
                0 <= i < t.len() && local((#[trigger] t[i]).0.owner) && !covers_settle(
                    opening(cells, running, base, t[i].0),
                    net_of(moves, t[i].0) - drawn_of(t.take(i), t[i].0),
                    t[i].1,
                );
            assert(list[i] == t[i]);
            assert(list.take(i) == t.take(i));
            if before->Err_0 == FoldFault::AmountCell {
                let i = choose|i: int|
                    0 <= i < t.len() && local((#[trigger] t[i]).0.owner) && forall|x: int|
                        !holds_amount(opening(cells, running, base, t[i].0), x);
                assert(list[i] == t[i]);
            }
        } else {
            assert forall|i: int| 0 <= i < n && local((#[trigger] list[i]).0.owner) implies
                covers_settle(
                opening(cells, running, base, list[i].0),
                net_of(moves, list[i].0) - drawn_of(list.take(i), list[i].0),
                list[i].1,
            ) by {
                assert(t[i] == list[i]);
            }
            if local(key.owner) {
                let w = before->Ok_0;
                let open = opening(cells, running, base, key);
                let sum = net_of(moves, key) - drawn_of(t, key);
                lemma_all_moved(w0, running, base, moves, local, key);
                lemma_all_settled(w1, running, base, t, local, key);
                lemma_opening(cells, running, base, local, key);
                lemma_amount_in(open);
                lemma_amount_in(current(w, running, base, key));
                match amount_in(open) {
                    Some(x) => {
                        assert(holds_amount(open, x as int));
                        assert(amount_in(current(w, running, base, key)) == Some((x + sum) as nat));
                        assert(covers_settle(open, sum, amount) == (x + sum >= amount));
                    },
                    None => {
                        assert(!covers_settle(open, sum, amount));
                        assert(amount_in(current(w, running, base, key)) is None);
                        assert(list[n].0 == key);
                    },
                }
            }
        }
    }
}

/// A fold goes through exactly where no ordered collection changed, every local
/// movement stays in range and is covered behind the movements before it, and
/// every local settle is covered behind all movements and the settles before it.
/// Where it does not, the fault says which: a cell that holds no amount, a
/// movement, or a settle.
pub proof fn law_a_fold_goes_through_where_it_is_covered(
    delta: Delta,
    running: Cells,
    base: Map<SubstateKey, Seq<u8>>,
    local: spec_fn([u8; 16]) -> bool,
)
    ensures
        ({
            let r = folded(delta, running, base, local);
            let moves = delta.movements@;
            let settles = delta.settles@;
            let moves_fit = forall|i: int|
                0 <= i < moves.len() && local((#[trigger] moves[i]).0.owner) ==> takes_movement(
                    opening(delta.cells@, running, base, moves[i].0),
                    net_of(moves.take(i), moves[i].0),
                    moves[i].1,
                );
            let settles_fit = forall|i: int|
                0 <= i < settles.len() && local((#[trigger] settles[i]).0.owner) ==> covers_settle(
                    opening(delta.cells@, running, base, settles[i].0),
                    net_of(moves, settles[i].0) - drawn_of(settles.take(i), settles[i].0),
                    settles[i].1,
                );
            &&& r is Ok <==> delta.entries == 0 && moves_fit && settles_fit
            &&& r is Err ==> (r->Err_0 == FoldFault::Entries <==> delta.entries > 0)
            &&& r is Err && r->Err_0 == FoldFault::Movement ==> !moves_fit
            &&& r is Err && r->Err_0 == FoldFault::Settle ==> moves_fit && !settles_fit
            &&& r is Err && r->Err_0 == FoldFault::AmountCell ==> exists|key: SubstateKey|
                local(key.owner) && (speaks_of(moves, key) || speaks_of(settles, key)) && forall|
                    x: int,
                | !holds_amount(#[trigger] opening(delta.cells@, running, base, key), x)
        }),
{
    let moves = delta.movements@;
    let settles = delta.settles@;
    let cells = delta.cells@;
    lemma_moves_through(cells, running, base, moves, local);
    let first = all_moved(written(cells, local), running, base, moves, local);
    if delta.entries == 0 {
        if first is Ok {
            lemma_settles_through(cells, running, base, moves, settles, local);
            let r = all_settled(first->Ok_0, running, base, settles, local);
            if r is Err && r->Err_0 == FoldFault::AmountCell {
                let i = choose|i: int|
                    0 <= i < settles.len() && local((#[trigger] settles[i]).0.owner) && forall|
                        x: int,
                    | !holds_amount(opening(cells, running, base, settles[i].0), x);
                assert(speaks_of(settles, settles[i].0));
            }
        } else if first->Err_0 == FoldFault::AmountCell {
            let i = choose|i: int|
                0 <= i < moves.len() && local((#[trigger] moves[i]).0.owner) && forall|x: int|
                    !holds_amount(opening(cells, running, base, moves[i].0), x);
            assert(speaks_of(moves, moves[i].0));
        }
    }
}

/// A shard folds for every owner where the batch stays on it, and else for those
/// that the partition gives it.
pub proof fn law_a_shard_folds_for_its_owners(locality: Locality, owner: [u8; 16])
    ensures
        locality.cross_shard ==> (locality.local(owner) <==> locality.trie.shard_of(owner@)
            == locality.local_shard),
        !locality.cross_shard ==> locality.local(owner),
{
}

} // verus!
