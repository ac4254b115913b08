//! Fees: what a payer is charged, and how the burn lies over the fold.
use vstd::prelude::*;

use crate::bytes::{le_value, u128_from_le};
use crate::engine::fold::{cell_left, current, read_through, remainder, Cells, VmBase};
use crate::sorted::{lemma_take_next, strictly_sorted, SortedMap};
use crate::storage::writes::{left, StateWrites};
use crate::types::SubstateKey;

verus! {

/// What a shard charges as a transaction's fee payer.
#[derive(Clone, Copy, Debug)]
pub struct PayerFee {
    /// The vault that pays.
    pub vault: SubstateKey,
    /// The signed ceiling.
    pub max_fee: u128,
    /// What an abort settles.
    pub abort_floor: u128,
    /// Whether it can still be aborted after it ran: only a leg that crosses
    /// shards can.
    pub revocable: bool,
}

/// The smaller of two amounts.
pub open spec fn least(a: int, b: int) -> int {
    if a <= b {
        a
    } else {
        b
    }
}

/// What is left of an amount, at least nothing.
pub open spec fn less(a: int, b: int) -> nat {
    if a <= b {
        0
    } else {
        (a - b) as nat
    }
}

/// What a completed transaction burns: the fuel it consumed, up to the signed
/// ceiling.
pub open spec fn burn_of(fee: Option<PayerFee>, fuel: u64) -> int {
    match fee {
        Some(payer) => least(fuel as int, payer.max_fee as int),
        None => 0,
    }
}

/// What has been burned from a vault so far.
pub open spec fn burned_so_far(fees: Map<SubstateKey, u128>, vault: SubstateKey) -> int {
    if fees.contains_key(vault) {
        fees[vault] as int
    } else {
        0
    }
}

/// The burns after one more transaction.
pub open spec fn charged(fees: Map<SubstateKey, u128>, fee: Option<PayerFee>, fuel: u64) -> Map<
    SubstateKey,
    u128,
> {
    if burn_of(fee, fuel) > 0 {
        fees.insert(
            fee->0.vault,
            (burned_so_far(fees, fee->0.vault) + burn_of(fee, fuel)) as u128,
        )
    } else {
        fees
    }
}

/// What is left of a cell after a burn; no answer, if it is no amount.
pub open spec fn debited(cell: Option<Seq<u8>>, fee: int) -> Option<Option<Seq<u8>>> {
    match cell {
        Some(c) => if c.len() == 16 {
            Some(remainder(less(le_value(c) as int, fee)))
        } else {
            None
        },
        None => None,
    }
}

/// What the burn of a vault leaves over the fold, if it bites.
pub open spec fn burn_in(
    writes: Cells,
    running: Cells,
    base: Map<SubstateKey, Seq<u8>>,
    fees: Map<SubstateKey, u128>,
    vault: SubstateKey,
) -> Option<Option<Seq<u8>>> {
    if fees.contains_key(vault) {
        debited(current(writes, running, base, vault), fees[vault] as int)
    } else {
        None
    }
}

/// Writes with every burn laid over: each vault that was charged and holds an
/// amount is left with that amount less all burns so far.
pub open spec fn burned(
    writes: Cells,
    running: Cells,
    base: Map<SubstateKey, Seq<u8>>,
    fees: Map<SubstateKey, u128>,
) -> Cells {
    Map::new(
        |k: SubstateKey| writes.contains_key(k) || burn_in(writes, running, base, fees, k) is Some,
        |k: SubstateKey|
            if burn_in(writes, running, base, fees, k) is Some {
                burn_in(writes, running, base, fees, k)->0
            } else {
                writes[k]
            },
    )
}

fn debit(cell: &Option<Vec<u8>>, fee: u128) -> (r: Option<Option<Vec<u8>>>)
    ensures
        match r {
            Some(rest) => debited(left(*cell), fee as int) == Some(left(rest)),
            None => debited(left(*cell), fee as int) is None,
        },
{
    match cell {
        Some(c) => {
            if c.len() == 16 {
                let amount = u128_from_le(c.as_slice());
                let rest: u128 = if amount <= fee {
                    0
                } else {
                    amount - fee
                };
                Some(cell_left(rest))
            } else {
                None
            }
        },
        None => None,
    }
}

/// The burns of the first `n` vaults laid over.
spec fn burned_among(
    writes: Cells,
    running: Cells,
    base: Map<SubstateKey, Seq<u8>>,
    fees: Map<SubstateKey, u128>,
    order: Seq<SubstateKey>,
    n: int,
) -> Cells {
    Map::new(
        |k: SubstateKey|
            writes.contains_key(k) || (order.take(n).contains(k) && burn_in(
                writes,
                running,
                base,
                fees,
                k,
            ) is Some),
        |k: SubstateKey|
            if order.take(n).contains(k) && burn_in(writes, running, base, fees, k) is Some {
                burn_in(writes, running, base, fees, k)->0
            } else {
                writes[k]
            },
    )
}

/// Charges a transaction's burn, then lays every burn over the transaction's
/// writes: a later write of a charged vault must carry all burns so far.
pub fn apply_fee_burn(
    writes: &mut StateWrites,
    running: &StateWrites,
    base: &VmBase,
    fees_applied: &mut SortedMap<SubstateKey, u128>,
    fee: Option<PayerFee>,
    fuel: u64,
)
    requires
        fee is Some ==> burned_so_far(old(fees_applied)@, fee->0.vault) + burn_of(fee, fuel)
            <= u128::MAX,
    ensures
        final(fees_applied)@ == charged(old(fees_applied)@, fee, fuel),
        final(writes)@ == burned(old(writes)@, running@, base@, final(fees_applied)@),
{
    match fee {
        Some(payer) => {
            let burn: u128 = if (fuel as u128) <= payer.max_fee {
                fuel as u128
            } else {
                payer.max_fee
            };
            if burn > 0 {
                let so_far: u128 = match fees_applied.get(&payer.vault) {
                    Some(x) => *x,
                    None => 0,
                };
                fees_applied.insert(payer.vault, so_far + burn);
            }
        },
        None => {},
    }
    let ghost fees = fees_applied@;
    let ghost start = writes@;
    let count: usize = fees_applied.len();
    let ghost order = fees_applied.order();
    let mut i: usize = 0;
    assert(order.take(0) =~= Seq::empty());
    assert(writes@ =~= burned_among(start, running@, base@, fees, order, 0));
    while i < count
        invariant
            i <= count,
            count == order.len(),
            order == fees_applied.order(),
            fees == fees_applied@,
            fees.dom() == order.to_set(),
            strictly_sorted(order),
            writes@ == burned_among(start, running@, base@, fees, order, i as int),
        decreases count - i,
    {
        let vault = fees_applied.key_at(i);
        let owed: u128 = *fees_applied.value_at(i);
        proof {
            crate::sorted::lemma_sorted_distinct(order);
            assert(!order.take(i as int).contains(vault)) by {
                if order.take(i as int).contains(vault) {
                    let j = order.take(i as int).index_of(vault);
                    assert(order[j] == order[i as int]);
                }
            }
        }
        let cell = read_through(writes, running, base, &vault);
        assert(left(cell) == current(start, running@, base@, vault));
        let rest = debit(&cell, owed);
        proof {
            lemma_take_next(order, i as int);
        }
        match rest {
            Some(kept) => writes.insert(vault, kept),
            None => {},
        }
        assert(writes@ =~= burned_among(start, running@, base@, fees, order, i + 1));
        i = i + 1;
    }
    proof {
        assert(order.take(count as int) =~= order);
        assert forall|k: SubstateKey| order.contains(k) == fees.contains_key(k) by {
            assert(order.to_set().contains(k) == order.contains(k));
        }
        assert(writes@ =~= burned(start, running@, base@, fees));
    }
}

/// What an abort leaves in the payer's vault: the amount the batch left there
/// before this transaction, less all burns so far, less the floor. No answer,
/// if the vault holds no amount.
pub open spec fn aborted_vault(
    running: Cells,
    base: Map<SubstateKey, Seq<u8>>,
    fees: Map<SubstateKey, u128>,
    vault: SubstateKey,
    floor: u128,
) -> Option<Option<Seq<u8>>> {
    match current(Map::empty(), running, base, vault) {
        Some(c) => if c.len() == 16 {
            Some(
                remainder(
                    less(
                        less(le_value(c) as int, burned_so_far(fees, vault)) as int,
                        floor as int,
                    ),
                ),
            )
        } else {
            None
        },
        None => None,
    }
}

/// The one write that an abort settles: the payer's vault less the floor.
pub fn abort_writes(
    running: &StateWrites,
    base: &VmBase,
    fees_applied: &SortedMap<SubstateKey, u128>,
    vault: SubstateKey,
    floor: u128,
) -> (r: Option<StateWrites>)
    ensures
        match aborted_vault(running@, base@, fees_applied@, vault, floor) {
            Some(cell) => r is Some && r->0@ == Map::<SubstateKey, Option<Seq<u8>>>::empty().insert(
                vault,
                cell,
            ),
            None => r is None,
        },
{
    let none = StateWrites::new();
    let cell = read_through(&none, running, base, &vault);
    let owed: u128 = match fees_applied.get(&vault) {
        Some(x) => *x,
        None => 0,
    };
    match cell {
        Some(c) => {
            if c.len() != 16 {
                return None;
            }
            let amount = u128_from_le(c.as_slice());
            let applied: u128 = if amount <= owed {
                0
            } else {
                amount - owed
            };
            let rest: u128 = if applied <= floor {
                0
            } else {
                applied - floor
            };
            let mut writes = StateWrites::new();
            writes.insert(vault, cell_left(rest));
            Some(writes)
        },
        None => None,
    }
}

/// A transaction never burns more than it signed for, nor more than it
/// consumed, and no other vault is touched.
pub proof fn law_burn_is_capped(
    fees: Map<SubstateKey, u128>,
    fee: Option<PayerFee>,
    fuel: u64,
    vault: SubstateKey,
)
    requires
        fee is Some ==> burned_so_far(fees, fee->0.vault) + burn_of(fee, fuel) <= u128::MAX,
    ensures
        fee is Some && vault == fee->0.vault ==> burned_so_far(charged(fees, fee, fuel), vault)
            <= burned_so_far(fees, vault) + fee->0.max_fee && burned_so_far(
            charged(fees, fee, fuel),
            vault,
        ) <= burned_so_far(fees, vault) + fuel,
        !(fee is Some && vault == fee->0.vault) ==> burned_so_far(charged(fees, fee, fuel), vault)
            == burned_so_far(fees, vault),
{
}

/// Burns only lower what a cell holds, and leave every uncharged cell as the
/// fold wrote it.
pub proof fn law_burn_only_lowers(
    writes: Cells,
    running: Cells,
    base: Map<SubstateKey, Seq<u8>>,
    fees: Map<SubstateKey, u128>,
    key: SubstateKey,
)
    ensures
        !fees.contains_key(key) ==> (burned(writes, running, base, fees).contains_key(key)
            <==> writes.contains_key(key)) && (writes.contains_key(key) ==> burned(
            writes,
            running,
            base,
            fees,
        )[key] == writes[key]),
        burn_in(writes, running, base, fees, key) is Some ==> {
            let before = current(writes, running, base, key)->0;
            let rest = less(le_value(before) as int, fees[key] as int);
            before.len() == 16 && burned(writes, running, base, fees)[key] == remainder(rest)
                && rest <= le_value(before)
        },
{
}

/// A vault that its own fee drains is deleted: no zero amount is left behind.
pub proof fn law_drained_vaults_are_deleted(
    writes: Cells,
    running: Cells,
    base: Map<SubstateKey, Seq<u8>>,
    fees: Map<SubstateKey, u128>,
    vault: SubstateKey,
)
    requires
        fees.contains_key(vault),
        current(writes, running, base, vault) is Some,
        current(writes, running, base, vault)->0.len() == 16,
        le_value(current(writes, running, base, vault)->0) <= fees[vault],
    ensures
        burned(writes, running, base, fees).contains_key(vault),
        burned(writes, running, base, fees)[vault] is None,
{
}

} // verus!
