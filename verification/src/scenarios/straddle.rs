//! Casts that straddle a reshape, and the world that covers every cast.
use vstd::prelude::*;

use crate::crypto::ed25519::Ed25519PrivateKey;
use crate::order::{lemma_lex_irreflexive, lex_lt, OrdKey};
use crate::scenarios::ballast::{
    account_from_seed, ballast, ballasts, bulk_fund_into, bulks, matching, picks, push_shard,
    same_shard, seed_node, wide_node, Balance, BALLAST_TOKENS, PAYER_TOKENS,
};
use crate::scenarios::cast::{
    draw_all, draws, is_actor, seed_account, seed_bytes, signer_from_seed,
};
use crate::scenarios::funding::{
    cross_shard_fault_genesis_accounts, crossing_plan, fault_plan, fraction_funding, fraction_plan,
    funds, holds, is_leg, law_legs_run_in_pairs, left, legs_funding, legs_plan, repeated, right,
    vm_cross_fraction_genesis_accounts, vm_cross_shard_genesis_accounts, vm_genesis_accounts,
    vm_insolvent_genesis_accounts, vm_livelock_genesis_accounts,
    vm_nullifier_race_genesis_accounts, vm_staking_genesis_accounts, vm_storm_genesis_accounts,
    Funding, Leg, CONTENTION_RECIPIENT_BASE, CONTENTION_SENDER_BASE, CROSS_FRACTION_SENDERS,
    DELEGATOR_SEED, DUST, MERGE_STRADDLER_COUNT, OPERATOR_SEED, PAYER_FUNDING, STRADDLER_COUNT,
    TERMINATING_PAYER_FUNDING, VM_DELEGATOR_FUNDING, VM_OPERATOR_FUNDING, VM_STORM_FUNDING,
};
use crate::shard::ShardId;
use crate::sorted::SortedMap;

verus! {

/// The legs that the drawn actors make up, two by two.
pub open spec fn are_legs(legs: Seq<Leg>, seeds: Seq<u8>) -> bool {
    &&& 2 * legs.len() == seeds.len()
    &&& forall|i: int| 0 <= i < legs.len() ==> is_leg(#[trigger] legs[i], seeds[2 * i], seeds[2 * i + 1])
}

/// Adds each pair of actors as a leg: the payer funded fully, the recipient
/// with dust.
fn pair_up(
    actors: &Vec<(Ed25519PrivateKey, [u8; 16])>,
    count: usize,
    accounts: &mut Vec<Funding>,
) -> (legs: Vec<Leg>)
    requires
        2 * count <= actors@.len(),
    ensures
        legs@.len() == count,
        forall|i: int|
            0 <= i < count ==> #[trigger] legs@[i] == (
                actors@[2 * i].0,
                actors@[2 * i].1,
                actors@[2 * i + 1].1,
            ),
        final(accounts)@ == old(accounts)@ + Seq::new(
            2 * count as nat,
            |i: int| (actors@[i].1, legs_funding(count as nat)[i]),
        ),
{
    let mut legs: Vec<Leg> = Vec::new();
    let mut i: usize = 0;
    let ghost want = Seq::new(
        2 * count as nat,
        |i: int| (actors@[i].1, legs_funding(count as nat)[i]),
    );
    assert(old(accounts)@ + want.take(0) =~= old(accounts)@);
    while i < count
        invariant
            i <= count,
            2 * count <= actors.len(),
            legs@.len() == i,
            forall|j: int|
                0 <= j < i ==> #[trigger] legs@[j] == (
                    actors@[2 * j].0,
                    actors@[2 * j].1,
                    actors@[2 * j + 1].1,
                ),
            want == Seq::new(
                2 * count as nat,
                |i: int| (actors@[i].1, legs_funding(count as nat)[i]),
            ),
            accounts@ == old(accounts)@ + want.take(2 * i as int),
        decreases count - i,
    {
        let payer = &actors[2 * i];
        let recipient = &actors[2 * i + 1];
        legs.push((payer.0, payer.1, recipient.1));
        accounts.push((payer.1, PAYER_FUNDING));
        accounts.push((recipient.1, DUST));
        assert(want.take(2 * (i + 1) as int) =~= want.take(2 * i as int).push(
            want[2 * i as int],
        ).push(want[2 * i + 1]));
        i = i + 1;
    }
    assert(want.take(2 * count as int) =~= want);
    legs
}

/// The shard that splits.
pub open spec fn splitter() -> ShardId {
    ShardId { depth: 1, path: 0 }
}

/// The sibling that survives the split.
pub open spec fn survivor() -> ShardId {
    ShardId { depth: 1, path: 1 }
}

/// The child that the terminating payer's cells land in.
pub open spec fn successor() -> ShardId {
    ShardId { depth: 2, path: 0 }
}

/// The grinds of the split scenario: the straddlers, then the terminating
/// payer, its recipient, a recipient in the successor and a control payer.
pub open spec fn split_plan() -> Seq<(ShardId, u64)> {
    legs_plan(survivor(), splitter(), 2, STRADDLER_COUNT as nat) + seq![
        (successor(), 4u64),
        (survivor(), 2u64),
        (successor(), 4u64),
        (successor(), 4u64),
    ]
}

/// What the split scenario's accounts hold.
pub open spec fn split_funding() -> Seq<u128> {
    legs_funding(STRADDLER_COUNT as nat) + seq![TERMINATING_PAYER_FUNDING, DUST, DUST, PAYER_FUNDING]
}

/// The accounts and transfers of the split scenario.
pub struct SplitStraddlerLegs {
    /// The funded accounts.
    pub vm_accounts: Vec<Funding>,
    /// Transfers from the survivor into the splitter.
    pub straddlers: Vec<Leg>,
    /// The transfer whose payer sits on the shard that terminates.
    pub terminating: Leg,
    /// A recipient in the terminating payer's successor.
    pub successor_recipient: [u8; 16],
    /// An unencumbered payer beside the terminating one.
    pub control: (Ed25519PrivateKey, [u8; 16]),
}

impl SplitStraddlerLegs {
    /// The cast that the seeds make up.
    pub open spec fn from_seeds(&self, seeds: Seq<u8>) -> bool {
        &&& seeds.len() == 20
        &&& funds(self.vm_accounts@, seeds, split_funding())
        &&& are_legs(self.straddlers@, seeds.take(16))
        &&& is_leg(self.terminating, seeds[16], seeds[17])
        &&& self.successor_recipient@ == seed_account(seeds[18])
        &&& is_actor(self.control, seeds[19])
    }
}

fn push_legs(plan: &mut Vec<(ShardId, u64)>, from: ShardId, to: ShardId, num_shards: u64, count: usize)
    requires
        2 * count <= usize::MAX,
    ensures
        final(plan)@ == old(plan)@ + legs_plan(from, to, num_shards, count as nat),
{
    let ghost want = legs_plan(from, to, num_shards, count as nat);
    assert(old(plan)@ + want.take(0) =~= old(plan)@);
    let mut i: usize = 0;
    while i < count
        invariant
            i <= count,
            want == legs_plan(from, to, num_shards, count as nat),
            plan@ == old(plan)@ + want.take(2 * i as int),
        decreases count - i,
    {
        plan.push((from, num_shards));
        plan.push((to, num_shards));
        assert(want.take(2 * (i + 1) as int) =~= want.take(2 * i as int).push(
            want[2 * i as int],
        ).push(want[2 * i + 1]));
        i = i + 1;
    }
    assert(want.take(2 * count as int) =~= want);
}

/// Grinds the accounts and transfers of the split scenario.
#[must_use]
pub fn split_straddler_legs() -> (r: Option<SplitStraddlerLegs>)
    ensures
        match draws(split_plan(), Seq::empty()) {
            Some(seeds) => r is Some && (r->0).from_seeds(seeds),
            None => r is None,
        },
{
    let mut plan: Vec<(ShardId, u64)> = Vec::new();
    push_legs(&mut plan, ShardId::leaf(1, 1), ShardId::leaf(1, 0), 2, STRADDLER_COUNT);
    plan.push((ShardId::leaf(2, 0), 4));
    plan.push((ShardId::leaf(1, 1), 2));
    plan.push((ShardId::leaf(2, 0), 4));
    plan.push((ShardId::leaf(2, 0), 4));
    assert(plan@ =~= split_plan());
    let mut taken: Vec<u8> = Vec::new();
    let actors = match draw_all(plan.as_slice(), &mut taken) {
        Some(actors) => actors,
        None => {
            return None;
        },
    };
    let ghost seeds = draws(split_plan(), Seq::empty())->0;
    let mut vm_accounts: Vec<Funding> = Vec::new();
    let straddlers = pair_up(&actors, STRADDLER_COUNT, &mut vm_accounts);
    vm_accounts.push((actors[16].1, TERMINATING_PAYER_FUNDING));
    vm_accounts.push((actors[17].1, DUST));
    vm_accounts.push((actors[18].1, DUST));
    vm_accounts.push((actors[19].1, PAYER_FUNDING));
    proof {
        assert forall|i: int| 0 <= i < 20 implies holds(
            #[trigger] vm_accounts@[i],
            seeds[i],
            split_funding()[i],
        ) by {
            assert(is_actor(actors@[i], seeds[i]));
        }
        assert forall|i: int| 0 <= i < straddlers@.len() implies is_leg(
            #[trigger] straddlers@[i],
            seeds.take(16)[2 * i],
            seeds.take(16)[2 * i + 1],
        ) by {
            assert(is_actor(actors@[2 * i], seeds[2 * i]));
            assert(is_actor(actors@[2 * i + 1], seeds[2 * i + 1]));
        }
        assert(is_actor(actors@[16], seeds[16]));
        assert(is_actor(actors@[17], seeds[17]));
        assert(is_actor(actors@[18], seeds[18]));
        assert(is_actor(actors@[19], seeds[19]));
    }
    Some(
        SplitStraddlerLegs {
            vm_accounts,
            straddlers,
            terminating: (actors[16].0, actors[16].1, actors[17].1),
            successor_recipient: actors[18].1,
            control: actors[19],
        },
    )
}

/// The grinds of the merge scenario.
pub open spec fn merge_plan() -> Seq<(ShardId, u64)> {
    legs_plan(
        ShardId { depth: 2, path: 0 },
        ShardId { depth: 2, path: 2 },
        4,
        MERGE_STRADDLER_COUNT as nat,
    )
}

/// The accounts and transfers of the merge scenario.
pub struct MergeStraddlerLegs {
    /// The funded accounts.
    pub vm_accounts: Vec<Funding>,
    /// Transfers from the survivor into the merging left child.
    pub straddlers: Vec<Leg>,
}

fn draw_legs(plan: &Vec<(ShardId, u64)>, count: usize) -> (r: Option<(Vec<Funding>, Vec<Leg>)>)
    requires
        2 * count == plan@.len(),
    ensures
        match draws(plan@, Seq::empty()) {
            Some(seeds) => {
                &&& r is Some
                &&& funds((r->0).0@, seeds, legs_funding(count as nat))
                &&& are_legs((r->0).1@, seeds)
            },
            None => r is None,
        },
{
    let mut taken: Vec<u8> = Vec::new();
    let actors = match draw_all(plan.as_slice(), &mut taken) {
        Some(actors) => actors,
        None => {
            return None;
        },
    };
    let ghost seeds = draws(plan@, Seq::empty())->0;
    let mut accounts: Vec<Funding> = Vec::new();
    let legs = pair_up(&actors, count, &mut accounts);
    proof {
        assert forall|i: int| 0 <= i < accounts@.len() implies holds(
            #[trigger] accounts@[i],
            seeds[i],
            legs_funding(count as nat)[i],
        ) by {
            assert(is_actor(actors@[i], seeds[i]));
        }
        assert forall|i: int| 0 <= i < legs@.len() implies is_leg(
            #[trigger] legs@[i],
            seeds[2 * i],
            seeds[2 * i + 1],
        ) by {
            assert(is_actor(actors@[2 * i], seeds[2 * i]));
            assert(is_actor(actors@[2 * i + 1], seeds[2 * i + 1]));
        }
    }
    Some((accounts, legs))
}

/// Grinds the accounts and transfers of the merge scenario.
#[must_use]
pub fn merge_straddler_legs() -> (r: Option<MergeStraddlerLegs>)
    ensures
        match draws(merge_plan(), Seq::empty()) {
            Some(seeds) => {
                &&& r is Some
                &&& funds((r->0).vm_accounts@, seeds, legs_funding(MERGE_STRADDLER_COUNT as nat))
                &&& are_legs((r->0).straddlers@, seeds)
            },
            None => r is None,
        },
{
    let mut plan: Vec<(ShardId, u64)> = Vec::new();
    push_legs(&mut plan, ShardId::leaf(2, 0), ShardId::leaf(2, 2), 4, MERGE_STRADDLER_COUNT);
    assert(plan@ =~= merge_plan());
    match draw_legs(&plan, MERGE_STRADDLER_COUNT) {
        Some((vm_accounts, straddlers)) => Some(MergeStraddlerLegs { vm_accounts, straddlers }),
        None => None,
    }
}

/// One batch of the halted-shard scenario: two transfers into the halting
/// shard, one out of it.
pub open spec fn halt_batch() -> Seq<(ShardId, u64)> {
    legs_plan(right(), left(), 2, 2) + legs_plan(left(), right(), 2, 1)
}

/// The grinds of the halted-shard scenario: three batches, then a transfer in
/// each direction for after the recovery.
pub open spec fn halt_plan() -> Seq<(ShardId, u64)> {
    halt_batch() + halt_batch() + halt_batch() + legs_plan(right(), left(), 2, 1) + legs_plan(
        left(),
        right(),
        2,
        1,
    )
}

/// The accounts and transfers of the halted-shard scenario.
pub struct HaltStraddlerLegs {
    /// The funded accounts.
    pub vm_accounts: Vec<Funding>,
    /// The probe transfers in submission order.
    pub straddlers: Vec<Leg>,
    /// One transfer in each direction for after the recovery.
    pub post_recovery: Vec<Leg>,
}

fn push_halt_batch(plan: &mut Vec<(ShardId, u64)>)
    ensures
        final(plan)@ == old(plan)@ + halt_batch(),
{
    push_legs(plan, ShardId::leaf(1, 1), ShardId::leaf(1, 0), 2, 2);
    push_legs(plan, ShardId::leaf(1, 0), ShardId::leaf(1, 1), 2, 1);
    assert(plan@ =~= old(plan)@ + halt_batch());
}

/// Grinds the accounts and transfers of the halted-shard scenario.
#[must_use]
pub fn halt_straddler_legs() -> (r: Option<HaltStraddlerLegs>)
    ensures
        match draws(halt_plan(), Seq::empty()) {
            Some(seeds) => {
                &&& r is Some
                &&& funds((r->0).vm_accounts@, seeds, legs_funding(11))
                &&& are_legs((r->0).straddlers@, seeds.take(18))
                &&& are_legs((r->0).post_recovery@, seeds.skip(18))
            },
            None => r is None,
        },
{
    let mut plan: Vec<(ShardId, u64)> = Vec::new();
    push_halt_batch(&mut plan);
    push_halt_batch(&mut plan);
    push_halt_batch(&mut plan);
    push_legs(&mut plan, ShardId::leaf(1, 1), ShardId::leaf(1, 0), 2, 1);
    push_legs(&mut plan, ShardId::leaf(1, 0), ShardId::leaf(1, 1), 2, 1);
    assert(plan@ =~= halt_plan());
    match draw_legs(&plan, 11) {
        Some((vm_accounts, legs)) => {
            let mut straddlers = legs;
            let post_recovery = straddlers.split_off(9);
            proof {
                let seeds = draws(halt_plan(), Seq::empty())->0;
                assert forall|i: int| 0 <= i < 9 implies is_leg(
                    #[trigger] straddlers@[i],
                    seeds.take(18)[2 * i],
                    seeds.take(18)[2 * i + 1],
                ) by {
                    assert(straddlers@[i] == legs@[i]);
                }
                assert forall|i: int| 0 <= i < 2 implies is_leg(
                    #[trigger] post_recovery@[i],
                    seeds.skip(18)[2 * i],
                    seeds.skip(18)[2 * i + 1],
                ) by {
                    assert(post_recovery@[i] == legs@[i + 9]);
                }
            }
            Some(HaltStraddlerLegs { vm_accounts, straddlers, post_recovery })
        },
        None => None,
    }
}

/// The seed of the account that pays for the threshold vote.
pub const MERGE_VOTE_PAYER_SEED: u8 = 200;

/// The seed of the account that pays for the witness scenarios.
pub const WITNESS_PAYER_SEED: u8 = 42;

/// Ballast accounts that weigh down a splitting shard.
pub const STRADDLER_BULK: usize = 20;

/// Ballast accounts that hold a light surviving quarter up.
pub const MERGE_SURVIVOR_BULK: usize = 500;

/// The key of the threshold vote's payer.
#[must_use]
pub fn merge_vote_payer() -> (key: Ed25519PrivateKey)
    ensures
        key.secret() == seed_bytes(MERGE_VOTE_PAYER_SEED),
{
    signer_from_seed(MERGE_VOTE_PAYER_SEED)
}

/// The account of the threshold vote's payer.
#[must_use]
pub fn merge_vote_payer_account() -> (node: [u8; 30])
    ensures
        node@ == seed_node(MERGE_VOTE_PAYER_SEED),
{
    account_from_seed(MERGE_VOTE_PAYER_SEED)
}

/// The key of the witness scenarios' payer.
#[must_use]
pub fn witness_payer() -> (key: Ed25519PrivateKey)
    ensures
        key.secret() == seed_bytes(WITNESS_PAYER_SEED),
{
    signer_from_seed(WITNESS_PAYER_SEED)
}

/// Funding of the witness scenarios.
#[must_use]
pub fn witness_genesis_balances() -> (list: Vec<Balance>)
    ensures
        ballasts(list@, seq![WITNESS_PAYER_SEED], PAYER_TOKENS),
{
    vec![(account_from_seed(WITNESS_PAYER_SEED), PAYER_TOKENS)]
}

/// Funding that seats an account on each child of the first split.
#[must_use]
pub fn straddler_genesis_balances() -> (list: Vec<Balance>)
    ensures
        ballasts(list@, seq![31u8, 30u8], BALLAST_TOKENS),
{
    vec![(account_from_seed(31), BALLAST_TOKENS), (account_from_seed(30), BALLAST_TOKENS)]
}

/// Funding of the partition scenario: the crossing pair and two controls.
#[must_use]
pub fn intershard_partition_genesis_balances() -> (list: Vec<Balance>)
    ensures
        ballasts(list@, seq![31u8, 30u8, 40u8, 41u8], BALLAST_TOKENS),
{
    vec![
        (account_from_seed(31), BALLAST_TOKENS),
        (account_from_seed(30), BALLAST_TOKENS),
        (account_from_seed(40), BALLAST_TOKENS),
        (account_from_seed(41), BALLAST_TOKENS),
    ]
}

/// Contention payer `index`: its key and preallocated account.
#[must_use]
pub fn contention_sender(index: u8) -> (actor: (Ed25519PrivateKey, [u8; 30]))
    requires
        CONTENTION_SENDER_BASE + index <= u8::MAX,
    ensures
        actor.0.secret() == seed_bytes(
            (CONTENTION_SENDER_BASE + index) as u8,
        ),
        actor.1@ == seed_node((CONTENTION_SENDER_BASE + index) as u8),
{
    let seed: u8 = CONTENTION_SENDER_BASE + index;
    (signer_from_seed(seed), account_from_seed(seed))
}

/// Contention payee `index`: its preallocated account.
#[must_use]
pub fn contention_recipient(index: u8) -> (node: [u8; 30])
    requires
        CONTENTION_RECIPIENT_BASE + index <= u8::MAX,
    ensures
        node@ == seed_node((CONTENTION_RECIPIENT_BASE + index) as u8),
{
    account_from_seed(CONTENTION_RECIPIENT_BASE + index)
}

/// What a contention payee holds, in whole tokens.
pub const PAYEE_TOKENS: u64 = 10;

/// Funding of the contention scenarios: `senders` payers, then `recipients`
/// payees.
#[must_use]
pub fn contention_genesis_balances(senders: u8, recipients: u8) -> (list: Vec<Balance>)
    requires
        CONTENTION_SENDER_BASE + senders <= u8::MAX + 1,
        CONTENTION_RECIPIENT_BASE + recipients <= u8::MAX + 1,
    ensures
        list@.len() == senders + recipients,
        forall|i: int|
            0 <= i < senders ==> (#[trigger] list@[i]).0@ == seed_node(
                (CONTENTION_SENDER_BASE + i) as u8,
            ) && list@[i].1 == BALLAST_TOKENS,
        forall|i: int|
            senders <= i < senders + recipients ==> (#[trigger] list@[i]).0@ == seed_node(
                (CONTENTION_RECIPIENT_BASE + i - senders) as u8,
            ) && list@[i].1 == PAYEE_TOKENS,
{
    let mut list: Vec<Balance> = Vec::new();
    let mut i: u8 = 0;
    while i < senders
        invariant
            i <= senders,
            CONTENTION_SENDER_BASE + senders <= u8::MAX + 1,
            list@.len() == i,
            forall|j: int|
                0 <= j < i ==> (#[trigger] list@[j]).0@ == seed_node(
                    (CONTENTION_SENDER_BASE + j) as u8,
                ) && list@[j].1 == BALLAST_TOKENS,
        decreases senders - i,
    {
        list.push((contention_sender(i).1, BALLAST_TOKENS));
        i = i + 1;
    }
    let mut k: u8 = 0;
    while k < recipients
        invariant
            k <= recipients,
            CONTENTION_RECIPIENT_BASE + recipients <= u8::MAX + 1,
            list@.len() == senders + k,
            forall|j: int|
                0 <= j < senders ==> (#[trigger] list@[j]).0@ == seed_node(
                    (CONTENTION_SENDER_BASE + j) as u8,
                ) && list@[j].1 == BALLAST_TOKENS,
            forall|j: int|
                senders <= j < senders + k ==> (#[trigger] list@[j]).0@ == seed_node(
                    (CONTENTION_RECIPIENT_BASE + j - senders) as u8,
                ) && list@[j].1 == PAYEE_TOKENS,
        decreases recipients - k,
    {
        list.push((contention_recipient(k), PAYEE_TOKENS));
        k = k + 1;
    }
    list
}

/// Funding of the cross-shard contention scenarios: `senders` payers on the
/// left child.
#[must_use]
pub fn cross_contention_genesis_balances(senders: usize, routes: &[ShardId]) -> (r: Option<
    Vec<Balance>,
>)
    ensures
        match picks(same_shard(left(), senders as nat), routes@, Seq::empty()) {
            Some(seeds) => r is Some && ballasts(r->0@, seeds, BALLAST_TOKENS),
            None => r is None,
        },
{
    let mut taken: Vec<u8> = Vec::new();
    let mut list: Vec<Balance> = Vec::new();
    let mut plan: Vec<ShardId> = Vec::new();
    push_shard(&mut plan, ShardId::leaf(1, 0), senders);
    assert(plan@ =~= same_shard(left(), senders as nat));
    if ballast(plan.as_slice(), routes, &mut taken, &mut list) {
        assert(list@.skip(0) =~= list@);
        Some(list)
    } else {
        None
    }
}

/// The first `n` wide-seeded accounts on `shard`.
pub open spec fn bulk_seeds(wide: Seq<ShardId>, shard: ShardId, n: nat) -> Seq<u64> {
    matching(wide, shard).take(n as int)
}

/// The list starts with the vote payer and goes on with ballast on the left
/// child and ballast on the right one.
pub open spec fn recovery_balances(list: Seq<Balance>, wide: Seq<ShardId>) -> bool {
    &&& list.len() == 1 + 2 * STRADDLER_BULK
    &&& ballasts(list.take(1), seq![MERGE_VOTE_PAYER_SEED], PAYER_TOKENS)
    &&& bulks(
        list.subrange(1, 1 + STRADDLER_BULK),
        bulk_seeds(wide, left(), STRADDLER_BULK as nat),
    )
    &&& bulks(
        list.skip(1 + STRADDLER_BULK),
        bulk_seeds(wide, right(), STRADDLER_BULK as nat),
    )
}

/// Funding of the halted-shard recovery: both children of the first split
/// ballasted alike. `wide[k - 1]` is the shard of wide seed `k`'s account;
/// `None` where it does not reach far enough.
#[must_use]
pub fn halt_recovery_genesis_balances(wide: &[ShardId]) -> (r: Option<Vec<Balance>>)
    ensures
        match r {
            Some(list) => {
                &&& recovery_balances(list@, wide@)
                &&& matching(wide@, left()).len() >= STRADDLER_BULK
                &&& matching(wide@, right()).len() >= STRADDLER_BULK
            },
            None => matching(wide@, left()).len() < STRADDLER_BULK || matching(
                wide@,
                right(),
            ).len() < STRADDLER_BULK,
        },
{
    let mut list: Vec<Balance> = vec![(merge_vote_payer_account(), PAYER_TOKENS)];
    let ghost a = list@;
    if !bulk_fund_into(ShardId::leaf(1, 0), wide, STRADDLER_BULK, &mut list) {
        return None;
    }
    let ghost b = list@;
    if !bulk_fund_into(ShardId::leaf(1, 1), wide, STRADDLER_BULK, &mut list) {
        return None;
    }
    proof {
        assert(list@.take(1) =~= a) by {
            assert(b.take(1) == a);
            assert(list@.take(b.len() as int) == b);
            assert(list@.take(b.len() as int).take(1) =~= list@.take(1));
        }
        assert(list@.subrange(1, 1 + STRADDLER_BULK) =~= b.skip(1)) by {
            assert(list@.take(b.len() as int) == b);
            assert(b.len() == 1 + STRADDLER_BULK);
            assert(list@.take(b.len() as int).skip(1) =~= list@.subrange(1, b.len() as int));
        }
    }
    Some(list)
}

/// The list starts with the vote payer and goes on with the ballast of the
/// seeds.
pub open spec fn payer_and_ballast(list: Seq<Balance>, seeds: Seq<u8>) -> bool {
    &&& list.len() == 1 + seeds.len()
    &&& ballasts(list.take(1), seq![MERGE_VOTE_PAYER_SEED], PAYER_TOKENS)
    &&& ballasts(list.skip(1), seeds, BALLAST_TOKENS)
}

/// The ballast of the split scenario: the splitter weighed down, then a pair
/// for each straddler.
pub open spec fn split_ballast_plan() -> Seq<ShardId> {
    same_shard(splitter(), STRADDLER_BULK as nat) + same_shard(survivor(), STRADDLER_COUNT as nat)
        + same_shard(splitter(), STRADDLER_COUNT as nat)
}

/// Funding and transfers of the split scenario.
pub struct SplitStraddlerSetup {
    /// The ballast.
    pub balances: Vec<Balance>,
    /// The accounts and transfers.
    pub legs: SplitStraddlerLegs,
}

/// Builds the funding and transfers of the split scenario. `routes[s]` is the
/// shard of seed `s`'s preallocated account under two shards.
#[must_use]
pub fn split_straddler_setup(routes: &[ShardId]) -> (r: Option<SplitStraddlerSetup>)
    ensures
        match (
            picks(split_ballast_plan(), routes@, seq![MERGE_VOTE_PAYER_SEED]),
            draws(split_plan(), Seq::empty()),
        ) {
            (Some(ballast), Some(seeds)) => {
                &&& r is Some
                &&& payer_and_ballast((r->0).balances@, ballast)
                &&& (r->0).legs.from_seeds(seeds)
            },
            _ => r is None,
        },
{
    let mut plan: Vec<ShardId> = Vec::new();
    push_shard(&mut plan, ShardId::leaf(1, 0), STRADDLER_BULK);
    push_shard(&mut plan, ShardId::leaf(1, 1), STRADDLER_COUNT);
    push_shard(&mut plan, ShardId::leaf(1, 0), STRADDLER_COUNT);
    assert(plan@ =~= split_ballast_plan());
    let mut taken: Vec<u8> = vec![MERGE_VOTE_PAYER_SEED];
    assert(taken@ =~= seq![MERGE_VOTE_PAYER_SEED]);
    let mut balances: Vec<Balance> = vec![(merge_vote_payer_account(), PAYER_TOKENS)];
    if !ballast(plan.as_slice(), routes, &mut taken, &mut balances) {
        return None;
    }
    match split_straddler_legs() {
        Some(legs) => Some(SplitStraddlerSetup { balances, legs }),
        None => None,
    }
}

/// The ballast of the halted-shard scenario: an account for each transfer on
/// either child.
pub open spec fn halt_ballast_plan() -> Seq<ShardId> {
    same_shard(left(), 11) + same_shard(right(), 11)
}

/// Funding and transfers of the halted-shard scenario.
pub struct HaltStraddlerSetup {
    /// The ballast.
    pub balances: Vec<Balance>,
    /// The accounts and transfers.
    pub legs: HaltStraddlerLegs,
}

/// Builds the funding and transfers of the halted-shard scenario: the balances
/// of the recovery, then the ballast of the transfers.
#[must_use]
pub fn halt_straddler_setup(routes: &[ShardId], wide: &[ShardId]) -> (r: Option<HaltStraddlerSetup>)
    ensures
        match (
            picks(halt_ballast_plan(), routes@, seq![MERGE_VOTE_PAYER_SEED]),
            draws(halt_plan(), Seq::empty()),
            matching(wide@, left()).len() >= STRADDLER_BULK && matching(wide@, right()).len()
                >= STRADDLER_BULK,
        ) {
            (Some(ballast), Some(seeds), true) => {
                &&& r is Some
                &&& recovery_balances(
                    (r->0).balances@.take(1 + 2 * STRADDLER_BULK),
                    wide@,
                )
                &&& ballasts(
                    (r->0).balances@.skip(1 + 2 * STRADDLER_BULK),
                    ballast,
                    BALLAST_TOKENS,
                )
                &&& funds((r->0).legs.vm_accounts@, seeds, legs_funding(11))
                &&& are_legs((r->0).legs.straddlers@, seeds.take(18))
                &&& are_legs((r->0).legs.post_recovery@, seeds.skip(18))
            },
            _ => r is None,
        },
{
    let mut balances = match halt_recovery_genesis_balances(wide) {
        Some(balances) => balances,
        None => {
            return None;
        },
    };
    let mut plan: Vec<ShardId> = Vec::new();
    push_shard(&mut plan, ShardId::leaf(1, 0), 11);
    push_shard(&mut plan, ShardId::leaf(1, 1), 11);
    assert(plan@ =~= halt_ballast_plan());
    let mut taken: Vec<u8> = vec![MERGE_VOTE_PAYER_SEED];
    assert(taken@ =~= seq![MERGE_VOTE_PAYER_SEED]);
    if !ballast(plan.as_slice(), routes, &mut taken, &mut balances) {
        return None;
    }
    match halt_straddler_legs() {
        Some(legs) => Some(HaltStraddlerSetup { balances, legs }),
        None => None,
    }
}

/// The ballast of the merge scenario: a pair for each straddler.
pub open spec fn merge_ballast_plan() -> Seq<ShardId> {
    same_shard(ShardId { depth: 2, path: 0 }, MERGE_STRADDLER_COUNT as nat) + same_shard(
        ShardId { depth: 2, path: 2 },
        MERGE_STRADDLER_COUNT as nat,
    )
}

/// The quarter that the merge scenario holds up.
pub open spec fn held_up() -> ShardId {
    ShardId { depth: 2, path: 1 }
}

/// Funding and transfers of the merge scenario.
pub struct MergeStraddlerSetup {
    /// The ballast.
    pub balances: Vec<Balance>,
    /// The accounts and transfers.
    pub legs: MergeStraddlerLegs,
}

/// Builds the funding and transfers of the merge scenario: the vote payer, the
/// ballast that holds the light surviving quarter up, then the pairs. The
/// routes are those under four shards.
#[must_use]
pub fn merge_straddler_setup(routes: &[ShardId], wide: &[ShardId]) -> (r: Option<
    MergeStraddlerSetup,
>)
    ensures
        match (
            picks(merge_ballast_plan(), routes@, Seq::empty()),
            draws(merge_plan(), Seq::empty()),
            matching(wide@, held_up()).len() >= MERGE_SURVIVOR_BULK,
        ) {
            (Some(ballast), Some(seeds), true) => {
                let list = (r->0).balances@;
                &&& r is Some
                &&& list.len() == 1 + MERGE_SURVIVOR_BULK + ballast.len()
                &&& ballasts(list.take(1), seq![MERGE_VOTE_PAYER_SEED], PAYER_TOKENS)
                &&& bulks(
                    list.subrange(1, 1 + MERGE_SURVIVOR_BULK),
                    bulk_seeds(wide@, held_up(), MERGE_SURVIVOR_BULK as nat),
                )
                &&& ballasts(list.skip(1 + MERGE_SURVIVOR_BULK), ballast, BALLAST_TOKENS)
                &&& funds(
                    (r->0).legs.vm_accounts@,
                    seeds,
                    legs_funding(MERGE_STRADDLER_COUNT as nat),
                )
                &&& are_legs((r->0).legs.straddlers@, seeds)
            },
            _ => r is None,
        },
{
    let mut balances: Vec<Balance> = vec![(merge_vote_payer_account(), PAYER_TOKENS)];
    let ghost a = balances@;
    if !bulk_fund_into(ShardId::leaf(2, 1), wide, MERGE_SURVIVOR_BULK, &mut balances) {
        return None;
    }
    let ghost b = balances@;
    let mut plan: Vec<ShardId> = Vec::new();
    push_shard(&mut plan, ShardId::leaf(2, 0), MERGE_STRADDLER_COUNT);
    push_shard(&mut plan, ShardId::leaf(2, 2), MERGE_STRADDLER_COUNT);
    assert(plan@ =~= merge_ballast_plan());
    let mut taken: Vec<u8> = Vec::new();
    if !ballast(plan.as_slice(), routes, &mut taken, &mut balances) {
        return None;
    }
    proof {
        assert(b.len() == 1 + MERGE_SURVIVOR_BULK);
        assert(balances@.take(b.len() as int) == b);
        assert(balances@.take(1) =~= a) by {
            assert(b.take(1) == a);
            assert(balances@.take(b.len() as int).take(1) =~= balances@.take(1));
        }
        assert(balances@.subrange(1, b.len() as int) =~= b.skip(1)) by {
            assert(balances@.take(b.len() as int).skip(1) =~= balances@.subrange(
                1,
                b.len() as int,
            ));
        }
    }
    match merge_straddler_legs() {
        Some(legs) => Some(MergeStraddlerSetup { balances, legs }),
        None => None,
    }
}

/// The list holds an account.
pub open spec fn listed(list: Seq<Funding>, address: [u8; 16]) -> bool {
    exists|j: int| 0 <= j < list.len() && (#[trigger] list[j]).0 == address
}

/// The list holds each account of `all` once, in ascending order, each with an
/// amount that `all` gives it.
pub open spec fn registers(list: Seq<Funding>, all: Seq<Funding>) -> bool {
    &&& forall|i: int, j: int| 0 <= i < j < list.len() ==> lex_lt(list[i].0@, list[j].0@)
    &&& forall|i: int| 0 <= i < list.len() ==> all.contains(#[trigger] list[i])
    &&& forall|i: int| 0 <= i < all.len() ==> listed(list, (#[trigger] all[i]).0)
}

/// Sorts accounts and drops repeats of an address.
pub fn register(all: &Vec<Funding>) -> (list: Vec<Funding>)
    ensures
        registers(list@, all@),
{
    let mut map: SortedMap<[u8; 16], u128> = SortedMap::new();
    let mut i: usize = 0;
    while i < all.len()
        invariant
            i <= all.len(),
            forall|k: [u8; 16]|
                map@.contains_key(k) ==> all@.contains((k, #[trigger] map@[k])),
            forall|j: int| 0 <= j < i ==> map@.contains_key((#[trigger] all@[j]).0),
        decreases all.len() - i,
    {
        let entry = all[i];
        assert(all@[i as int] == entry);
        if !map.contains_key(&entry.0) {
            map.insert(entry.0, entry.1);
        }
        i = i + 1;
    }
    let mut list: Vec<Funding> = Vec::new();
    let count: usize = map.len();
    let mut k: usize = 0;
    while k < count
        invariant
            k <= count,
            count == map.order().len(),
            list@.len() == k,
            forall|j: int|
                0 <= j < k ==> (#[trigger] list@[j]).0 == map.order()[j] && map@.contains_key(
                    list@[j].0,
                ) && list@[j].1 == map@[list@[j].0],
        decreases count - k,
    {
        list.push((map.key_at(k), *map.value_at(k)));
        k = k + 1;
    }
    proof {
        assert forall|i: int, j: int| 0 <= i < j < list@.len() implies lex_lt(
            list@[i].0@,
            list@[j].0@,
        ) by {
            assert(map.order()[i].before(map.order()[j]));
        }
        assert forall|i: int| 0 <= i < list@.len() implies all@.contains(#[trigger] list@[i]) by {
            assert(all@.contains((list@[i].0, map@[list@[i].0])));
        }
        assert forall|i: int| 0 <= i < all@.len() implies listed(
            list@,
            (#[trigger] all@[i]).0,
        ) by {
            assert(map.order().to_set().contains(all@[i].0));
            let j = map.order().index_of(all@[i].0);
            assert(list@[j].0 == map.order()[j]);
        }
    }
    list
}

/// Every account that any cast here transacts with, once each and in
/// ascending order. The amounts are placeholders: a cluster funds its own
/// cast. `None` where a grind runs out of seeds.
#[must_use]
pub fn vm_world_accounts() -> (r: Option<Vec<Funding>>)
    ensures
        r is Some <==> draws(crossing_plan(), Seq::empty()) is Some && draws(
            split_plan(),
            Seq::empty(),
        ) is Some && draws(merge_plan(), Seq::empty()) is Some && draws(
            halt_plan(),
            Seq::empty(),
        ) is Some && draws(fault_plan(), Seq::empty()) is Some && draws(
            fraction_plan(CROSS_FRACTION_SENDERS as nat),
            Seq::empty(),
        ) is Some,
        r is Some ==> exists|every: Seq<Funding>| #[trigger] world(every) && registers(r->0@, every),
{
    let mut all = vm_genesis_accounts(24, 6);
    let ghost contention = all@;
    let (mut storm, mut crossing, mut insolvent, mut livelock) = match (
        vm_storm_genesis_accounts(),
        vm_cross_shard_genesis_accounts(),
        vm_insolvent_genesis_accounts(),
        vm_livelock_genesis_accounts(),
    ) {
        (Some(a), Some(b), Some(c), Some(d)) => (a, b, c, d),
        _ => {
            return None;
        },
    };
    let mut race = vm_nullifier_race_genesis_accounts();
    let mut split = match split_straddler_legs() {
        Some(legs) => legs.vm_accounts,
        None => {
            return None;
        },
    };
    let mut merge = match merge_straddler_legs() {
        Some(legs) => legs.vm_accounts,
        None => {
            return None;
        },
    };
    let mut halt = match halt_straddler_legs() {
        Some(legs) => legs.vm_accounts,
        None => {
            return None;
        },
    };
    let mut fault = match cross_shard_fault_genesis_accounts() {
        Some(accounts) => accounts,
        None => {
            return None;
        },
    };
    let mut staking = vm_staking_genesis_accounts();
    let mut fraction = match vm_cross_fraction_genesis_accounts(CROSS_FRACTION_SENDERS) {
        Some(accounts) => accounts,
        None => {
            return None;
        },
    };
    let ghost parts = WorldParts {
        contention,
        storm: storm@,
        crossing: crossing@,
        insolvent: insolvent@,
        race: race@,
        split: split@,
        merge: merge@,
        halt: halt@,
        fault: fault@,
        staking: staking@,
        livelock: livelock@,
        fraction: fraction@,
    };
    all.append(&mut storm);
    all.append(&mut crossing);
    all.append(&mut insolvent);
    all.append(&mut race);
    all.append(&mut split);
    all.append(&mut merge);
    all.append(&mut halt);
    all.append(&mut fault);
    all.append(&mut staking);
    all.append(&mut livelock);
    all.append(&mut fraction);
    proof {
        assert(parts.wf());
        assert(all@ == parts.joined());
        assert(world(all@));
    }
    let list = register(&all);
    assert(registers(list@, all@));
    Some(list)
}

/// The funding of every cast.
pub ghost struct WorldParts {
    /// The contention scenarios.
    pub contention: Seq<Funding>,
    /// The deploy storm.
    pub storm: Seq<Funding>,
    /// The cross-shard pair.
    pub crossing: Seq<Funding>,
    /// The insolvent payer.
    pub insolvent: Seq<Funding>,
    /// The nullifier race.
    pub race: Seq<Funding>,
    /// The split scenario.
    pub split: Seq<Funding>,
    /// The merge scenario.
    pub merge: Seq<Funding>,
    /// The halted-shard scenario.
    pub halt: Seq<Funding>,
    /// The fault scenarios.
    pub fault: Seq<Funding>,
    /// The staking scenarios.
    pub staking: Seq<Funding>,
    /// The livelock probe.
    pub livelock: Seq<Funding>,
    /// The fraction sweep.
    pub fraction: Seq<Funding>,
}

impl WorldParts {
    /// Each part funds its own cast.
    pub open spec fn wf(&self) -> bool {
        let pair = draws(crossing_plan(), Seq::empty())->0;
        &&& self.contention.len() == 30
        &&& forall|i: int|
            0 <= i < 24 ==> holds(
                #[trigger] self.contention[i],
                (CONTENTION_SENDER_BASE + i) as u8,
                PAYER_FUNDING,
            )
        &&& forall|i: int|
            24 <= i < 30 ==> holds(
                #[trigger] self.contention[i],
                (CONTENTION_RECIPIENT_BASE + i - 24) as u8,
                DUST,
            )
        &&& funds(self.storm, pair, repeated(VM_STORM_FUNDING, 2))
        &&& funds(self.crossing, pair, seq![PAYER_FUNDING, DUST])
        &&& funds(self.insolvent, pair, seq![DUST, DUST])
        &&& funds(
            self.race,
            seq![191u8, 192u8, 193u8],
            seq![PAYER_FUNDING, PAYER_FUNDING, DUST],
        )
        &&& funds(self.split, draws(split_plan(), Seq::empty())->0, split_funding())
        &&& funds(
            self.merge,
            draws(merge_plan(), Seq::empty())->0,
            legs_funding(MERGE_STRADDLER_COUNT as nat),
        )
        &&& funds(self.halt, draws(halt_plan(), Seq::empty())->0, legs_funding(11))
        &&& funds(
            self.fault,
            draws(fault_plan(), Seq::empty())->0,
            seq![PAYER_FUNDING, PAYER_FUNDING, PAYER_FUNDING, DUST, PAYER_FUNDING, DUST],
        )
        &&& funds(
            self.staking,
            seq![DELEGATOR_SEED, OPERATOR_SEED],
            seq![VM_DELEGATOR_FUNDING, VM_OPERATOR_FUNDING],
        )
        &&& funds(self.livelock, pair, repeated(PAYER_FUNDING, 2))
        &&& funds(
            self.fraction,
            draws(fraction_plan(CROSS_FRACTION_SENDERS as nat), Seq::empty())->0,
            fraction_funding(CROSS_FRACTION_SENDERS as nat),
        )
    }

    /// The parts, one after the other.
    pub open spec fn joined(&self) -> Seq<Funding> {
        self.contention + self.storm + self.crossing + self.insolvent + self.race + self.split
            + self.merge + self.halt + self.fault + self.staking + self.livelock + self.fraction
    }
}

/// The funding of every cast, one after the other.
pub open spec fn world(all: Seq<Funding>) -> bool {
    exists|parts: WorldParts| parts.wf() && all == #[trigger] parts.joined()
}

/// The split scenario's grinds: eight transfers from the sibling that survives
/// into the shard that splits, each payer before its recipient; then the payer
/// that terminates, on the child that succeeds it, its recipient on the sibling,
/// and a recipient and an unencumbered payer on that child.
pub proof fn law_the_split_cast_straddles_the_split(i: int)
    requires
        0 <= i < 8,
    ensures
        ({
            let plan = split_plan();
            let held = split_funding();
            let stays = ShardId { depth: 1, path: 1 };
            let splits = ShardId { depth: 1, path: 0 };
            let child = ShardId { depth: 2, path: 0 };
            &&& plan.len() == 20 && held.len() == 20
            &&& plan[2 * i] == (stays, 2u64) && held[2 * i] == 10_000
            &&& plan[2 * i + 1] == (splits, 2u64) && held[2 * i + 1] == 10
            &&& plan[16] == (child, 4u64) && held[16] == 1_500
            &&& plan[17] == (stays, 2u64) && held[17] == 10
            &&& plan[18] == (child, 4u64) && held[18] == 10
            &&& plan[19] == (child, 4u64) && held[19] == 10_000
        }),
{
    law_legs_run_in_pairs(
        survivor(),
        splitter(),
        2,
        STRADDLER_COUNT as nat,
        i,
    );
}

/// The cast of the split scenario is who was drawn for it: every straddler pays
/// from its own account into its own recipient's, and so does the payer that
/// terminates.
pub proof fn law_the_split_cast_is_who_was_drawn(cast: SplitStraddlerLegs, seeds: Seq<u8>, i: int)
    requires
        cast.from_seeds(seeds),
        0 <= i < 8,
    ensures
        cast.straddlers@.len() == 8,
        cast.straddlers@[i].0.secret() == seed_bytes(seeds[2 * i]),
        cast.straddlers@[i].1@ == seed_account(seeds[2 * i]),
        cast.straddlers@[i].2@ == seed_account(seeds[2 * i + 1]),
        cast.terminating.0.secret() == seed_bytes(seeds[16]),
        cast.terminating.1@ == seed_account(seeds[16]),
        cast.terminating.2@ == seed_account(seeds[17]),
        cast.successor_recipient@ == seed_account(seeds[18]),
        cast.control.0.secret() == seed_bytes(seeds[19]),
        cast.control.1@ == seed_account(seeds[19]),
        cast.vm_accounts@.len() == 20,
        forall|k: int|
            0 <= k < 20 ==> (#[trigger] cast.vm_accounts@[k]).0@ == seed_account(seeds[k])
                && cast.vm_accounts@[k].1 == split_funding()[k],
{
    assert(is_leg(cast.straddlers@[i], seeds.take(16)[2 * i], seeds.take(16)[2 * i + 1]));
    assert forall|k: int| 0 <= k < 20 implies (#[trigger] cast.vm_accounts@[k]).0@ == seed_account(
        seeds[k],
    ) && cast.vm_accounts@[k].1 == split_funding()[k] by {
        assert(holds(cast.vm_accounts@[k], seeds[k], split_funding()[k]));
    }
}

/// The merge scenario's grinds: four transfers out of the first quarter, which
/// merges, into the third.
pub proof fn law_the_merge_cast_straddles_the_merge(i: int)
    requires
        0 <= i < 4,
    ensures
        merge_plan().len() == 8,
        merge_plan()[2 * i] == (ShardId { depth: 2, path: 0 }, 4u64),
        merge_plan()[2 * i + 1] == (ShardId { depth: 2, path: 2 }, 4u64),
        merge_ballast_plan().len() == 8,
        merge_ballast_plan()[i] == (ShardId { depth: 2, path: 0 }),
        merge_ballast_plan()[4 + i] == (ShardId { depth: 2, path: 2 }),
{
    law_legs_run_in_pairs(
        ShardId { depth: 2, path: 0 },
        ShardId { depth: 2, path: 2 },
        4,
        MERGE_STRADDLER_COUNT as nat,
        i,
    );
}

/// The halted-shard scenario's grinds: three batches, each of two transfers into
/// the left child and one out of it, then one transfer each way for after the
/// recovery; and an account of ballast for each transfer on either child.
pub proof fn law_the_halt_cast_crosses_both_ways(batch: int)
    requires
        0 <= batch < 3,
    ensures
        ({
            let plan = halt_plan();
            let one = (ShardId { depth: 1, path: 0 }, 2u64);
            let other = (ShardId { depth: 1, path: 1 }, 2u64);
            &&& plan.len() == 22
            &&& plan[6 * batch] == other && plan[6 * batch + 1] == one
            &&& plan[6 * batch + 2] == other && plan[6 * batch + 3] == one
            &&& plan[6 * batch + 4] == one && plan[6 * batch + 5] == other
            &&& plan[18] == other && plan[19] == one
            &&& plan[20] == one && plan[21] == other
            &&& halt_ballast_plan().len() == 22
            &&& forall|i: int| 0 <= i < 11 ==> #[trigger] halt_ballast_plan()[i] == one.0
            &&& forall|i: int| 11 <= i < 22 ==> #[trigger] halt_ballast_plan()[i] == other.0
        }),
{
    law_legs_run_in_pairs(right(), left(), 2, 2, 0);
    law_legs_run_in_pairs(right(), left(), 2, 2, 1);
    law_legs_run_in_pairs(left(), right(), 2, 1, 0);
    law_legs_run_in_pairs(right(), left(), 2, 1, 0);
    let into = legs_plan(right(), left(), 2, 2);
    let out = legs_plan(left(), right(), 2, 1);
    let b = halt_batch();
    assert(b.len() == 6);
    assert(b[0] == into[0] && b[1] == into[1] && b[2] == into[2] && b[3] == into[3]);
    assert(b[4] == out[0] && b[5] == out[1]);
    let plan = halt_plan();
    assert forall|k: int| 0 <= k < 18 implies #[trigger] plan[k] == b[k % 6] by {
        if k < 6 {
        } else if k < 12 {
            assert(plan[k] == b[k - 6]);
        } else {
            assert(plan[k] == b[k - 12]);
        }
    }
    assert((6 * batch) % 6 == 0 && (6 * batch + 1) % 6 == 1 && (6 * batch + 2) % 6 == 2);
    assert((6 * batch + 3) % 6 == 3 && (6 * batch + 4) % 6 == 4 && (6 * batch + 5) % 6 == 5);
}

/// The split scenario's ballast: twenty accounts that weigh the splitting shard
/// down, then one on the sibling and one on the splitting shard for each of the
/// eight transfers.
pub proof fn law_the_split_ballast_weighs_the_splitter_down(i: int)
    requires
        0 <= i < 36,
    ensures
        split_ballast_plan().len() == 36,
        split_ballast_plan()[i] == (ShardId {
            depth: 1,
            path: if 20 <= i < 28 {
                1
            } else {
                0
            },
        }),
{
}

/// The world covers every cast: whoever any of them funds is registered once, with
/// an amount that some cast gives it.
pub proof fn law_the_world_covers_every_cast(
    list: Seq<Funding>,
    parts: WorldParts,
    entry: Funding,
)
    requires
        registers(list, parts.joined()),
        parts.contention.contains(entry) || parts.storm.contains(entry) || parts.crossing.contains(
            entry,
        ) || parts.insolvent.contains(entry) || parts.race.contains(entry) || parts.split.contains(
            entry,
        ) || parts.merge.contains(entry) || parts.halt.contains(entry) || parts.fault.contains(
            entry,
        ) || parts.staking.contains(entry) || parts.livelock.contains(entry)
            || parts.fraction.contains(entry),
    ensures
        exists|j: int| 0 <= j < list.len() && (#[trigger] list[j]).0 == entry.0,
        forall|i: int, j: int|
            0 <= i < j < list.len() ==> (#[trigger] list[i]).0 != (#[trigger] list[j]).0,
{
    let s1 = parts.contention;
    let s2 = s1 + parts.storm;
    let s3 = s2 + parts.crossing;
    let s4 = s3 + parts.insolvent;
    let s5 = s4 + parts.race;
    let s6 = s5 + parts.split;
    let s7 = s6 + parts.merge;
    let s8 = s7 + parts.halt;
    let s9 = s8 + parts.fault;
    let s10 = s9 + parts.staking;
    let s11 = s10 + parts.livelock;
    let s12 = s11 + parts.fraction;
    lemma_joined(s1, parts.storm, entry);
    lemma_joined(s2, parts.crossing, entry);
    lemma_joined(s3, parts.insolvent, entry);
    lemma_joined(s4, parts.race, entry);
    lemma_joined(s5, parts.split, entry);
    lemma_joined(s6, parts.merge, entry);
    lemma_joined(s7, parts.halt, entry);
    lemma_joined(s8, parts.fault, entry);
    lemma_joined(s9, parts.staking, entry);
    lemma_joined(s10, parts.livelock, entry);
    lemma_joined(s11, parts.fraction, entry);
    let all = parts.joined();
    assert(all == s12);
    let i = choose|i: int| 0 <= i < all.len() && all[i] == entry;
    assert(listed(list, all[i].0));
    assert forall|i: int, j: int| 0 <= i < j < list.len() implies (#[trigger] list[i]).0 != (
    #[trigger] list[j]).0 by {
        assert(lex_lt(list[i].0@, list[j].0@));
        lemma_lex_irreflexive(list[i].0@);
    }
}

proof fn lemma_joined(a: Seq<Funding>, b: Seq<Funding>, x: Funding)
    ensures
        a.contains(x) || b.contains(x) ==> (a + b).contains(x),
{
    if a.contains(x) {
        let i = choose|i: int| 0 <= i < a.len() && a[i] == x;
        assert((a + b)[i] == x);
    }
    if b.contains(x) {
        let i = choose|i: int| 0 <= i < b.len() && b[i] == x;
        assert((a + b)[a.len() + i] == x);
    }
}

/// The halted-shard recovery's balances: the vote payer with a hundred thousand,
/// then twenty accounts on the left child and twenty on the right, the first wide
/// seeds of each, with ten thousand.
pub proof fn law_the_recovery_is_balanced_on_both_sides(
    list: Seq<Balance>,
    wide: Seq<ShardId>,
    i: int,
)
    requires
        recovery_balances(list, wide),
        0 <= i < 20,
        matching(wide, ShardId { depth: 1, path: 0 }).len() >= 20,
        matching(wide, ShardId { depth: 1, path: 1 }).len() >= 20,
    ensures
        list.len() == 41,
        list[0].0@ == seed_node(200),
        list[0].1 == 100_000,
        list[1 + i].0@ == wide_node(matching(wide, ShardId { depth: 1, path: 0 })[i]),
        list[1 + i].1 == 10_000,
        list[21 + i].0@ == wide_node(matching(wide, ShardId { depth: 1, path: 1 })[i]),
        list[21 + i].1 == 10_000,
{
    assert(list.take(1)[0] == list[0]);
    assert(list.subrange(1, 21)[i] == list[1 + i]);
    assert(list.skip(21)[i] == list[21 + i]);
    assert(matching(wide, left()).take(20)[i] == matching(wide, left())[i]);
    assert(matching(wide, right()).take(20)[i] == matching(wide, right())[i]);
}

/// The split scenario's balances: the vote payer with a hundred thousand, then the
/// picked accounts with ten thousand each.
pub proof fn law_the_vote_payer_comes_before_the_ballast(
    list: Seq<Balance>,
    seeds: Seq<u8>,
    i: int,
)
    requires
        payer_and_ballast(list, seeds),
        0 <= i < seeds.len(),
    ensures
        list.len() == 1 + seeds.len(),
        list[0].0@ == seed_node(200),
        list[0].1 == 100_000,
        list[1 + i].0@ == seed_node(seeds[i]),
        list[1 + i].1 == 10_000,
{
    assert(list.take(1)[0] == list[0]);
    assert(list.skip(1)[i] == list[1 + i]);
}

} // verus!
