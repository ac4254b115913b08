//! Genesis funding of the scenario casts.
use vstd::arithmetic::power2::pow2;
use vstd::prelude::*;

use crate::crypto::ed25519::Ed25519PrivateKey;
use crate::order::OrdKey;
use crate::scenarios::cast::{
    draw_all, draws, is_actor, law_draws_are_fresh, seed_account, seed_bytes, signer_from_seed,
    vm_account_from_seed,
};
use crate::shard::{exact_log2, lemma_pow2_injective, spans, ShardId, ShardTrie};

verus! {

/// The fee ceiling that every built call envelope signs.
pub const VM_MAX_FEE: u128 = 1_000;

/// What a payer is funded with.
pub const PAYER_FUNDING: u128 = 10_000;

/// What an account is funded with that only has to exist.
pub const DUST: u128 = 10;

/// What the terminating payer holds: above one fee ceiling, below two.
pub const TERMINATING_PAYER_FUNDING: u128 = 1_500;

/// What a storm publisher is funded with.
pub const VM_STORM_FUNDING: u128 = 100_000_000;

/// The lowest stake a seated validator may hold, in the smallest unit.
pub const MIN_STAKE_FLOOR: u128 = 1_000_000_000_000_000_000_000_000;

/// What the delegator holds at genesis.
pub const VM_DELEGATOR_FUNDING: u128 = 40_000_000_000_000_000_000_000_000;

/// What the pool operator holds at genesis.
pub const VM_OPERATOR_FUNDING: u128 = 64_000;

/// How many senders the cross-shard fraction sweep runs with.
pub const CROSS_FRACTION_SENDERS: usize = 16;

/// Straddler transfers submitted across a split.
pub const STRADDLER_COUNT: usize = 8;

/// Straddler transfers submitted across a merge.
pub const MERGE_STRADDLER_COUNT: usize = 4;

/// Transfers in each batch of the halted-shard scenario.
pub const HALT_STRADDLER_BATCH: usize = 3;

/// The first seed of the contention payers.
pub const CONTENTION_SENDER_BASE: u8 = 120;

/// The first seed of the contention payees.
pub const CONTENTION_RECIPIENT_BASE: u8 = 200;

/// The seed of the delegator.
pub const DELEGATOR_SEED: u8 = 180;

/// The seed of the pool operator.
pub const OPERATOR_SEED: u8 = 181;

/// The terminating payer covers one fee ceiling and not two.
pub proof fn law_terminating_payer_covers_one_fee()
    ensures
        VM_MAX_FEE < TERMINATING_PAYER_FUNDING < 2 * VM_MAX_FEE,
{
}

/// Stake-scale funds: the delegator holds forty times the stake floor.
pub proof fn law_delegator_holds_forty_floors()
    ensures
        VM_DELEGATOR_FUNDING == 40 * MIN_STAKE_FLOOR,
{
}

/// An account and what it holds at genesis.
pub type Funding = ([u8; 16], u128);

/// A payer's key, the payer's account and the recipient's account.
pub type Leg = (Ed25519PrivateKey, [u8; 16], [u8; 16]);

/// The entry funds a seed's account with an amount.
pub open spec fn holds(entry: Funding, seed: u8, amount: u128) -> bool {
    entry.0@ == seed_account(seed) && entry.1 == amount
}

/// Entry by entry, the list funds the seeds' accounts with the amounts.
pub open spec fn funds(list: Seq<Funding>, seeds: Seq<u8>, amounts: Seq<u128>) -> bool {
    &&& list.len() == seeds.len()
    &&& list.len() == amounts.len()
    &&& forall|i: int| 0 <= i < list.len() ==> holds(#[trigger] list[i], seeds[i], amounts[i])
}

/// The leg runs from one seed's account to another's.
pub open spec fn is_leg(leg: Leg, payer: u8, recipient: u8) -> bool {
    &&& leg.0.secret() == seed_bytes(payer)
    &&& leg.1@ == seed_account(payer)
    &&& leg.2@ == seed_account(recipient)
}

/// The left child of the first split.
pub open spec fn left() -> ShardId {
    ShardId { depth: 1, path: 0 }
}

/// The right child of the first split.
pub open spec fn right() -> ShardId {
    ShardId { depth: 1, path: 1 }
}

/// One account on each child of the first split.
pub open spec fn crossing_plan() -> Seq<(ShardId, u64)> {
    seq![(left(), 2u64), (right(), 2u64)]
}

/// `n` times the same value.
pub open spec fn repeated<T>(value: T, n: nat) -> Seq<T> {
    Seq::new(n, |i: int| value)
}

/// `count` legs from one shard to another.
pub open spec fn legs_plan(from: ShardId, to: ShardId, num_shards: u64, count: nat) -> Seq<
    (ShardId, u64),
> {
    Seq::new(
        2 * count,
        |i: int|
            (
                if i % 2 == 0 {
                    from
                } else {
                    to
                },
                num_shards,
            ),
    )
}

/// What `count` legs are funded with: each payer fully, each recipient with
/// dust.
pub open spec fn legs_funding(count: nat) -> Seq<u128> {
    Seq::new(
        2 * count,
        |i: int|
            if i % 2 == 0 {
                PAYER_FUNDING
            } else {
                DUST
            },
    )
}

fn fund_evenly(actors: &Vec<(Ed25519PrivateKey, [u8; 16])>, amount: u128) -> (list: Vec<Funding>)
    ensures
        list@.len() == actors@.len(),
        forall|i: int| 0 <= i < actors@.len() ==> #[trigger] list@[i] == (actors@[i].1, amount),
{
    let mut list: Vec<Funding> = Vec::new();
    let mut i: usize = 0;
    while i < actors.len()
        invariant
            i <= actors.len(),
            list@.len() == i,
            forall|j: int| 0 <= j < i ==> #[trigger] list@[j] == (actors@[j].1, amount),
        decreases actors.len() - i,
    {
        list.push((actors[i].1, amount));
        i = i + 1;
    }
    list
}

/// Contention payer `index`.
#[must_use]
pub fn vm_sender(index: u8) -> (actor: (Ed25519PrivateKey, [u8; 16]))
    requires
        CONTENTION_SENDER_BASE + index <= u8::MAX,
    ensures
        is_actor(actor, (CONTENTION_SENDER_BASE + index) as u8),
{
    let seed: u8 = CONTENTION_SENDER_BASE + index;
    (signer_from_seed(seed), vm_account_from_seed(seed))
}

/// Contention payee `index`.
#[must_use]
pub fn vm_recipient(index: u8) -> (address: [u8; 16])
    requires
        CONTENTION_RECIPIENT_BASE + index <= u8::MAX,
    ensures
        address@ == seed_account((CONTENTION_RECIPIENT_BASE + index) as u8),
{
    vm_account_from_seed(CONTENTION_RECIPIENT_BASE + index)
}

/// Genesis accounts of the contention scenarios: `senders` funded payers, then
/// `recipients` payees.
#[must_use]
pub fn vm_genesis_accounts(senders: u8, recipients: u8) -> (list: Vec<Funding>)
    requires
        CONTENTION_SENDER_BASE + senders <= u8::MAX + 1,
        CONTENTION_RECIPIENT_BASE + recipients <= u8::MAX + 1,
    ensures
        list@.len() == senders + recipients,
        forall|i: int|
            0 <= i < senders ==> holds(
                #[trigger] list@[i],
                (CONTENTION_SENDER_BASE + i) as u8,
                PAYER_FUNDING,
            ),
        forall|i: int|
            senders <= i < senders + recipients ==> holds(
                #[trigger] list@[i],
                (CONTENTION_RECIPIENT_BASE + i - senders) as u8,
                DUST,
            ),
{
    let mut list: Vec<Funding> = Vec::new();
    let mut i: u8 = 0;
    while i < senders
        invariant
            i <= senders,
            CONTENTION_SENDER_BASE + senders <= u8::MAX + 1,
            list@.len() == i,
            forall|j: int|
                0 <= j < i ==> holds(
                    #[trigger] list@[j],
                    (CONTENTION_SENDER_BASE + j) as u8,
                    PAYER_FUNDING,
                ),
        decreases senders - i,
    {
        list.push((vm_sender(i).1, PAYER_FUNDING));
        i = i + 1;
    }
    let mut k: u8 = 0;
    while k < recipients
        invariant
            k <= recipients,
            CONTENTION_RECIPIENT_BASE + recipients <= u8::MAX + 1,
            list@.len() == senders + k,
            forall|j: int|
                0 <= j < senders ==> holds(
                    #[trigger] list@[j],
                    (CONTENTION_SENDER_BASE + j) as u8,
                    PAYER_FUNDING,
                ),
            forall|j: int|
                senders <= j < senders + k ==> holds(
                    #[trigger] list@[j],
                    (CONTENTION_RECIPIENT_BASE + j - senders) as u8,
                    DUST,
                ),
        decreases recipients - k,
    {
        list.push((vm_recipient(k), DUST));
        k = k + 1;
    }
    list
}

/// `count` accounts on `shard` under the uniform partition into `num_shards`.
#[must_use]
pub fn vm_accounts_routing_to(
    shard: ShardId,
    num_shards: u64,
    count: usize,
    taken: &mut Vec<u8>,
) -> (r: Option<Vec<(Ed25519PrivateKey, [u8; 16])>>)
    ensures
        match draws(repeated((shard, num_shards), count as nat), old(taken)@) {
            Some(seeds) => {
                &&& r is Some
                &&& r->0@.len() == count
                &&& seeds.len() == count
                &&& forall|i: int| 0 <= i < count ==> is_actor(#[trigger] r->0@[i], seeds[i])
                &&& final(taken)@ == old(taken)@ + seeds
            },
            None => r is None && old(taken)@.is_prefix_of(final(taken)@),
        },
{
    let mut plan: Vec<(ShardId, u64)> = Vec::new();
    let mut i: usize = 0;
    while i < count
        invariant
            i <= count,
            plan@.len() == i,
            forall|j: int| 0 <= j < i ==> plan@[j] == (shard, num_shards),
        decreases count - i,
    {
        plan.push((shard, num_shards));
        i = i + 1;
    }
    assert(plan@ =~= repeated((shard, num_shards), count as nat));
    draw_all(plan.as_slice(), taken)
}

/// An account on a child of the first split; the shard must be one of the two.
#[must_use]
pub fn vm_account_routing_to(shard: ShardId, taken: &mut Vec<u8>) -> (r: Option<
    (Ed25519PrivateKey, [u8; 16]),
>)
    requires
        shard == left() || shard == right(),
    ensures
        match crate::scenarios::cast::ground(shard, 2, old(taken)@) {
            Some(seed) => r is Some && is_actor(r->0, seed) && final(taken)@ == old(taken)@.push(
                seed,
            ),
            None => r is None && final(taken)@ == old(taken)@,
        },
{
    crate::scenarios::cast::vm_account_routing_to_n(shard, 2, taken)
}

/// The shard that owns an account under the uniform partition into
/// `num_shards`. `None` where that is no power of two.
#[must_use]
pub fn vm_account_shard(address: &[u8; 16], num_shards: u64) -> (r: Option<ShardId>)
    ensures
        match r {
            Some(shard) => crate::scenarios::cast::leaf_of(shard, num_shards)
                && crate::shard::spans(shard, address@),
            None => forall|d: nat| num_shards != #[trigger] vstd::arithmetic::power2::pow2(d),
        },
{
    match ShardTrie::uniform_from_count(num_shards) {
        Some(trie) => {
            let shard = trie.shard_for_prefix(address);
            proof {
                let i = choose|i: int| 0 <= i < trie.leaves@.len() && trie.leaves@[i] == shard;
                assert(trie.leaves@[i] == shard);
            }
            Some(shard)
        },
        None => None,
    }
}

fn crossing_actors() -> (r: Option<Vec<(Ed25519PrivateKey, [u8; 16])>>)
    ensures
        match draws(crossing_plan(), Seq::empty()) {
            Some(seeds) => {
                &&& r is Some
                &&& seeds.len() == 2
                &&& r->0@.len() == 2
                &&& is_actor(r->0@[0], seeds[0])
                &&& is_actor(r->0@[1], seeds[1])
            },
            None => r is None,
        },
{
    let plan: [(ShardId, u64); 2] = [(ShardId::leaf(1, 0), 2), (ShardId::leaf(1, 1), 2)];
    assert(plan@ =~= crossing_plan());
    let mut taken: Vec<u8> = Vec::new();
    let r = draw_all(plan.as_slice(), &mut taken);
    proof {
        if r is Some {
            let s = draws(crossing_plan(), Seq::empty())->0;
            assert(is_actor(r->0@[0], s[0]) && is_actor(r->0@[1], s[1]));
        }
    }
    r
}

/// The conflicting pair of the livelock probe: one account on each child of
/// the first split.
#[must_use]
pub fn vm_livelock_pair() -> (r: Option<Vec<(Ed25519PrivateKey, [u8; 16])>>)
    ensures
        match draws(crossing_plan(), Seq::empty()) {
            Some(seeds) => {
                &&& r is Some
                &&& seeds.len() == 2
                &&& r->0@.len() == 2
                &&& is_actor(r->0@[0], seeds[0])
                &&& is_actor(r->0@[1], seeds[1])
            },
            None => r is None,
        },
{
    crossing_actors()
}

/// Funding of [`vm_livelock_pair`]: both sides pay.
#[must_use]
pub fn vm_livelock_genesis_accounts() -> (r: Option<Vec<Funding>>)
    ensures
        match draws(crossing_plan(), Seq::empty()) {
            Some(seeds) => r is Some && funds(r->0@, seeds, repeated(PAYER_FUNDING, 2)),
            None => r is None,
        },
{
    match crossing_actors() {
        Some(actors) => Some(fund_evenly(&actors, PAYER_FUNDING)),
        None => None,
    }
}

/// The publishers of the deploy storm: one on each child of the first split.
#[must_use]
pub fn vm_storm_publishers() -> (r: Option<Vec<(Ed25519PrivateKey, [u8; 16])>>)
    ensures
        match draws(crossing_plan(), Seq::empty()) {
            Some(seeds) => {
                &&& r is Some
                &&& seeds.len() == 2
                &&& r->0@.len() == 2
                &&& is_actor(r->0@[0], seeds[0])
                &&& is_actor(r->0@[1], seeds[1])
            },
            None => r is None,
        },
{
    crossing_actors()
}

/// Funding of [`vm_storm_publishers`].
#[must_use]
pub fn vm_storm_genesis_accounts() -> (r: Option<Vec<Funding>>)
    ensures
        match draws(crossing_plan(), Seq::empty()) {
            Some(seeds) => r is Some && funds(r->0@, seeds, repeated(VM_STORM_FUNDING, 2)),
            None => r is None,
        },
{
    match crossing_actors() {
        Some(actors) => Some(fund_evenly(&actors, VM_STORM_FUNDING)),
        None => None,
    }
}

/// The cross-shard pair with both keys: the payer on the left child, the
/// recipient on the right.
#[must_use]
pub fn vm_cross_shard_keys() -> (r: Option<
    (Ed25519PrivateKey, [u8; 16], Ed25519PrivateKey, [u8; 16]),
>)
    ensures
        match draws(crossing_plan(), Seq::empty()) {
            Some(seeds) => {
                &&& r is Some
                &&& is_actor(((r->0).0, (r->0).1), seeds[0])
                &&& is_actor(((r->0).2, (r->0).3), seeds[1])
            },
            None => r is None,
        },
{
    match crossing_actors() {
        Some(actors) => Some((actors[0].0, actors[0].1, actors[1].0, actors[1].1)),
        None => None,
    }
}

/// The cross-shard pair: the payer's key and account, and the recipient's
/// account.
#[must_use]
pub fn vm_cross_shard_cast() -> (r: Option<Leg>)
    ensures
        match draws(crossing_plan(), Seq::empty()) {
            Some(seeds) => r is Some && is_leg(r->0, seeds[0], seeds[1]),
            None => r is None,
        },
{
    match crossing_actors() {
        Some(actors) => Some((actors[0].0, actors[0].1, actors[1].1)),
        None => None,
    }
}

/// Funding of the cross-shard pair: the payer fully, the recipient with dust.
#[must_use]
pub fn vm_cross_shard_genesis_accounts() -> (r: Option<Vec<Funding>>)
    ensures
        match draws(crossing_plan(), Seq::empty()) {
            Some(seeds) => r is Some && funds(r->0@, seeds, seq![PAYER_FUNDING, DUST]),
            None => r is None,
        },
{
    match crossing_actors() {
        Some(actors) => Some(vec![(actors[0].1, PAYER_FUNDING), (actors[1].1, DUST)]),
        None => None,
    }
}

/// Funding of the insolvent payer's scenario: both sides with dust, which is
/// below any fee ceiling.
#[must_use]
pub fn vm_insolvent_genesis_accounts() -> (r: Option<Vec<Funding>>)
    ensures
        match draws(crossing_plan(), Seq::empty()) {
            Some(seeds) => r is Some && funds(r->0@, seeds, seq![DUST, DUST]),
            None => r is None,
        },
{
    match crossing_actors() {
        Some(actors) => Some(vec![(actors[0].1, DUST), (actors[1].1, DUST)]),
        None => None,
    }
}

/// The insolvent payer cannot cover the ceiling that its envelope signs.
pub proof fn law_dust_covers_no_fee()
    ensures
        DUST < VM_MAX_FEE < PAYER_FUNDING,
{
}

/// The accounts of the participant sweep: one payer on the first leaf, then
/// one payee on each leaf.
pub open spec fn sweep_plan(depth: u32, num_shards: u64) -> Seq<(ShardId, u64)> {
    seq![(ShardId { depth, path: 0 }, num_shards)] + Seq::new(
        num_shards as nat,
        |i: int| (ShardId { depth, path: i as u64 }, num_shards),
    )
}

/// The accounts that the participant sweep fans out across. `None` where
/// `num_shards` is no power of two or the seeds run out.
#[must_use]
pub fn vm_participant_sweep_accounts(num_shards: u64) -> (r: Option<
    Vec<(Ed25519PrivateKey, [u8; 16])>,
>)
    requires
        num_shards < usize::MAX,
    ensures
        forall|depth: u32|
            depth <= 63 && num_shards == #[trigger] pow2(depth as nat) ==> match draws(
                sweep_plan(depth, num_shards),
                Seq::empty(),
            ) {
                Some(seeds) => {
                    &&& r is Some
                    &&& r->0@.len() == seeds.len()
                    &&& forall|i: int| 0 <= i < seeds.len() ==> is_actor(#[trigger] r->0@[i], seeds[i])
                },
                None => r is None,
            },
        (forall|depth: nat| num_shards != #[trigger] pow2(depth)) ==> r is None,
{
    let depth = match exact_log2(num_shards) {
        Some(depth) => depth,
        None => {
            return None;
        },
    };
    proof {
        assert forall|d: u32| d <= 63 && num_shards == #[trigger] pow2(d as nat) implies d
            == depth by {
            lemma_pow2_injective(d as nat, depth as nat);
        }
        vstd::arithmetic::power2::lemma_pow2_pos(depth as nat);
    }
    let mut plan: Vec<(ShardId, u64)> = Vec::new();
    plan.push((ShardId::leaf(depth, 0), num_shards));
    let mut i: u64 = 0;
    while i < num_shards
        invariant
            i <= num_shards,
            plan@.len() == i + 1,
            plan@[0] == (ShardId { depth, path: 0 }, num_shards),
            forall|j: int|
                0 <= j < i ==> #[trigger] plan@[j + 1] == (
                    ShardId { depth, path: j as u64 },
                    num_shards,
                ),
        decreases num_shards - i,
    {
        plan.push((ShardId::leaf(depth, i), num_shards));
        i = i + 1;
    }
    proof {
        let want = sweep_plan(depth, num_shards);
        assert forall|k: int| 0 <= k < want.len() implies plan@[k] == want[k] by {
            if k > 0 {
                assert(plan@[(k - 1) + 1] == (
                    ShardId { depth, path: (k - 1) as u64 },
                    num_shards,
                ));
            }
        }
        assert(plan@ =~= want);
    }
    let mut taken: Vec<u8> = Vec::new();
    draw_all(plan.as_slice(), &mut taken)
}

/// Funding of [`vm_participant_sweep_accounts`].
#[must_use]
pub fn vm_participant_sweep_genesis_accounts(num_shards: u64) -> (r: Option<Vec<Funding>>)
    requires
        num_shards < usize::MAX,
    ensures
        forall|depth: u32|
            depth <= 63 && num_shards == #[trigger] pow2(depth as nat) ==> match draws(
                sweep_plan(depth, num_shards),
                Seq::empty(),
            ) {
                Some(seeds) => r is Some && funds(
                    r->0@,
                    seeds,
                    repeated(PAYER_FUNDING, seeds.len()),
                ),
                None => r is None,
            },
        (forall|depth: nat| num_shards != #[trigger] pow2(depth)) ==> r is None,
{
    match vm_participant_sweep_accounts(num_shards) {
        Some(actors) => Some(fund_evenly(&actors, PAYER_FUNDING)),
        None => None,
    }
}

/// The composers and the requester of the nullifier race.
#[must_use]
pub fn vm_nullifier_race_cast() -> (cast: (
    Ed25519PrivateKey,
    Ed25519PrivateKey,
    Ed25519PrivateKey,
))
    ensures
        cast.0.secret() == seed_bytes(191),
        cast.1.secret() == seed_bytes(192),
        cast.2.secret() == seed_bytes(193),
{
    (signer_from_seed(191), signer_from_seed(192), signer_from_seed(193))
}

/// Funding of the nullifier race: both composers fully, the requester with
/// dust.
#[must_use]
pub fn vm_nullifier_race_genesis_accounts() -> (list: Vec<Funding>)
    ensures
        funds(list@, seq![191u8, 192u8, 193u8], seq![PAYER_FUNDING, PAYER_FUNDING, DUST]),
{
    vec![
        (vm_account_from_seed(191), PAYER_FUNDING),
        (vm_account_from_seed(192), PAYER_FUNDING),
        (vm_account_from_seed(193), DUST),
    ]
}

/// The delegator's key and account.
#[must_use]
pub fn vm_delegator() -> (actor: (Ed25519PrivateKey, [u8; 16]))
    ensures
        is_actor(actor, DELEGATOR_SEED),
{
    (signer_from_seed(DELEGATOR_SEED), vm_account_from_seed(DELEGATOR_SEED))
}

/// The pool operator's key and account.
#[must_use]
pub fn vm_pool_operator() -> (actor: (Ed25519PrivateKey, [u8; 16]))
    ensures
        is_actor(actor, OPERATOR_SEED),
{
    (signer_from_seed(OPERATOR_SEED), vm_account_from_seed(OPERATOR_SEED))
}

/// Genesis accounts of the staking scenarios: the delegator with stake-scale
/// funds, the operator with the fees of its own actions.
#[must_use]
pub fn vm_staking_genesis_accounts() -> (list: Vec<Funding>)
    ensures
        funds(
            list@,
            seq![DELEGATOR_SEED, OPERATOR_SEED],
            seq![VM_DELEGATOR_FUNDING, VM_OPERATOR_FUNDING],
        ),
{
    vec![
        (vm_delegator().1, VM_DELEGATOR_FUNDING),
        (vm_pool_operator().1, VM_OPERATOR_FUNDING),
    ]
}

/// The cast of the cross-shard fault scenarios: an account on each child, then
/// a control pair on each child.
pub struct CrossShardFaultCast {
    /// The payer on the left child.
    pub left: (Ed25519PrivateKey, [u8; 16]),
    /// The payer on the right child.
    pub right: (Ed25519PrivateKey, [u8; 16]),
    /// One control within each child.
    pub controls: Vec<Leg>,
}

/// The grinds of the fault cast.
pub open spec fn fault_plan() -> Seq<(ShardId, u64)> {
    seq![
        (left(), 2u64),
        (right(), 2u64),
        (left(), 2u64),
        (left(), 2u64),
        (right(), 2u64),
        (right(), 2u64),
    ]
}

/// Builds the cast of the cross-shard fault scenarios.
#[must_use]
pub fn cross_shard_fault_cast() -> (r: Option<CrossShardFaultCast>)
    ensures
        match draws(fault_plan(), Seq::empty()) {
            Some(seeds) => {
                &&& r is Some
                &&& seeds.len() == 6
                &&& is_actor((r->0).left, seeds[0])
                &&& is_actor((r->0).right, seeds[1])
                &&& (r->0).controls@.len() == 2
                &&& is_leg((r->0).controls@[0], seeds[2], seeds[3])
                &&& is_leg((r->0).controls@[1], seeds[4], seeds[5])
            },
            None => r is None,
        },
{
    let plan: [(ShardId, u64); 6] = [
        (ShardId::leaf(1, 0), 2),
        (ShardId::leaf(1, 1), 2),
        (ShardId::leaf(1, 0), 2),
        (ShardId::leaf(1, 0), 2),
        (ShardId::leaf(1, 1), 2),
        (ShardId::leaf(1, 1), 2),
    ];
    assert(plan@ =~= fault_plan());
    let mut taken: Vec<u8> = Vec::new();
    match draw_all(plan.as_slice(), &mut taken) {
        Some(actors) => {
            let controls = vec![
                (actors[2].0, actors[2].1, actors[3].1),
                (actors[4].0, actors[4].1, actors[5].1),
            ];
            Some(CrossShardFaultCast { left: actors[0], right: actors[1], controls })
        },
        None => None,
    }
}

/// Funding of the cross-shard fault scenarios.
#[must_use]
pub fn cross_shard_fault_genesis_accounts() -> (r: Option<Vec<Funding>>)
    ensures
        match draws(fault_plan(), Seq::empty()) {
            Some(seeds) => r is Some && funds(
                r->0@,
                seeds,
                seq![PAYER_FUNDING, PAYER_FUNDING, PAYER_FUNDING, DUST, PAYER_FUNDING, DUST],
            ),
            None => r is None,
        },
{
    match cross_shard_fault_cast() {
        Some(cast) => {
            let list: Vec<Funding> = vec![
                (cast.left.1, PAYER_FUNDING),
                (cast.right.1, PAYER_FUNDING),
                (cast.controls[0].1, PAYER_FUNDING),
                (cast.controls[0].2, DUST),
                (cast.controls[1].1, PAYER_FUNDING),
                (cast.controls[1].2, DUST),
            ];
            Some(list)
        },
        None => None,
    }
}

/// The grinds of the fraction sweep: the payers on the left child, then a
/// payee for each on either child.
pub open spec fn fraction_plan(senders: nat) -> Seq<(ShardId, u64)> {
    repeated((left(), 2u64), senders) + repeated((left(), 2u64), senders) + repeated(
        (right(), 2u64),
        senders,
    )
}

/// What the fraction sweep's accounts hold.
pub open spec fn fraction_funding(senders: nat) -> Seq<u128> {
    repeated(PAYER_FUNDING, senders) + repeated(DUST, 2 * senders)
}

/// Funding of the cross-shard fraction sweep.
#[must_use]
pub fn vm_cross_fraction_genesis_accounts(senders: usize) -> (r: Option<Vec<Funding>>)
    requires
        3 * senders <= usize::MAX,
    ensures
        match draws(fraction_plan(senders as nat), Seq::empty()) {
            Some(seeds) => r is Some && funds(r->0@, seeds, fraction_funding(senders as nat)),
            None => r is None,
        },
{
    let mut plan: Vec<(ShardId, u64)> = Vec::new();
    let mut i: usize = 0;
    while i < 3 * senders
        invariant
            i <= 3 * senders,
            3 * senders <= usize::MAX,
            plan@ =~= fraction_plan(senders as nat).take(i as int),
        decreases 3 * senders - i,
    {
        plan.push(
            if i < 2 * senders {
                (ShardId::leaf(1, 0), 2)
            } else {
                (ShardId::leaf(1, 1), 2)
            },
        );
        i = i + 1;
    }
    assert(plan@ =~= fraction_plan(senders as nat));
    let mut taken: Vec<u8> = Vec::new();
    match draw_all(plan.as_slice(), &mut taken) {
        Some(actors) => {
            let mut list: Vec<Funding> = Vec::new();
            let mut k: usize = 0;
            while k < actors.len()
                invariant
                    k <= actors.len(),
                    actors@.len() == 3 * senders,
                    list@.len() == k,
                    forall|j: int|
                        0 <= j < k ==> #[trigger] list@[j] == (
                            actors@[j].1,
                            fraction_funding(senders as nat)[j],
                        ),
                decreases actors.len() - k,
            {
                list.push(
                    (
                        actors[k].1,
                        if k < senders {
                            PAYER_FUNDING
                        } else {
                            DUST
                        },
                    ),
                );
                k = k + 1;
            }
            Some(list)
        },
        None => None,
    }
}

/// Legs run in pairs: each payer on the one shard is followed by its recipient on
/// the other, the payer holding ten thousand and the recipient ten.
pub proof fn law_legs_run_in_pairs(from: ShardId, to: ShardId, num_shards: u64, count: nat, i: int)
    requires
        0 <= i < count,
    ensures
        legs_plan(from, to, num_shards, count).len() == 2 * count,
        legs_plan(from, to, num_shards, count)[2 * i] == (from, num_shards),
        legs_plan(from, to, num_shards, count)[2 * i + 1] == (to, num_shards),
        legs_funding(count).len() == 2 * count,
        legs_funding(count)[2 * i] == 10_000,
        legs_funding(count)[2 * i + 1] == 10,
{
    assert((2 * i) % 2 == 0 && (2 * i + 1) % 2 == 1);
}

/// The sweep has one payer on the first leaf, and then a payee on every leaf of
/// the partition, in order.
pub proof fn law_the_sweep_reaches_every_leaf(depth: u32, num_shards: u64, leaf: u64)
    requires
        leaf < num_shards,
    ensures
        sweep_plan(depth, num_shards).len() == num_shards + 1,
        sweep_plan(depth, num_shards)[0] == (ShardId { depth, path: 0 }, num_shards),
        sweep_plan(depth, num_shards)[1 + leaf as int] == (
            ShardId { depth, path: leaf },
            num_shards,
        ),
{
}

/// The fraction sweep has as many payers on the left child as senders, a payee for
/// each on the left and one for each on the right; the payers hold ten thousand
/// each, the payees ten.
pub proof fn law_the_fraction_sweep_has_a_payee_on_either_side(senders: nat, i: int)
    requires
        0 <= i < senders,
    ensures
        ({
            let plan = fraction_plan(senders);
            let held = fraction_funding(senders);
            let one = ShardId { depth: 1, path: 0 };
            let other = ShardId { depth: 1, path: 1 };
            &&& plan.len() == 3 * senders && held.len() == 3 * senders
            &&& plan[i] == (one, 2u64) && held[i] == 10_000
            &&& plan[senders + i] == (one, 2u64) && held[senders + i] == 10
            &&& plan[2 * senders + i] == (other, 2u64) && held[2 * senders + i] == 10
        }),
{
}

/// What a cast funds is what was drawn for it: each account is on the shard that
/// the plan names, no two are the same, and each holds its own amount.
pub proof fn law_a_cast_is_funded_where_it_was_drawn(
    list: Seq<Funding>,
    plan: Seq<(ShardId, u64)>,
    taken: Seq<u8>,
    amounts: Seq<u128>,
    i: int,
)
    requires
        draws(plan, taken) is Some,
        funds(list, draws(plan, taken)->0, amounts),
        0 <= i < plan.len(),
    ensures
        list.len() == plan.len(),
        list[i].1 == amounts[i],
        spans(plan[i].0, list[i].0@),
{
    law_draws_are_fresh(plan, taken);
    let seed = draws(plan, taken)->0[i];
    assert(holds(list[i], seed, amounts[i]));
}

/// The crossing pair stands on either child of the first split, the left one
/// first. The fault cast has a payer on each child, and then a pair within the
/// left one and a pair within the right one.
pub proof fn law_the_casts_stand_on_either_child()
    ensures
        ({
            let one = (ShardId { depth: 1, path: 0 }, 2u64);
            let other = (ShardId { depth: 1, path: 1 }, 2u64);
            &&& crossing_plan() == seq![one, other]
            &&& fault_plan() == seq![one, other, one, one, other, other]
        }),
{
}

} // verus!
