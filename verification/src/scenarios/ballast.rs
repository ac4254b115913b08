//! Ballast: accounts funded for their committed bytes and nothing else.
use radix_common::crypto::Ed25519PublicKey;
use radix_common::types::ComponentAddress;
use vstd::prelude::*;

use crate::crypto::bls::{wide_seed, wide_seed_bytes};
use crate::crypto::ed25519::{ed25519_keypair_from_seed, ed25519_public, Ed25519PrivateKey};
use crate::list::lemma_least_byte;
use crate::scenarios::cast::{seed_bytes, signer_from_seed, taken_before};
use crate::shard::ShardId;

verus! {

/// The address of the account preallocated for a public key.
pub uninterp spec fn preallocated_account(public_key: Seq<u8>) -> Seq<u8>;

/// Calls `ComponentAddress::preallocated_account_from_public_key` and hands
/// out the bytes of the address. Claims that they are a function of the key.
#[verifier::external_body]
fn preallocated(public_key: &[u8; 32]) -> (node: [u8; 30])
    ensures
        node@ == preallocated_account(public_key@),
{
    ComponentAddress::preallocated_account_from_public_key(&Ed25519PublicKey(*public_key))
        .into_node_id()
        .0
}

/// An account and its balance in whole tokens.
pub type Balance = ([u8; 30], u64);

/// The preallocated account of a one-byte seed.
pub open spec fn seed_node(seed: u8) -> Seq<u8> {
    preallocated_account(ed25519_public(seed_bytes(seed)))
}

/// The preallocated account of a wide seed.
pub open spec fn wide_node(seed: u64) -> Seq<u8> {
    preallocated_account(ed25519_public(wide_seed(seed)))
}

/// The preallocated account that [`signer_from_seed`]'s key controls.
#[must_use]
pub fn account_from_seed(seed: u8) -> (node: [u8; 30])
    ensures
        node@ == seed_node(seed),
{
    preallocated(&signer_from_seed(seed).public_key())
}

/// The preallocated account of the key that an integer's seed bytes derive.
#[must_use]
pub fn account_from_wide_seed(seed: u64) -> (node: [u8; 30])
    ensures
        node@ == wide_node(seed),
{
    preallocated(&ed25519_keypair_from_seed(&wide_seed_bytes(seed)).public_key())
}

/// A seed that a pick for `shard` may still take, where `routes[s]` is the
/// shard of seed `s`'s preallocated account.
pub open spec fn pickable(shard: ShardId, routes: Seq<ShardId>, taken: Seq<u8>, seed: u8) -> bool {
    1 <= seed < routes.len() && !taken.contains(seed) && routes[seed as int] == shard
}

/// The seed is the lowest that a pick for `shard` may take.
pub open spec fn lowest_pick(
    shard: ShardId,
    routes: Seq<ShardId>,
    taken: Seq<u8>,
    seed: u8,
) -> bool {
    &&& pickable(shard, routes, taken, seed)
    &&& forall|t: u8| #[trigger] pickable(shard, routes, taken, t) ==> seed <= t
}

/// What a pick for `shard` finds.
pub open spec fn pick(shard: ShardId, routes: Seq<ShardId>, taken: Seq<u8>) -> Option<u8> {
    if exists|s: u8| lowest_pick(shard, routes, taken, s) {
        Some(choose|s: u8| lowest_pick(shard, routes, taken, s))
    } else {
        None
    }
}

/// What successive picks find, each passing over the seeds before it.
pub open spec fn picks(plan: Seq<ShardId>, routes: Seq<ShardId>, taken: Seq<u8>) -> Option<Seq<u8>>
    decreases plan.len(),
{
    if plan.len() == 0 {
        Some(Seq::empty())
    } else {
        match picks(plan.drop_last(), routes, taken) {
            Some(done) => match pick(plan.last(), routes, taken + done) {
                Some(seed) => Some(done.push(seed)),
                None => None,
            },
            None => None,
        }
    }
}

/// The lowest free seed whose preallocated account lands on `shard`, with its
/// key. `routes[s]` is the shard of seed `s`'s account.
pub fn account_in_n(shard: ShardId, routes: &[ShardId], taken: &mut Vec<u8>) -> (r: Option<
    (Ed25519PrivateKey, [u8; 30]),
>)
    ensures
        match pick(shard, routes@, old(taken)@) {
            Some(seed) => {
                &&& r is Some
                &&& (r->0).0.secret() == seed_bytes(seed)
                &&& (r->0).1@ == seed_node(seed)
                &&& final(taken)@ == old(taken)@.push(seed)
            },
            None => r is None && final(taken)@ == old(taken)@,
        },
{
    let mut seed: u8 = 1;
    while (seed as usize) < routes.len()
        invariant
            1 <= seed,
            taken@ == old(taken)@,
            forall|t: u8| #[trigger] pickable(shard, routes@, taken@, t) ==> seed <= t,
        ensures
            taken@ == old(taken)@,
            forall|t: u8| !#[trigger] pickable(shard, routes@, taken@, t),
        decreases 255 - seed,
    {
        if routes[seed as usize] == shard && !taken_before(taken, seed) {
            proof {
                assert(pickable(shard, routes@, taken@, seed));
                assert(lowest_pick(shard, routes@, taken@, seed));
                let s = choose|s: u8| lowest_pick(shard, routes@, taken@, s);
                assert(pickable(shard, routes@, taken@, s));
            }
            taken.push(seed);
            return Some((signer_from_seed(seed), account_from_seed(seed)));
        }
        if seed == 255 {
            break;
        }
        seed = seed + 1;
    }
    None
}

/// The accounts that the seeds picked for a plan control, with keys.
pub open spec fn are_accounts(list: Seq<(Ed25519PrivateKey, [u8; 30])>, seeds: Seq<u8>) -> bool {
    &&& list.len() == seeds.len()
    &&& forall|i: int|
        0 <= i < list.len() ==> (#[trigger] list[i]).0.secret() == seed_bytes(seeds[i])
            && list[i].1@ == seed_node(seeds[i])
}

/// `n` times the same shard.
pub open spec fn same_shard(shard: ShardId, n: nat) -> Seq<ShardId> {
    Seq::new(n, |i: int| shard)
}

/// One pick for each shard of `plan`, in order. `taken` keeps successive calls
/// disjoint.
pub fn pick_all(plan: &[ShardId], routes: &[ShardId], taken: &mut Vec<u8>) -> (r: Option<
    Vec<(Ed25519PrivateKey, [u8; 30])>,
>)
    ensures
        match picks(plan@, routes@, old(taken)@) {
            Some(seeds) => r is Some && are_accounts(r->0@, seeds) && final(taken)@ == old(taken)@
                + seeds,
            None => r is None && old(taken)@.is_prefix_of(final(taken)@),
        },
{
    let mut out: Vec<(Ed25519PrivateKey, [u8; 30])> = Vec::new();
    let ghost mut seeds: Seq<u8> = Seq::empty();
    assert(old(taken)@ + seeds =~= old(taken)@);
    assert(plan@.take(0) =~= Seq::empty());
    let mut i: usize = 0;
    while i < plan.len()
        invariant
            i <= plan@.len(),
            seeds.len() == i,
            taken@ == old(taken)@ + seeds,
            picks(plan@.take(i as int), routes@, old(taken)@) == Some(seeds),
            are_accounts(out@, seeds),
        decreases plan.len() - i,
    {
        let ghost next = plan@.take(i + 1);
        proof {
            assert(next.drop_last() =~= plan@.take(i as int));
            assert(next.last() == plan@[i as int]);
        }
        let shard = plan[i];
        match account_in_n(shard, routes, taken) {
            Some(account) => {
                out.push(account);
                proof {
                    let seed = pick(shard, routes@, old(taken)@ + seeds)->0;
                    assert(old(taken)@ + seeds.push(seed) =~= (old(taken)@ + seeds).push(seed));
                    seeds = seeds.push(seed);
                }
            },
            None => {
                proof {
                    lemma_picks_stay_none(plan@, (i + 1) as nat, routes@, old(taken)@);
                    assert(plan@.take(plan@.len() as int) =~= plan@);
                }
                return None;
            },
        }
        i = i + 1;
    }
    assert(plan@.take(plan@.len() as int) =~= plan@);
    Some(out)
}

/// Adds `count` times the same shard to a plan.
pub fn push_shard(plan: &mut Vec<ShardId>, shard: ShardId, count: usize)
    ensures
        final(plan)@ == old(plan)@ + same_shard(shard, count as nat),
{
    let mut i: usize = 0;
    assert(old(plan)@ + same_shard(shard, 0) =~= old(plan)@);
    while i < count
        invariant
            i <= count,
            plan@ =~= old(plan)@ + same_shard(shard, i as nat),
        decreases count - i,
    {
        plan.push(shard);
        i = i + 1;
    }
}

/// The first `count` accounts on `shard`, with keys. `taken` keeps successive
/// calls disjoint.
pub fn accounts_routing_to(
    shard: ShardId,
    routes: &[ShardId],
    count: usize,
    taken: &mut Vec<u8>,
) -> (r: Option<Vec<(Ed25519PrivateKey, [u8; 30])>>)
    ensures
        match picks(same_shard(shard, count as nat), routes@, old(taken)@) {
            Some(seeds) => r is Some && are_accounts(r->0@, seeds) && final(taken)@ == old(taken)@
                + seeds,
            None => r is None && old(taken)@.is_prefix_of(final(taken)@),
        },
{
    let mut plan: Vec<ShardId> = Vec::new();
    push_shard(&mut plan, shard, count);
    assert(plan@ =~= same_shard(shard, count as nat));
    pick_all(plan.as_slice(), routes, taken)
}

proof fn lemma_picks_stay_none(plan: Seq<ShardId>, k: nat, routes: Seq<ShardId>, taken: Seq<u8>)
    requires
        k <= plan.len(),
        picks(plan.take(k as int), routes, taken) is None,
    ensures
        picks(plan.take(plan.len() as int), routes, taken) is None,
    decreases plan.len() - k,
{
    if k < plan.len() {
        assert(plan.take((k + 1) as int).drop_last() =~= plan.take(k as int));
        lemma_picks_stay_none(plan, k + 1, routes, taken);
    }
}

/// The first seeded account on `shard`, with its key.
#[must_use]
pub fn account_routing_to(shard: ShardId, routes: &[ShardId]) -> (r: Option<
    (Ed25519PrivateKey, [u8; 30]),
>)
    ensures
        match pick(shard, routes@, Seq::empty()) {
            Some(seed) => {
                &&& r is Some
                &&& (r->0).0.secret() == seed_bytes(seed)
                &&& (r->0).1@ == seed_node(seed)
            },
            None => r is None,
        },
{
    let mut taken: Vec<u8> = Vec::new();
    account_in_n(shard, routes, &mut taken)
}

/// Entry by entry, the list gives the seeds' accounts one balance.
pub open spec fn ballasts(list: Seq<Balance>, seeds: Seq<u8>, tokens: u64) -> bool {
    &&& list.len() == seeds.len()
    &&& forall|i: int|
        0 <= i < list.len() ==> (#[trigger] list[i]).0@ == seed_node(seeds[i]) && list[i].1
            == tokens
}

/// What a ballast account holds, in whole tokens.
pub const BALLAST_TOKENS: u64 = 10_000;

/// What a vote payer holds, in whole tokens.
pub const PAYER_TOKENS: u64 = 100_000;

/// Adds a ballast account on each shard of `plan` to `balances`. Says whether
/// the seeds sufficed; where they did not, `balances` keeps what it held.
pub fn ballast(
    plan: &[ShardId],
    routes: &[ShardId],
    taken: &mut Vec<u8>,
    balances: &mut Vec<Balance>,
) -> (ok: bool)
    ensures
        match picks(plan@, routes@, old(taken)@) {
            Some(seeds) => {
                &&& ok
                &&& final(taken)@ == old(taken)@ + seeds
                &&& final(balances)@.len() == old(balances)@.len() + plan@.len()
                &&& final(balances)@.take(old(balances)@.len() as int) == old(balances)@
                &&& ballasts(
                    final(balances)@.skip(old(balances)@.len() as int),
                    seeds,
                    BALLAST_TOKENS,
                )
            },
            None => !ok && old(taken)@.is_prefix_of(final(taken)@) && final(balances)@ == old(
                balances,
            )@,
        },
{
    let accounts = match pick_all(plan, routes, taken) {
        Some(accounts) => accounts,
        None => {
            return false;
        },
    };
    let ghost start = balances@.len();
    let ghost seeds = picks(plan@, routes@, old(taken)@)->0;
    proof {
        lemma_picks_len(plan@, routes@, old(taken)@);
    }
    let mut i: usize = 0;
    while i < accounts.len()
        invariant
            i <= accounts.len(),
            are_accounts(accounts@, seeds),
            start == old(balances)@.len(),
            balances@.len() == start + i,
            balances@.take(start as int) =~= old(balances)@,
            forall|j: int|
                0 <= j < i ==> (#[trigger] balances@.skip(start as int)[j]).0@ == seed_node(
                    seeds[j],
                ) && balances@.skip(start as int)[j].1 == BALLAST_TOKENS,
        decreases accounts.len() - i,
    {
        let ghost before = balances@;
        balances.push((accounts[i].1, BALLAST_TOKENS));
        proof {
            assert(balances@.take(start as int) =~= before.take(start as int));
            assert forall|j: int| 0 <= j < i + 1 implies (#[trigger] balances@.skip(
                start as int,
            )[j]).0@ == seed_node(seeds[j]) && balances@.skip(start as int)[j].1
                == BALLAST_TOKENS by {
                if j < i {
                    assert(balances@.skip(start as int)[j] == before.skip(start as int)[j]);
                }
            }
        }
        i = i + 1;
    }
    true
}

/// As many seeds are picked as the plan is long.
proof fn lemma_picks_len(plan: Seq<ShardId>, routes: Seq<ShardId>, taken: Seq<u8>)
    requires
        picks(plan, routes, taken) is Some,
    ensures
        picks(plan, routes, taken)->0.len() == plan.len(),
    decreases plan.len(),
{
    if plan.len() > 0 {
        lemma_picks_len(plan.drop_last(), routes, taken);
    }
}

/// The wide seeds, counted from one, whose routes are `shard`, in order. The
/// shard of wide seed `k` is `routes[k - 1]`.
pub open spec fn matching(routes: Seq<ShardId>, shard: ShardId) -> Seq<u64>
    decreases routes.len(),
{
    if routes.len() == 0 {
        Seq::empty()
    } else {
        let before = matching(routes.drop_last(), shard);
        if routes.last() == shard {
            before.push(routes.len() as u64)
        } else {
            before
        }
    }
}

/// Entry by entry, the list gives the wide seeds' accounts ballast.
pub open spec fn bulks(list: Seq<Balance>, seeds: Seq<u64>) -> bool {
    &&& list.len() == seeds.len()
    &&& forall|i: int|
        0 <= i < list.len() ==> (#[trigger] list[i]).0@ == wide_node(seeds[i]) && list[i].1
            == BALLAST_TOKENS
}

proof fn lemma_matching_grows(routes: Seq<ShardId>, shard: ShardId, k: nat)
    requires
        k <= routes.len(),
    ensures
        matching(routes.take(k as int), shard).is_prefix_of(matching(routes, shard)),
    decreases routes.len() - k,
{
    if k < routes.len() {
        lemma_matching_grows(routes, shard, k + 1);
        let next = routes.take((k + 1) as int);
        assert(next.drop_last() =~= routes.take(k as int));
        assert(matching(routes.take(k as int), shard).is_prefix_of(matching(next, shard)));
    } else {
        assert(routes.take(k as int) =~= routes);
    }
}

/// Adds the first `count` wide-seeded accounts on `shard` to `balances`. Says
/// whether `routes` reached that far.
pub fn bulk_fund_into(
    shard: ShardId,
    routes: &[ShardId],
    count: usize,
    balances: &mut Vec<Balance>,
) -> (ok: bool)
    ensures
        ok == (matching(routes@, shard).len() >= count),
        final(balances)@.len() >= old(balances)@.len(),
        final(balances)@.take(old(balances)@.len() as int) == old(balances)@,
        ok ==> bulks(
            final(balances)@.skip(old(balances)@.len() as int),
            matching(routes@, shard).take(count as int),
        ),
{
    let ghost start = balances@.len();
    let ghost all = matching(routes@, shard);
    let mut found: usize = 0;
    let mut i: usize = 0;
    assert(routes@.take(0) =~= Seq::empty());
    assert(balances@.take(start as int) =~= old(balances)@);
    assert(all.take(0) =~= Seq::empty());
    while found < count && i < routes.len()
        invariant
            found <= count,
            i <= routes@.len(),
            all == matching(routes@, shard),
            start == old(balances)@.len(),
            balances@.len() == start + found,
            balances@.take(start as int) =~= old(balances)@,
            matching(routes@.take(i as int), shard).len() == found,
            matching(routes@.take(i as int), shard).is_prefix_of(all),
            bulks(balances@.skip(start as int), all.take(found as int)),
        decreases routes.len() - i,
    {
        proof {
            lemma_matching_grows(routes@, shard, (i + 1) as nat);
            assert(routes@.take(i + 1).drop_last() =~= routes@.take(i as int));
        }
        let ghost before = balances@;
        if routes[i] == shard {
            balances.push((account_from_wide_seed(i as u64 + 1), BALLAST_TOKENS));
            proof {
                assert(matching(routes@.take(i + 1), shard)[found as int] == i + 1);
                assert(all[found as int] == i + 1);
                assert(balances@.take(start as int) =~= before.take(start as int));
                assert(balances@.skip(start as int) =~= before.skip(start as int).push(
                    balances@.last(),
                ));
                assert(all.take(found + 1) =~= all.take(found as int).push(all[found as int]));
            }
            found = found + 1;
        }
        i = i + 1;
    }
    proof {
        if found < count {
            assert(routes@.take(i as int) =~= routes@);
        }
    }
    found == count
}

/// A pick finds the lowest seed, counted from one, that was not taken and whose
/// account routes to the shard, wherever there is one.
pub proof fn law_a_pick_finds_the_lowest_seed(
    shard: ShardId,
    routes: Seq<ShardId>,
    taken: Seq<u8>,
    seed: u8,
)
    ensures
        ({
            let lands = |s: u8|
                1 <= s < routes.len() && !taken.contains(s) && routes[s as int] == shard;
            let found = pick(shard, routes, taken);
            &&& found is Some ==> lands(found->0)
            &&& lands(seed) ==> found is Some && found->0 <= seed
        }),
{
    if pick(shard, routes, taken) is Some {
        assert(lowest_pick(shard, routes, taken, pick(shard, routes, taken)->0));
    }
    if pickable(shard, routes, taken, seed) {
        let p = |s: u8| pickable(shard, routes, taken, s);
        let m = lemma_least_byte(p, seed);
        assert forall|t: u8| #[trigger] pickable(shard, routes, taken, t) implies m <= t by {
            assert(p(t));
        }
        assert(lowest_pick(shard, routes, taken, m));
    }
}

/// Successive picks are single picks, one behind the other: each finds what a pick
/// alone would with the seeds taken and those picked before it passed over, and
/// they all fail where one of them finds nothing.
pub proof fn law_picks_are_made_in_turn(plan: Seq<ShardId>, routes: Seq<ShardId>, taken: Seq<u8>)
    ensures
        picks(plan, routes, taken) is Some ==> picks(plan, routes, taken)->0.len() == plan.len()
            && forall|i: int|
            #![trigger plan[i]]
            0 <= i < plan.len() ==> pick(
                plan[i],
                routes,
                taken + picks(plan, routes, taken)->0.take(i),
            ) == Some(picks(plan, routes, taken)->0[i]),
        picks(plan, routes, taken) is None ==> exists|i: int|
            #![trigger plan[i]]
            0 <= i < plan.len() && picks(plan.take(i), routes, taken) is Some && pick(
                plan[i],
                routes,
                taken + picks(plan.take(i), routes, taken)->0,
            ) is None,
    decreases plan.len(),
{
    if plan.len() > 0 {
        let t = plan.drop_last();
        law_picks_are_made_in_turn(t, routes, taken);
        match picks(t, routes, taken) {
            Some(done) => {
                if picks(plan, routes, taken) is Some {
                    let all = picks(plan, routes, taken)->0;
                    assert forall|i: int|
                        #![trigger plan[i]]
                        0 <= i < plan.len() implies pick(plan[i], routes, taken + all.take(i))
                        == Some(all[i]) by {
                        assert(all.take(i) =~= done.take(i));
                        if i < t.len() {
                            assert(t[i] == plan[i]);
                        } else {
                            assert(done.take(i) =~= done);
                        }
                    }
                } else {
                    assert(plan.take(t.len() as int) =~= t);
                    assert(plan[t.len() as int] == plan.last());
                }
            },
            None => {
                let i = choose|i: int|
                    #![trigger t[i]]
                    0 <= i < t.len() && picks(t.take(i), routes, taken) is Some && pick(
                        t[i],
                        routes,
                        taken + picks(t.take(i), routes, taken)->0,
                    ) is None;
                assert(plan[i] == t[i]);
                assert(plan.take(i) =~= t.take(i));
            },
        }
    }
}

/// The wide seeds on a shard are all those, counted from one, whose route is the
/// shard, ascending.
pub proof fn law_the_wide_seeds_of_a_shard_are_all_there(routes: Seq<ShardId>, shard: ShardId)
    requires
        routes.len() <= u64::MAX,
    ensures
        forall|k: u64| #[trigger]
            matching(routes, shard).contains(k) <==> 1 <= k <= routes.len() && routes[k - 1] == shard,
        forall|i: int, j: int|
            0 <= i < j < matching(routes, shard).len() ==> #[trigger] matching(routes, shard)[i]
                < #[trigger] matching(routes, shard)[j],
    decreases routes.len(),
{
    let all = matching(routes, shard);
    if routes.len() > 0 {
        let t = routes.drop_last();
        let n = routes.len() as u64;
        let before = matching(t, shard);
        law_the_wide_seeds_of_a_shard_are_all_there(t, shard);
        assert forall|i: int| 0 <= i < before.len() implies before[i] < n by {
            assert(before.contains(before[i]));
        }
        assert forall|k: u64| #[trigger]
            all.contains(k) <==> 1 <= k <= routes.len() && routes[k - 1] == shard by {
            if before.contains(k) {
                let i = choose|i: int| 0 <= i < before.len() && before[i] == k;
                assert(all[i] == k);
            }
            if all.contains(k) {
                let i = choose|i: int| 0 <= i < all.len() && all[i] == k;
                if i < before.len() {
                    assert(before.contains(before[i]));
                }
            }
            if k == n && routes.last() == shard {
                assert(all[all.len() - 1] == n);
            }
        }
    }
}

/// Ballast is what was picked for it: each account is the one that its seed's key
/// controls, and each holds the same.
pub proof fn law_ballast_is_spread_evenly(list: Seq<Balance>, seeds: Seq<u8>, tokens: u64, i: int)
    requires
        ballasts(list, seeds, tokens),
        0 <= i < seeds.len(),
    ensures
        list.len() == seeds.len(),
        list[i].0@ == preallocated_account(ed25519_public(seed_bytes(seeds[i]))),
        list[i].1 == tokens,
{
}

/// Bulk ballast is the first wide seeds' accounts, each with ten thousand tokens.
pub proof fn law_bulk_ballast_is_spread_evenly(list: Seq<Balance>, seeds: Seq<u64>, i: int)
    requires
        bulks(list, seeds),
        0 <= i < seeds.len(),
    ensures
        list.len() == seeds.len(),
        list[i].0@ == preallocated_account(ed25519_public(wide_seed(seeds[i]))),
        list[i].1 == 10_000,
{
}

/// The accounts of picked seeds are each seed's own, with the seed's own key.
pub proof fn law_an_account_is_its_seeds_own(
    list: Seq<(Ed25519PrivateKey, [u8; 30])>,
    seeds: Seq<u8>,
    i: int,
)
    requires
        are_accounts(list, seeds),
        0 <= i < seeds.len(),
    ensures
        list.len() == seeds.len(),
        list[i].0.secret() == seed_bytes(seeds[i]),
        list[i].1@ == preallocated_account(ed25519_public(seed_bytes(seeds[i]))),
{
}

} // verus!
