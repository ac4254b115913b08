//! Seeded accounts, ground onto the shards that a scenario needs them on.
use vstd::arithmetic::power2::pow2;
use vstd::prelude::*;

use crate::bridge::account::{account_of, vm_account_address};
use crate::crypto::ed25519::{ed25519_keypair_from_seed, ed25519_public, Ed25519PrivateKey};
use crate::list::lemma_least_byte;
use crate::shard::{spans, ShardId, ShardTrie};

verus! {

/// Thirty-two times the same byte.
pub open spec fn seed_bytes(seed: u8) -> Seq<u8> {
    Seq::new(32, |i: int| seed)
}

/// The account that a one-byte seed owns.
pub open spec fn seed_account(seed: u8) -> Seq<u8> {
    account_of(ed25519_public(seed_bytes(seed)))
}

/// A key and account pair is the one of a seed.
pub open spec fn is_actor(actor: (Ed25519PrivateKey, [u8; 16]), seed: u8) -> bool {
    actor.0.secret() == seed_bytes(seed) && actor.1@ == seed_account(seed)
}

/// The signing key of a one-byte seed.
#[must_use]
pub fn signer_from_seed(seed: u8) -> (key: Ed25519PrivateKey)
    ensures
        key.secret() == seed_bytes(seed),
{
    let bytes: [u8; 32] = [seed; 32];
    let key = ed25519_keypair_from_seed(&bytes);
    assert(key.secret() =~= seed_bytes(seed));
    key
}

/// The account that [`signer_from_seed`]'s key owns.
#[must_use]
pub fn vm_account_from_seed(seed: u8) -> (address: [u8; 16])
    ensures
        address@ == seed_account(seed),
{
    vm_account_address(&signer_from_seed(seed).public_key())
}

/// A seed that a grind for `shard` may still take.
pub open spec fn candidate(shard: ShardId, taken: Seq<u8>, seed: u8) -> bool {
    1 <= seed && !taken.contains(seed) && spans(shard, seed_account(seed))
}

/// The shard is a leaf of the uniform partition into `num_shards`.
pub open spec fn leaf_of(shard: ShardId, num_shards: u64) -> bool {
    shard.depth <= 63 && num_shards == pow2(shard.depth as nat)
}

/// The seed is the lowest that a grind for `shard` may take.
pub open spec fn lowest(shard: ShardId, taken: Seq<u8>, seed: u8) -> bool {
    &&& candidate(shard, taken, seed)
    &&& forall|t: u8| #[trigger] candidate(shard, taken, t) ==> seed <= t
}

/// What a grind finds: the lowest free seed whose account lands on `shard`.
pub open spec fn ground(shard: ShardId, num_shards: u64, taken: Seq<u8>) -> Option<u8> {
    if leaf_of(shard, num_shards) && exists|s: u8| lowest(shard, taken, s) {
        Some(choose|s: u8| lowest(shard, taken, s))
    } else {
        None
    }
}

/// What successive grinds find, each passing over the seeds before it.
pub open spec fn draws(plan: Seq<(ShardId, u64)>, taken: Seq<u8>) -> Option<Seq<u8>>
    decreases plan.len(),
{
    if plan.len() == 0 {
        Some(Seq::empty())
    } else {
        match draws(plan.drop_last(), taken) {
            Some(done) => match ground(plan.last().0, plan.last().1, taken + done) {
                Some(seed) => Some(done.push(seed)),
                None => None,
            },
            None => None,
        }
    }
}

/// Whether a seed was taken before.
pub(crate) fn taken_before(taken: &Vec<u8>, seed: u8) -> (r: bool)
    ensures
        r == taken@.contains(seed),
{
    let mut i: usize = 0;
    while i < taken.len()
        invariant
            i <= taken.len(),
            forall|j: int| 0 <= j < i ==> taken@[j] != seed,
        decreases taken.len() - i,
    {
        if taken[i] == seed {
            assert(taken@[i as int] == seed);
            return true;
        }
        i = i + 1;
    }
    false
}

/// Grinds a key whose account lands on `shard` under the uniform partition
/// into `num_shards`. Seeds in `taken` are passed over, and the seed found is
/// added to them. `None` where no seed is left that lands there.
#[must_use]
pub fn vm_account_routing_to_n(
    shard: ShardId,
    num_shards: u64,
    taken: &mut Vec<u8>,
) -> (r: Option<(Ed25519PrivateKey, [u8; 16])>)
    ensures
        match ground(shard, num_shards, old(taken)@) {
            Some(seed) => r is Some && is_actor(r->0, seed) && final(taken)@ == old(taken)@.push(
                seed,
            ),
            None => r is None && final(taken)@ == old(taken)@,
        },
{
    let trie = match ShardTrie::uniform_from_count(num_shards) {
        Some(trie) => trie,
        None => {
            return None;
        },
    };
    let ghost d = choose|d: u32|
        d <= 63 && num_shards == #[trigger] pow2(d as nat) && trie.leaves@ == Seq::new(
            pow2(d as nat),
            |i: int| ShardId { depth: d, path: i as u64 },
        );
    proof {
        if leaf_of(shard, num_shards) && shard.depth != d {
            if shard.depth < d {
                vstd::arithmetic::power2::lemma_pow2_strictly_increases(
                    shard.depth as nat,
                    d as nat,
                );
            } else {
                vstd::arithmetic::power2::lemma_pow2_strictly_increases(
                    d as nat,
                    shard.depth as nat,
                );
            }
        }
    }
    let mut seed: u8 = 1;
    loop
        invariant
            1 <= seed,
            trie.wf(),
            d <= 63,
            num_shards == pow2(d as nat),
            leaf_of(shard, num_shards) ==> shard.depth == d,
            trie.leaves@ == Seq::new(
                pow2(d as nat),
                |i: int| ShardId { depth: d, path: i as u64 },
            ),
            taken@ == old(taken)@,
            leaf_of(shard, num_shards) ==> forall|t: u8|
                #[trigger] candidate(shard, taken@, t) ==> seed <= t,
        ensures
            taken@ == old(taken)@,
            leaf_of(shard, num_shards) ==> forall|t: u8| !#[trigger] candidate(shard, taken@, t),
        decreases 255 - seed,
    {
        if !taken_before(taken, seed) {
            let address = vm_account_from_seed(seed);
            let home = trie.shard_for_prefix(&address);
            proof {
                let i = choose|i: int| 0 <= i < trie.leaves@.len() && trie.leaves@[i] == home;
                assert(trie.leaves@[i].depth == d);
            }
            if home == shard {
                proof {
                    assert(candidate(shard, taken@, seed));
                    assert(lowest(shard, taken@, seed));
                    let s = choose|s: u8| lowest(shard, taken@, s);
                    assert(candidate(shard, taken@, s));
                }
                taken.push(seed);
                return Some((signer_from_seed(seed), address));
            }
            proof {
                if leaf_of(shard, num_shards) && spans(shard, address@) {
                    vstd::arithmetic::power2::lemma_pow2_pos(d as nat);
                    crate::shard::lemma_top_bits_bound(address@, d as nat);
                    assert(trie.leaves@[shard.path as int] == shard);
                    crate::shard::law_shards_partition(trie, address, shard.path as int);
                }
            }
        }
        if seed == 255 {
            break;
        }
        seed = seed + 1;
    }
    None
}

/// One grind for each entry of `plan`, in order.
pub fn draw_all(plan: &[(ShardId, u64)], taken: &mut Vec<u8>) -> (r: Option<
    Vec<(Ed25519PrivateKey, [u8; 16])>,
>)
    ensures
        match draws(plan@, old(taken)@) {
            Some(seeds) => {
                &&& r is Some
                &&& r->0@.len() == plan@.len()
                &&& seeds.len() == plan@.len()
                &&& forall|i: int| 0 <= i < plan@.len() ==> is_actor(#[trigger] r->0@[i], seeds[i])
                &&& final(taken)@ == old(taken)@ + seeds
            },
            None => r is None && old(taken)@.is_prefix_of(final(taken)@),
        },
{
    let mut out: Vec<(Ed25519PrivateKey, [u8; 16])> = Vec::new();
    let mut i: usize = 0;
    let ghost mut seeds: Seq<u8> = Seq::empty();
    assert(old(taken)@ + seeds =~= old(taken)@);
    assert(plan@.take(0) =~= Seq::empty());
    while i < plan.len()
        invariant
            i <= plan@.len(),
            out@.len() == i,
            seeds.len() == i,
            taken@ == old(taken)@ + seeds,
            draws(plan@.take(i as int), old(taken)@) == Some(seeds),
            forall|j: int| 0 <= j < i ==> is_actor(#[trigger] out@[j], seeds[j]),
        decreases plan.len() - i,
    {
        let ghost next = plan@.take(i + 1);
        proof {
            assert(next.drop_last() =~= plan@.take(i as int));
            assert(next.last() == plan@[i as int]);
        }
        let entry = plan[i];
        match vm_account_routing_to_n(entry.0, entry.1, taken) {
            Some(actor) => {
                out.push(actor);
                proof {
                    let seed = ground(entry.0, entry.1, old(taken)@ + seeds)->0;
                    assert(old(taken)@ + seeds.push(seed) =~= (old(taken)@ + seeds).push(seed));
                    seeds = seeds.push(seed);
                }
            },
            None => {
                proof {
                    assert(draws(next, old(taken)@) is None);
                    lemma_draws_stay_none(plan@, (i + 1) as nat, old(taken)@);
                    assert(plan@.take(plan@.len() as int) =~= plan@);
                }
                return None;
            },
        }
        i = i + 1;
    }
    assert(plan@.take(plan@.len() as int) =~= plan@);
    Some(out)
}

/// A grind that fails on a prefix of the plan fails on the whole plan.
proof fn lemma_draws_stay_none(plan: Seq<(ShardId, u64)>, k: nat, taken: Seq<u8>)
    requires
        k <= plan.len(),
        draws(plan.take(k as int), taken) is None,
    ensures
        draws(plan.take(plan.len() as int), taken) is None,
    decreases plan.len() - k,
{
    if k < plan.len() {
        assert(plan.take((k + 1) as int).drop_last() =~= plan.take(k as int));
        lemma_draws_stay_none(plan, k + 1, taken);
    }
}

/// Grinding keeps accounts apart: the seeds drawn are distinct, none of them
/// was taken before, and each lands on the shard it was drawn for.
pub proof fn law_draws_are_fresh(plan: Seq<(ShardId, u64)>, taken: Seq<u8>)
    requires
        draws(plan, taken) is Some,
    ensures
        draws(plan, taken)->0.len() == plan.len(),
        draws(plan, taken)->0.no_duplicates(),
        forall|i: int|
            0 <= i < plan.len() ==> {
                let seed = #[trigger] draws(plan, taken)->0[i];
                &&& !taken.contains(seed)
                &&& leaf_of(plan[i].0, plan[i].1)
                &&& spans(plan[i].0, seed_account(seed))
            },
    decreases plan.len(),
{
    if plan.len() > 0 {
        law_draws_are_fresh(plan.drop_last(), taken);
        let done = draws(plan.drop_last(), taken)->0;
        let all = draws(plan, taken)->0;
        let seed = all.last();
        assert(lowest(plan.last().0, taken + done, seed));
        assert(candidate(plan.last().0, taken + done, seed));
        assert(!taken.contains(seed)) by {
            if taken.contains(seed) {
                let k = taken.index_of(seed);
                assert((taken + done)[k] == seed);
            }
        }
        assert(!done.contains(seed)) by {
            if done.contains(seed) {
                let k = done.index_of(seed);
                assert((taken + done)[taken.len() + k] == seed);
            }
        }
        assert forall|i: int, j: int| 0 <= i < j < all.len() implies all[i] != all[j] by {
            if j == all.len() - 1 {
                assert(done.contains(done[i]));
            } else {
                assert(done[i] != done[j]);
            }
        }
        assert forall|i: int| 0 <= i < plan.len() implies {
            let seed = #[trigger] all[i];
            &&& !taken.contains(seed)
            &&& leaf_of(plan[i].0, plan[i].1)
            &&& spans(plan[i].0, seed_account(seed))
        } by {
            if i < plan.len() - 1 {
                assert(done[i] == all[i]);
                assert(plan.drop_last()[i] == plan[i]);
            }
        }
    }
}

/// A grind finds the lowest seed, counted from one, that was not taken and whose
/// account the shard spans, wherever the shard is a leaf of the partition and
/// there is such a seed; and nothing else.
pub proof fn law_a_grind_finds_the_lowest_seed(
    shard: ShardId,
    num_shards: u64,
    taken: Seq<u8>,
    seed: u8,
)
    ensures
        ({
            let lands = |s: u8|
                s >= 1 && !taken.contains(s) && spans(
                    shard,
                    account_of(ed25519_public(Seq::new(32, |i: int| s))),
                );
            let found = ground(shard, num_shards, taken);
            &&& found is Some ==> shard.depth <= 63 && num_shards == pow2(shard.depth as nat)
                && lands(found->0)
            &&& lands(seed) && shard.depth <= 63 && num_shards == pow2(shard.depth as nat) ==> found
                is Some && found->0 <= seed
        }),
{
    if ground(shard, num_shards, taken) is Some {
        let s = ground(shard, num_shards, taken)->0;
        assert(lowest(shard, taken, s));
        assert(seed_bytes(s) =~= Seq::new(32, |i: int| s));
    }
    assert(seed_bytes(seed) =~= Seq::new(32, |i: int| seed));
    if candidate(shard, taken, seed) {
        let p = |s: u8| candidate(shard, taken, s);
        let m = lemma_least_byte(p, seed);
        assert forall|t: u8| #[trigger] candidate(shard, taken, t) implies m <= t by {
            assert(p(t));
        }
        assert(lowest(shard, taken, m));
    }
}

/// Successive grinds are single grinds, one behind the other: each draws what a
/// grind alone would find with the seeds taken and those drawn before it passed
/// over, and they all fail where one of them finds nothing.
pub proof fn law_draws_are_grinds_in_turn(plan: Seq<(ShardId, u64)>, taken: Seq<u8>)
    ensures
        draws(plan, taken) is Some ==> forall|i: int|
            #![trigger plan[i]]
            0 <= i < plan.len() ==> ground(
                plan[i].0,
                plan[i].1,
                taken + draws(plan, taken)->0.take(i),
            ) == Some(draws(plan, taken)->0[i]),
        draws(plan, taken) is None ==> exists|i: int|
            #![trigger plan[i]]
            0 <= i < plan.len() && draws(plan.take(i), taken) is Some && ground(
                plan[i].0,
                plan[i].1,
                taken + draws(plan.take(i), taken)->0,
            ) is None,
    decreases plan.len(),
{
    if plan.len() > 0 {
        let t = plan.drop_last();
        law_draws_are_grinds_in_turn(t, taken);
        match draws(t, taken) {
            Some(done) => {
                law_draws_are_fresh(t, taken);
                if draws(plan, taken) is Some {
                    let all = draws(plan, taken)->0;
                    assert forall|i: int|
                        #![trigger plan[i]]
                        0 <= i < plan.len() implies ground(
                        plan[i].0,
                        plan[i].1,
                        taken + all.take(i),
                    ) == Some(all[i]) by {
                        assert(all.take(i) =~= done.take(i));
                        if i < t.len() {
                            assert(t[i] == plan[i]);
                        } else {
                            assert(done.take(i) =~= done);
                        }
                    }
                } else {
                    assert(plan.take(t.len() as int) =~= t);
                    assert(plan[t.len() as int] == plan.last());
                }
            },
            None => {
                let i = choose|i: int|
                    #![trigger t[i]]
                    0 <= i < t.len() && draws(t.take(i), taken) is Some && ground(
                        t[i].0,
                        t[i].1,
                        taken + draws(t.take(i), taken)->0,
                    ) is None;
                assert(plan[i] == t[i]);
                assert(plan.take(i) =~= t.take(i));
            },
        }
    }
}

} // verus!
