//! What a provisioning tracker knows after a history of calls.
use vstd::prelude::*;

use crate::execution::provisioning::{
    law_absorbing_keeps_what_landed, lemma_mentions_last, mentions, Provisioning, ProvisionEntry,
};
use crate::shard::ShardId;
use crate::time::{Duration, WeightedTimestamp};
use crate::types::TxHash;

verus! {

/// A call that changes a tracker.
pub ghost enum Call {
    /// The attested clock is moved on.
    AdvanceClock(WeightedTimestamp),
    /// A requirement is recorded.
    RecordRequired(TxHash, Set<ShardId>),
    /// A payer's shard is recorded.
    RecordPayerShard(TxHash, ShardId),
    /// A bundle is absorbed: what it holds, where it comes from and its clock.
    AbsorbProvisions(Seq<ProvisionEntry>, ShardId, WeightedTimestamp),
    /// A transaction is removed.
    RemoveTx(TxHash),
    /// What is stale is swept.
    GcStaleProvisions(WeightedTimestamp),
}

/// What a tracker knows after a call.
pub open spec fn called(state: Provisioning, call: Call, horizon: Duration) -> Provisioning {
    match call {
        Call::AdvanceClock(now) => state.clocked(now),
        Call::RecordRequired(tx, shards) => state.requiring(tx, shards, horizon),
        Call::RecordPayerShard(tx, shard) => state.paid_from(tx, shard),
        Call::AbsorbProvisions(entries, source, ts) => state.with_entries(
            entries,
            source,
            ts,
            horizon,
        ),
        Call::RemoveTx(tx) => state.without(tx),
        Call::GcStaleProvisions(now) => state.without_all(state.stale(now)),
    }
}

/// What a new tracker knows after calls, one after the other.
pub open spec fn after(calls: Seq<Call>, horizon: Duration) -> Provisioning
    decreases calls.len(),
{
    if calls.len() == 0 {
        Provisioning::nothing()
    } else {
        called(after(calls.drop_last(), horizon), calls.last(), horizon)
    }
}

/// The highest clock that calls moved to.
pub open spec fn clock_in(calls: Seq<Call>) -> WeightedTimestamp
    decreases calls.len(),
{
    if calls.len() == 0 {
        WeightedTimestamp { millis: 0 }
    } else {
        let before = clock_in(calls.drop_last());
        match calls.last() {
            Call::AdvanceClock(now) => if now.millis > before.millis {
                now
            } else {
                before
            },
            _ => before,
        }
    }
}

/// A call touches a transaction: it records what it needs, or brings something
/// for it.
pub open spec fn touches(call: Call, tx: TxHash) -> bool {
    match call {
        Call::RecordRequired(t, _) => t == tx,
        Call::AbsorbProvisions(entries, _, _) => mentions(entries, tx),
        _ => false,
    }
}

/// The last call removes a transaction: it is removed by name, or a sweep finds
/// that its deadline has come.
pub open spec fn removed_last(calls: Seq<Call>, horizon: Duration, tx: TxHash) -> bool
    decreases calls.len(), 0nat,
{
    calls.len() > 0 && match calls.last() {
        Call::RemoveTx(t) => t == tx,
        Call::GcStaleProvisions(now) => {
            let due = deadline_in(calls.drop_last(), horizon, tx);
            due is Some && due->0.millis <= now.millis
        },
        _ => false,
    }
}

/// The deadline of a transaction: the horizon past the highest clock before the
/// last call that touched it, since it was last removed.
pub open spec fn deadline_in(calls: Seq<Call>, horizon: Duration, tx: TxHash) -> Option<
    WeightedTimestamp,
>
    decreases calls.len(), 1nat,
{
    if calls.len() == 0 || removed_last(calls, horizon, tx) {
        None
    } else if touches(calls.last(), tx) {
        Some(clock_in(calls.drop_last()).later(horizon))
    } else {
        deadline_in(calls.drop_last(), horizon, tx)
    }
}

/// The last requirement recorded for a transaction since it was last removed.
pub open spec fn requirement_in(calls: Seq<Call>, horizon: Duration, tx: TxHash) -> Option<
    Set<ShardId>,
>
    decreases calls.len(),
{
    if calls.len() == 0 || removed_last(calls, horizon, tx) {
        None
    } else {
        match calls.last() {
            Call::RecordRequired(t, shards) if t == tx => Some(shards),
            _ => requirement_in(calls.drop_last(), horizon, tx),
        }
    }
}

/// A bundle of a shard that holds something for a transaction was absorbed since
/// the transaction was last removed.
pub open spec fn absorbed_in(calls: Seq<Call>, horizon: Duration, tx: TxHash, shard: ShardId) -> bool
    decreases calls.len(),
{
    if calls.len() == 0 || removed_last(calls, horizon, tx) {
        false
    } else {
        match calls.last() {
            Call::AbsorbProvisions(entries, source, _) if source == shard && mentions(
                entries,
                tx,
            ) => true,
            _ => absorbed_in(calls.drop_last(), horizon, tx, shard),
        }
    }
}

/// Absorbing a bundle moves the deadlines of what it mentions, and no clock.
proof fn lemma_absorbed_deadlines(
    state: Provisioning,
    entries: Seq<ProvisionEntry>,
    source: ShardId,
    ts: WeightedTimestamp,
    horizon: Duration,
    tx: TxHash,
)
    requires
        state.deadlines.contains_key(tx) ==> state.deadlines[tx].millis <= state.now.later(
            horizon,
        ).millis,
    ensures
        ({
            let next = state.with_entries(entries, source, ts, horizon);
            &&& next.now == state.now
            &&& next.deadlines.contains_key(tx) <==> state.deadlines.contains_key(tx) || mentions(
                entries,
                tx,
            )
            &&& mentions(entries, tx) ==> next.deadlines[tx] == state.now.later(horizon)
            &&& !mentions(entries, tx) && state.deadlines.contains_key(tx) ==> next.deadlines[tx]
                == state.deadlines[tx]
        }),
    decreases entries.len(),
{
    if entries.len() > 0 {
        lemma_absorbed_deadlines(state, entries.drop_last(), source, ts, horizon, tx);
        lemma_mentions_last(entries, tx);
    }
}

/// A tracker knows of a transaction what its history says.
proof fn lemma_history(calls: Seq<Call>, horizon: Duration, tx: TxHash)
    ensures
        ({
            let state = after(calls, horizon);
            let due = deadline_in(calls, horizon, tx);
            let needs = requirement_in(calls, horizon, tx);
            &&& state.now == clock_in(calls)
            &&& state.deadlines.contains_key(tx) == due is Some
            &&& due is Some ==> state.deadlines[tx] == due->0 && due->0.millis <= state.now.later(
                horizon,
            ).millis
            &&& state.required.contains_key(tx) == needs is Some
            &&& needs is Some ==> state.required[tx] == needs->0 && due is Some
            &&& forall|shard: ShardId| #[trigger]
                state.landed(tx, shard) == absorbed_in(calls, horizon, tx, shard)
            &&& due is None ==> forall|shard: ShardId| !#[trigger] state.landed(tx, shard)
        }),
    decreases calls.len(),
{
    if calls.len() > 0 {
        let rest = calls.drop_last();
        lemma_history(rest, horizon, tx);
        let before = after(rest, horizon);
        let state = after(calls, horizon);
        if let Call::AbsorbProvisions(entries, source, ts) = calls.last() {
            law_absorbing_keeps_what_landed(before, entries, source, ts, horizon, tx);
            lemma_absorbed_deadlines(before, entries, source, ts, horizon, tx);
        }
        assert(state.now == clock_in(calls));
        assert(removed_last(calls, horizon, tx) ==> state.knows_nothing(tx));
        assert forall|shard: ShardId| #[trigger]
            state.landed(tx, shard) == absorbed_in(calls, horizon, tx, shard) by {
            assert(before.landed(tx, shard) == absorbed_in(rest, horizon, tx, shard));
        }
        if deadline_in(calls, horizon, tx) is None {
            assert forall|shard: ShardId| !#[trigger] state.landed(tx, shard) by {
                assert(before.landed(tx, shard) == absorbed_in(rest, horizon, tx, shard));
            }
        }
    }
}

/// Readiness over a history: a transaction is complete exactly where a
/// requirement is recorded and a bundle of every shard in it was absorbed, both
/// since the transaction was last removed. A requirement of nothing is complete
/// at once, and nothing absorbed makes up for one that was not recorded.
pub proof fn law_complete_by_history(calls: Seq<Call>, horizon: Duration, tx: TxHash)
    ensures
        after(calls, horizon).complete(tx) <==> {
            let needs = requirement_in(calls, horizon, tx);
            needs is Some && forall|shard: ShardId| #[trigger]
                needs->0.contains(shard) ==> absorbed_in(calls, horizon, tx, shard)
        },
{
    lemma_history(calls, horizon, tx);
    let state = after(calls, horizon);
    let needs = requirement_in(calls, horizon, tx);
    if state.complete(tx) {
        assert forall|shard: ShardId| #[trigger] needs->0.contains(shard) implies absorbed_in(
            calls,
            horizon,
            tx,
            shard,
        ) by {
            assert(state.required[tx].contains(shard));
            assert(state.landed(tx, shard));
        }
    }
    if needs is Some && forall|shard: ShardId| #[trigger]
        needs->0.contains(shard) ==> absorbed_in(calls, horizon, tx, shard) {
        assert forall|shard: ShardId| #[trigger]
            state.required[tx].contains(shard) implies state.landed(tx, shard) by {
            assert(needs->0.contains(shard));
        }
    }
}

/// Eviction over a history: a sweep takes exactly the transactions whose
/// deadline, the horizon past the clock at the last touch, has come. They lose
/// everything, every other transaction keeps everything, so a late insert
/// postpones eviction, and a second sweep at the same clock finds nothing.
pub proof fn law_swept_by_history(
    calls: Seq<Call>,
    horizon: Duration,
    now: WeightedTimestamp,
    tx: TxHash,
)
    ensures
        ({
            let state = after(calls, horizon);
            let due = deadline_in(calls, horizon, tx);
            let next = state.without_all(state.stale(now));
            &&& state.stale(now).contains(tx) <==> due is Some && due->0.millis <= now.millis
            &&& state.stale(now).contains(tx) ==> next.knows_nothing(tx)
            &&& !state.stale(now).contains(tx) ==> next.knows_alike(state, tx)
            &&& next.stale(now) == Set::<TxHash>::empty()
            &&& next.stale(now).len() == 0
        }),
{
    lemma_history(calls, horizon, tx);
    let state = after(calls, horizon);
    let next = state.without_all(state.stale(now));
    assert(next.stale(now) =~= Set::<TxHash>::empty());
}

} // verus!
