//! What the scenarios hold a network to, as judgements over what was observed.
use vstd::prelude::*;

use crate::bytes::{le_bytes, le_value, lemma_le_canonical, lemma_widths, u128_from_le};
use crate::engine::preview::{PreviewOutcome, PreviewReport, ResourceChange};
use crate::order::{same_bytes, same_key};
use crate::scenarios::funding::MIN_STAKE_FLOOR;
use crate::types::SubstateKey;

verus! {

/// How consensus decided a transaction.
#[derive(Clone, Copy, Debug, PartialEq, Eq, Structural)]
pub enum TransactionDecision {
    /// Its effects stand.
    Accept,
    /// It failed.
    Reject,
    /// It was given up.
    Aborted,
}

/// Where a transaction stands.
#[derive(Clone, Copy, Debug, PartialEq, Eq, Structural)]
pub enum TransactionStatus {
    /// It is not decided.
    Pending,
    /// It is decided.
    Completed(TransactionDecision),
}

/// Whether a transaction was accepted.
pub fn accepted(status: Option<TransactionStatus>) -> (r: bool)
    ensures
        r == (status == Some(TransactionStatus::Completed(TransactionDecision::Accept))),
{
    match status {
        Some(TransactionStatus::Completed(TransactionDecision::Accept)) => true,
        _ => false,
    }
}

/// Whether a transaction was rejected.
pub fn rejected(status: Option<TransactionStatus>) -> (r: bool)
    ensures
        r == (status == Some(TransactionStatus::Completed(TransactionDecision::Reject))),
{
    match status {
        Some(TransactionStatus::Completed(TransactionDecision::Reject)) => true,
        _ => false,
    }
}

/// Whether a transaction was aborted.
pub fn aborted(status: Option<TransactionStatus>) -> (r: bool)
    ensures
        r == (status == Some(TransactionStatus::Completed(TransactionDecision::Aborted))),
{
    match status {
        Some(TransactionStatus::Completed(TransactionDecision::Aborted)) => true,
        _ => false,
    }
}

/// A transaction is decided.
pub open spec fn is_decided(status: Option<TransactionStatus>) -> bool {
    status is Some && status->0 is Completed
}

/// Whether a transaction is decided.
pub fn decided(status: Option<TransactionStatus>) -> (r: bool)
    ensures
        r == is_decided(status),
{
    match status {
        Some(TransactionStatus::Completed(_)) => true,
        _ => false,
    }
}

/// Every transaction of a list was accepted.
pub open spec fn all_accepted(list: Seq<Option<TransactionStatus>>) -> bool {
    forall|i: int|
        0 <= i < list.len() ==> #[trigger] list[i] == Some(
            TransactionStatus::Completed(TransactionDecision::Accept),
        )
}

/// Traffic of both engines on one chain settles: every transaction accepts.
pub fn mixed_engine_blocks(list: &Vec<Option<TransactionStatus>>) -> (holds: bool)
    ensures
        holds == all_accepted(list@),
{
    let mut i: usize = 0;
    while i < list.len()
        invariant
            i <= list@.len(),
            forall|j: int|
                0 <= j < i ==> #[trigger] list@[j] == Some(
                    TransactionStatus::Completed(TransactionDecision::Accept),
                ),
        decreases list@.len() - i,
    {
        if !accepted(list[i]) {
            assert(list@[i as int] != Some(
                TransactionStatus::Completed(TransactionDecision::Accept),
            ));
            return false;
        }
        i = i + 1;
    }
    true
}

/// A transaction on one shard accepts, and the chain moves past genesis.
pub fn single_shard_tx(status: Option<TransactionStatus>, advanced: bool) -> (holds: bool)
    ensures
        holds == (status == Some(TransactionStatus::Completed(TransactionDecision::Accept))
            && advanced),
{
    accepted(status) && advanced
}

/// A transfer between two shards accepts.
pub fn cross_shard_tx(status: Option<TransactionStatus>) -> (holds: bool)
    ensures
        holds == (status == Some(TransactionStatus::Completed(TransactionDecision::Accept))),
{
    accepted(status)
}

/// Two transfers that each need what the other holds are both decided, and
/// what follows them accepts: neither shard still holds a lock.
pub fn livelock_resolves_promptly(
    a: Option<TransactionStatus>,
    b: Option<TransactionStatus>,
    after: Option<TransactionStatus>,
) -> (holds: bool)
    ensures
        holds == (is_decided(a) && is_decided(b) && after == Some(
            TransactionStatus::Completed(TransactionDecision::Accept),
        )),
{
    decided(a) && decided(b) && accepted(after)
}

/// A committed root, if a host serves one.
pub type Root = Option<[u8; 32]>;

fn same_root(a: &Root, b: &Root) -> (r: bool)
    ensures
        r == (*a == *b),
{
    match (a, b) {
        (Some(x), Some(y)) => {
            let r = same_bytes(x.as_slice(), y.as_slice());
            proof {
                if r {
                    assert(*x =~= *y);
                }
            }
            r
        },
        (None, None) => true,
        _ => false,
    }
}

/// A transfer accepts, the chain moves past genesis, and the state root moves
/// with it.
pub fn vm_single_transfer(
    status: Option<TransactionStatus>,
    advanced: bool,
    before: &Root,
    after: &Root,
) -> (holds: bool)
    ensures
        holds == (status == Some(TransactionStatus::Completed(TransactionDecision::Accept))
            && advanced && *after is Some && *after != *before),
{
    accepted(status) && advanced && after.is_some() && !same_root(after, before)
}

/// A withdrawal that nothing covers is rejected, and a covered one after it
/// accepts: the abort wedged nothing.
pub fn vm_abort_converges(
    over: Option<TransactionStatus>,
    fine: Option<TransactionStatus>,
) -> (holds: bool)
    ensures
        holds == (over == Some(TransactionStatus::Completed(TransactionDecision::Reject)) && fine
            == Some(TransactionStatus::Completed(TransactionDecision::Accept))),
{
    rejected(over) && accepted(fine)
}

/// A transfer that only an earlier one's deposit covers accepts, and commits
/// after it.
pub fn vm_reads_the_committed_baseline(
    first: Option<TransactionStatus>,
    second: Option<TransactionStatus>,
    first_height: Option<u64>,
    second_height: Option<u64>,
) -> (holds: bool)
    ensures
        holds == (first == Some(TransactionStatus::Completed(TransactionDecision::Accept))
            && second == Some(TransactionStatus::Completed(TransactionDecision::Accept))
            && first_height is Some && second_height is Some && second_height->0
            > first_height->0),
{
    if !accepted(first) || !accepted(second) {
        return false;
    }
    match (first_height, second_height) {
        (Some(a), Some(b)) => b > a,
        _ => false,
    }
}

/// A balance as an amount cell reads; nothing for an absent cell, and no answer
/// for one that is no amount.
pub open spec fn balance_in(cell: Option<Seq<u8>>) -> Option<u128> {
    match cell {
        None => Some(0),
        Some(c) => if c.len() == 16 {
            Some(le_value(c) as u128)
        } else {
            None
        },
    }
}

/// The balance of a vault, from its cell.
pub fn vm_vault_balance(cell: &Option<Vec<u8>>) -> (r: Option<u128>)
    ensures
        r == balance_in(crate::storage::writes::left(*cell)),
{
    match cell {
        None => Some(0),
        Some(c) => {
            if c.len() == 16 {
                Some(u128_from_le(c.as_slice()))
            } else {
                None
            }
        },
    }
}

/// What left a vault, where nothing came in.
pub open spec fn spent(before: u128, after: u128) -> Option<int> {
    if after <= before {
        Some(before - after)
    } else {
        None
    }
}

fn spent_of(before: u128, after: u128) -> (r: Option<u128>)
    ensures
        r is Some <==> spent(before, after) is Some,
        r is Some ==> r->0 == spent(before, after)->0,
{
    if after <= before {
        Some(before - after)
    } else {
        None
    }
}

/// What a nullifier race came to: two composers, and the one who asked.
#[derive(Clone, Copy, Debug)]
pub struct RaceReport {
    /// What became of the first composition.
    pub first: Option<TransactionStatus>,
    /// What became of the second.
    pub second: Option<TransactionStatus>,
    /// The first composer's balance before and after.
    pub first_vault: (u128, u128),
    /// The second composer's.
    pub second_vault: (u128, u128),
    /// The requester's.
    pub requester_vault: (u128, u128),
    /// What losing a race settles.
    pub floor: u128,
}

/// Exactly one of two compositions of one request accepts; the request is
/// filled once; the winner pays more than the request, the loser the floor.
pub open spec fn is_won_once(r: RaceReport, request: u128) -> bool {
    let accept = Some(TransactionStatus::Completed(TransactionDecision::Accept));
    let won = r.first == accept;
    let winner = if won {
        r.first_vault
    } else {
        r.second_vault
    };
    let loser = if won {
        r.second_vault
    } else {
        r.first_vault
    };
    &&& won != (r.second == accept)
    &&& r.requester_vault.0 <= r.requester_vault.1
    &&& r.requester_vault.1 - r.requester_vault.0 == request
    &&& spent(winner.0, winner.1) is Some
    &&& spent(winner.0, winner.1)->0 > request
    &&& spent(loser.0, loser.1) == Some(r.floor as int)
}

/// Judges a nullifier race.
pub fn vm_nullifier_race_admits_exactly_one(r: &RaceReport, request: u128) -> (holds: bool)
    ensures
        holds == is_won_once(*r, request),
{
    let won = accepted(r.first);
    if won == accepted(r.second) {
        return false;
    }
    if r.requester_vault.1 < r.requester_vault.0 {
        return false;
    }
    if r.requester_vault.1 - r.requester_vault.0 != request {
        return false;
    }
    let (winner, loser) = if won {
        (r.first_vault, r.second_vault)
    } else {
        (r.second_vault, r.first_vault)
    };
    match (spent_of(winner.0, winner.1), spent_of(loser.0, loser.1)) {
        (Some(w), Some(l)) => w > request && l == r.floor,
        _ => false,
    }
}

/// No height occurs twice.
pub open spec fn distinct_heights(heights: Seq<u64>) -> bool {
    forall|i: int, j: int|
        0 <= i < j < heights.len() ==> #[trigger] heights[i] != #[trigger] heights[j]
}

/// The heights from the lowest to the highest, both included.
pub open spec fn spans_heights(heights: Seq<u64>, span: int) -> bool {
    if heights.len() == 0 {
        span == 0
    } else {
        exists|lo: int, hi: int|
            0 <= lo < heights.len() && 0 <= hi < heights.len() && (forall|k: int|
                0 <= k < heights.len() ==> heights[lo] <= #[trigger] heights[k] <= heights[hi])
                && span == #[trigger] heights[hi] - #[trigger] heights[lo] + 1
    }
}

/// How many heights a set of payments spread over.
pub fn height_span(heights: &Vec<u64>) -> (span: u128)
    ensures
        spans_heights(heights@, span as int),
{
    if heights.len() == 0 {
        return 0;
    }
    let mut lo: usize = 0;
    let mut hi: usize = 0;
    let mut i: usize = 1;
    while i < heights.len()
        invariant
            1 <= i <= heights@.len(),
            lo < heights@.len(),
            hi < heights@.len(),
            forall|k: int|
                0 <= k < i ==> heights@[lo as int] <= #[trigger] heights@[k] <= heights@[hi as int],
        decreases heights@.len() - i,
    {
        if heights[i] < heights[lo] {
            lo = i;
        }
        if heights[i] > heights[hi] {
            hi = i;
        }
        i = i + 1;
    }
    assert(heights@[lo as int] <= heights@[0] <= heights@[hi as int]);
    assert(spans_heights(
        heights@,
        heights@[hi as int] - heights@[lo as int] + 1,
    ));
    (heights[hi] - heights[lo]) as u128 + 1
}

/// Payments into one vault are serialised: no two commit at one height, and
/// the vault holds every one of them.
pub open spec fn is_serialised(
    heights: Seq<u64>,
    before: u128,
    after: u128,
    settled: u64,
    payment: u128,
) -> bool {
    distinct_heights(heights) && before <= after && after - before == settled * payment
}

/// Judges a hot recipient.
pub fn vm_hot_recipient(
    heights: &Vec<u64>,
    before: u128,
    after: u128,
    settled: u64,
    payment: u128,
) -> (holds: bool)
    requires
        settled * payment <= u128::MAX,
    ensures
        holds == is_serialised(heights@, before, after, settled, payment),
{
    let mut i: usize = 0;
    while i < heights.len()
        invariant
            i <= heights@.len(),
            forall|a: int, b: int|
                0 <= a < b < i ==> #[trigger] heights@[a] != #[trigger] heights@[b],
        decreases heights@.len() - i,
    {
        let mut j: usize = 0;
        while j < i
            invariant
                j <= i,
                i < heights@.len(),
                forall|a: int| 0 <= a < j ==> #[trigger] heights@[a] != heights@[i as int],
            decreases i - j,
        {
            if heights[j] == heights[i] {
                assert(heights@[j as int] == heights@[i as int]);
                assert(!distinct_heights(heights@));
                return false;
            }
            j = j + 1;
        }
        i = i + 1;
    }
    if after < before {
        return false;
    }
    after - before == settled as u128 * payment
}

/// A cross-shard transfer accepts, and both chains carry it.
pub fn vm_cross_shard_transfer(
    status: Option<TransactionStatus>,
    payer_height: Option<u64>,
    recipient_height: Option<u64>,
) -> (holds: bool)
    ensures
        holds == (status == Some(TransactionStatus::Completed(TransactionDecision::Accept))
            && payer_height is Some && recipient_height is Some),
{
    accepted(status) && payer_height.is_some() && recipient_height.is_some()
}

fn lone_emitter(emitters: &Vec<[u8; 16]>, owner: &[u8; 16]) -> (r: bool)
    ensures
        r == (emitters@ == seq![*owner]),
{
    if emitters.len() != 1 {
        return false;
    }
    let r = same_bytes(emitters[0].as_slice(), owner.as_slice());
    proof {
        if r {
            assert(emitters@[0] =~= *owner);
            assert(emitters@ =~= seq![*owner]);
        } else {
            assert(emitters@[0] != *owner);
        }
    }
    r
}

/// Each shard stores the event that its own account emitted, and no other.
pub fn vm_events_land_on_their_emitters_home_shard(
    status: Option<TransactionStatus>,
    payer_emitters: &Vec<[u8; 16]>,
    recipient_emitters: &Vec<[u8; 16]>,
    from: &[u8; 16],
    to: &[u8; 16],
) -> (holds: bool)
    ensures
        holds == (status == Some(TransactionStatus::Completed(TransactionDecision::Accept))
            && payer_emitters@ == seq![*from] && recipient_emitters@ == seq![*to]),
{
    accepted(status) && lone_emitter(payer_emitters, from) && lone_emitter(recipient_emitters, to)
}

/// A recorded mark is above zero.
pub open spec fn is_attested(mark: Option<u64>) -> bool {
    mark is Some && mark->0 > 0
}

fn attested(mark: Option<u64>) -> (r: bool)
    ensures
        r == is_attested(mark),
{
    match mark {
        Some(g) => g > 0,
        None => false,
    }
}

/// Both shards of a transfer have their work recorded, the one that earned no
/// fee included, and recorded byte levels hold still while nothing runs.
pub fn vm_attested_load_reaches_the_beacon(
    status: Option<TransactionStatus>,
    payer_gas: Option<u64>,
    counterpart_gas: Option<u64>,
    bytes_before: (Option<u64>, Option<u64>),
    bytes_after: (Option<u64>, Option<u64>),
) -> (holds: bool)
    ensures
        holds == (status == Some(TransactionStatus::Completed(TransactionDecision::Accept))
            && is_attested(payer_gas) && is_attested(counterpart_gas) && bytes_before.0 is Some
            && bytes_before.1 is Some && bytes_after == bytes_before),
{
    accepted(status) && attested(payer_gas) && attested(counterpart_gas)
        && bytes_before.0.is_some() && bytes_before.1.is_some() && bytes_after.0 == bytes_before.0
        && bytes_after.1 == bytes_before.1
}

/// A failed attempt is rejected, and the shard's mark moves for it all the
/// same.
pub fn vm_a_failed_attempt_still_attests_work(
    status: Option<TransactionStatus>,
    before: u64,
    after: Option<u64>,
) -> (holds: bool)
    ensures
        holds == (status == Some(TransactionStatus::Completed(TransactionDecision::Reject))
            && after is Some && after->0 > before),
{
    if !rejected(status) {
        return false;
    }
    match after {
        Some(now) => now > before,
        None => false,
    }
}

/// Two shards stamped the same draw of thirty-two bytes, and both chains carry
/// the stamp.
pub fn vm_randomness_draw_agrees_across_shards(
    status: Option<TransactionStatus>,
    payer_height: Option<u64>,
    counterpart_height: Option<u64>,
    left: &Vec<u8>,
    right: &Vec<u8>,
) -> (holds: bool)
    ensures
        holds == (status == Some(TransactionStatus::Completed(TransactionDecision::Accept))
            && payer_height is Some && counterpart_height is Some && left@.len() == 32 && left@
            == right@),
{
    accepted(status) && payer_height.is_some() && counterpart_height.is_some() && left.len() == 32
        && same_bytes(left.as_slice(), right.as_slice())
}

/// A payer that cannot cover its fee engages nothing: both chains go on, the
/// transaction is never decided, and neither chain carries it.
pub fn vm_insolvent_payer_engages_nothing(
    payer_advanced: bool,
    counterpart_advanced: bool,
    status: Option<TransactionStatus>,
    payer_height: Option<u64>,
    counterpart_height: Option<u64>,
) -> (holds: bool)
    ensures
        holds == (payer_advanced && counterpart_advanced && !is_decided(status)
            && payer_height is None && counterpart_height is None),
{
    payer_advanced && counterpart_advanced && !decided(status) && payer_height.is_none()
        && counterpart_height.is_none()
}

/// What left a vault, or nothing.
pub open spec fn lowered(before: u128, after: u128) -> int {
    if after <= before {
        before - after
    } else {
        0
    }
}

fn lowered_by(before: u128, after: u128) -> (r: u128)
    ensures
        r == lowered(before, after),
{
    if after <= before {
        before - after
    } else {
        0
    }
}

/// A payer whose counterpart never engages is aborted and pays the floor: both
/// channels of its bundle were cut, and the counterpart's chain never carried
/// the transaction.
pub fn vm_abort_floor_settles_on_deadline(
    committed: bool,
    verdict: Option<TransactionStatus>,
    broadcasts_dropped: u64,
    fetches_dropped: u64,
    counterpart_height: Option<u64>,
    before: u128,
    after: u128,
    floor: u128,
) -> (holds: bool)
    ensures
        holds == (committed && verdict == Some(
            TransactionStatus::Completed(TransactionDecision::Aborted),
        ) && broadcasts_dropped > 0 && fetches_dropped > 0 && counterpart_height is None
            && lowered(before, after) == floor),
{
    committed && aborted(verdict) && broadcasts_dropped > 0 && fetches_dropped > 0
        && counterpart_height.is_none() && lowered_by(before, after) == floor
}

/// A failed attempt pays the floor and nothing else, and its payer can still
/// spend.
pub fn vm_failure_charges_its_payer(
    over: Option<TransactionStatus>,
    before: u128,
    after: u128,
    floor: u128,
    fine: Option<TransactionStatus>,
) -> (holds: bool)
    ensures
        holds == (over == Some(TransactionStatus::Completed(TransactionDecision::Reject))
            && lowered(before, after) == floor && fine == Some(
            TransactionStatus::Completed(TransactionDecision::Accept),
        )),
{
    rejected(over) && lowered_by(before, after) == floor && accepted(fine)
}

/// The first reported change of a cell, if there is one.
pub open spec fn change_of(changes: Seq<ResourceChange>, key: SubstateKey) -> Option<
    ResourceChange,
>
    decreases changes.len(),
{
    if changes.len() == 0 {
        None
    } else if changes[0].key == key {
        Some(changes[0])
    } else {
        change_of(changes.skip(1), key)
    }
}

/// The reported change of a cell, if there is one.
pub fn preview_change(report: &PreviewReport, key: &SubstateKey) -> (r: Option<ResourceChange>)
    ensures
        r == change_of(report.changes@, *key),
{
    let ghost all = report.changes@;
    let mut i: usize = 0;
    assert(all.skip(0) =~= all);
    while i < report.changes.len()
        invariant
            i <= all.len(),
            all == report.changes@,
            change_of(all, *key) == change_of(all.skip(i as int), *key),
        decreases all.len() - i,
    {
        if same_key(&report.changes[i].key, key) {
            assert(all.skip(i as int)[0] == all[i as int]);
            return Some(report.changes[i]);
        }
        proof {
            assert(all.skip(i as int)[0] == all[i as int]);
            assert(all.skip(i as int).skip(1) =~= all.skip(i + 1));
        }
        i = i + 1;
    }
    assert(all.skip(i as int).len() == 0);
    None
}

/// A preview of a transfer is right: it completes and costs something, the
/// sender pays the amount through its reservation and the fee, the recipient
/// is credited the amount, and free credit keeps exactly the fee off the
/// sender.
pub open spec fn previews_transfer(
    report: PreviewReport,
    credited: PreviewReport,
    sender: SubstateKey,
    recipient: SubstateKey,
    sender_before: u128,
    recipient_before: u128,
    amount: u128,
) -> bool {
    let s = change_of(report.changes@, sender);
    let r = change_of(report.changes@, recipient);
    let c = change_of(credited.changes@, sender);
    &&& report.outcome is Completed
    &&& report.fee > 0
    &&& credited.fee == report.fee
    &&& s is Some && r is Some && c is Some
    &&& s->0.before == sender_before && s->0.settled == amount
    &&& s->0.after + amount + report.fee == sender_before
    &&& r->0.before == recipient_before && r->0.credit == amount
    &&& r->0.after == recipient_before + amount
    &&& c->0.after == s->0.after + report.fee
}

/// Judges a preview of a transfer.
pub fn previews_a_transfer(
    report: &PreviewReport,
    credited: &PreviewReport,
    sender: &SubstateKey,
    recipient: &SubstateKey,
    sender_before: u128,
    recipient_before: u128,
    amount: u128,
) -> (holds: bool)
    ensures
        holds == previews_transfer(
            *report,
            *credited,
            *sender,
            *recipient,
            sender_before,
            recipient_before,
            amount,
        ),
{
    if !matches!(report.outcome, PreviewOutcome::Completed) || report.fee == 0 || credited.fee != report.fee {
        return false;
    }
    match (
        preview_change(report, sender),
        preview_change(report, recipient),
        preview_change(credited, sender),
    ) {
        (Some(s), Some(r), Some(c)) => {
            if s.before != sender_before || s.settled != amount || r.before != recipient_before
                || r.credit != amount {
                return false;
            }
            let paid = match s.after.checked_add(amount) {
                Some(x) => match x.checked_add(report.fee) {
                    Some(y) => y == sender_before,
                    None => false,
                },
                None => false,
            };
            let banked = match recipient_before.checked_add(amount) {
                Some(x) => r.after == x,
                None => false,
            };
            let spared = match s.after.checked_add(report.fee) {
                Some(x) => c.after == x,
                None => false,
            };
            paid && banked && spared
        },
        _ => false,
    }
}

/// A previewed transfer leaves no trace until it is submitted, and then lands
/// on the figures that the preview named.
pub fn vm_preview_reports_resource_changes(
    previewed: bool,
    known_before_submit: bool,
    carried_before_submit: bool,
    untouched: bool,
    status: Option<TransactionStatus>,
    sender: (u128, u128),
    recipient: (u128, u128),
) -> (holds: bool)
    ensures
        holds == (previewed && !known_before_submit && !carried_before_submit && untouched && status
            == Some(TransactionStatus::Completed(TransactionDecision::Accept)) && sender.0
            == sender.1 && recipient.0 == recipient.1),
{
    previewed && !known_before_submit && !carried_before_submit && untouched && accepted(status)
        && sender.0 == sender.1 && recipient.0 == recipient.1
}

/// One publish of a storm, as it was observed.
#[derive(Clone, Copy, Debug)]
pub struct StormPublish {
    /// What became of it.
    pub status: Option<TransactionStatus>,
    /// Where its publisher's shard committed it.
    pub height: Option<u64>,
    /// The cell that it published to.
    pub cell: SubstateKey,
    /// Whether the cell holds a package.
    pub held: bool,
}

/// No two publishes share a cell.
pub open spec fn distinct_cells(list: Seq<StormPublish>) -> bool {
    forall|i: int, j: int|
        0 <= i < j < list.len() ==> (#[trigger] list[i]).cell != (#[trigger] list[j]).cell
}

/// A publish went through.
pub open spec fn published(p: StormPublish) -> bool {
    p.status == Some(TransactionStatus::Completed(TransactionDecision::Accept)) && p.height is Some
        && p.held
}

/// A chain moved on; one that nobody served before has moved on when someone
/// does.
pub open spec fn is_ahead(before: Option<u64>, after: Option<u64>) -> bool {
    match (before, after) {
        (Some(a), Some(b)) => b > a,
        (None, Some(_)) => true,
        _ => false,
    }
}

/// A storm rides out: every publish is a package of its own, accepted,
/// committed and held, and both chains moved on.
pub open spec fn rides_out(
    list: Seq<StormPublish>,
    before: (Option<u64>, Option<u64>),
    after: (Option<u64>, Option<u64>),
) -> bool {
    &&& distinct_cells(list)
    &&& forall|i: int| 0 <= i < list.len() ==> published(#[trigger] list[i])
    &&& is_ahead(before.0, after.0)
    &&& is_ahead(before.1, after.1)
}

fn ahead(before: Option<u64>, after: Option<u64>) -> (r: bool)
    ensures
        r == is_ahead(before, after),
{
    match (before, after) {
        (Some(a), Some(b)) => b > a,
        (None, Some(_)) => true,
        _ => false,
    }
}

/// Judges a deploy storm.
pub fn vm_deploy_storm_rides_out(
    list: &Vec<StormPublish>,
    before: (Option<u64>, Option<u64>),
    after: (Option<u64>, Option<u64>),
) -> (holds: bool)
    ensures
        holds == rides_out(list@, before, after),
{
    let mut i: usize = 0;
    while i < list.len()
        invariant
            i <= list@.len(),
            forall|a: int, b: int|
                0 <= a < b < i ==> (#[trigger] list@[a]).cell != (#[trigger] list@[b]).cell,
            forall|a: int| 0 <= a < i ==> published(#[trigger] list@[a]),
        decreases list@.len() - i,
    {
        if !accepted(list[i].status) || list[i].height.is_none() || !list[i].held {
            assert(!published(list@[i as int]));
            return false;
        }
        let mut j: usize = 0;
        while j < i
            invariant
                j <= i,
                i < list@.len(),
                forall|a: int|
                    0 <= a < j ==> (#[trigger] list@[a]).cell != list@[i as int].cell,
            decreases i - j,
        {
            if same_key(&list[j].cell, &list[i].cell) {
                assert(list@[j as int].cell == list@[i as int].cell);
                assert(!distinct_cells(list@));
                return false;
            }
            j = j + 1;
        }
        i = i + 1;
    }
    ahead(before.0, after.0) && ahead(before.1, after.1)
}

/// What the staking scenario delegates.
pub const DELEGATION: u128 = 250_000;

/// A delegation folds: the pool held nothing before, and holds what was
/// delegated after.
pub fn vm_delegation_folds_into_beacon_state(
    before: Option<u128>,
    status: Option<TransactionStatus>,
    after: Option<u128>,
) -> (holds: bool)
    ensures
        holds == (before is None && status == Some(
            TransactionStatus::Completed(TransactionDecision::Accept),
        ) && after == Some(DELEGATION)),
{
    before.is_none() && accepted(status) && after == Some(DELEGATION)
}

/// Where a validator stands.
#[derive(Clone, Copy, Debug, PartialEq, Eq, Structural)]
pub enum ValidatorStatus {
    /// It waits in its pool.
    Pooled,
    /// It sits on a shard.
    OnShard,
    /// Its pool cannot support it.
    InsufficientStake,
    /// It was retired.
    Retired,
}

/// A registration against a funded pool seats a validator in the pool.
pub fn register_validator_pools_a_node(
    deposit_folded: bool,
    status: Option<ValidatorStatus>,
) -> (holds: bool)
    ensures
        holds == (deposit_folded && status == Some(ValidatorStatus::Pooled)),
{
    deposit_folded && matches!(status, Some(ValidatorStatus::Pooled))
}

/// A registration against a pool that can support nobody leaves no record.
pub fn register_without_capacity_is_rejected(
    deposit_folded: bool,
    status: Option<ValidatorStatus>,
) -> (holds: bool)
    ensures
        holds == (deposit_folded && status is None),
{
    deposit_folded && status.is_none()
}

/// Returning stake lowers what is effective at once, and what is staked only
/// when it matures.
pub fn stake_withdraw_drops_effective_stake(
    delegated: u128,
    returned: u128,
    effective: Option<u128>,
    total: Option<u128>,
) -> (holds: bool)
    requires
        returned <= delegated,
    ensures
        holds == (effective == Some((delegated - returned) as u128) && total == Some(delegated)),
{
    effective == Some((delegated - returned) as u128) && total == Some(delegated)
}

/// The amounts of that scenario: five floors delegated, two returned.
pub fn withdraw_amounts() -> (r: (u128, u128))
    ensures
        r.0 == 5 * MIN_STAKE_FLOOR,
        r.1 == 2 * MIN_STAKE_FLOOR,
        r.1 <= r.0,
{
    (5 * MIN_STAKE_FLOOR, 2 * MIN_STAKE_FLOOR)
}

/// A pooled validator draws onto a shard once a slot frees.
pub fn registered_validator_activates_onto_a_shard(
    deposit_folded: bool,
    pooled: Option<ValidatorStatus>,
    drawn: Option<ValidatorStatus>,
) -> (holds: bool)
    ensures
        holds == (deposit_folded && pooled == Some(ValidatorStatus::Pooled) && drawn == Some(
            ValidatorStatus::OnShard,
        )),
{
    deposit_folded && matches!(pooled, Some(ValidatorStatus::Pooled)) && matches!(
        drawn,
        Some(ValidatorStatus::OnShard)
    )
}

/// A validator serves, or waits to.
pub open spec fn is_active(status: Option<ValidatorStatus>) -> bool {
    status == Some(ValidatorStatus::OnShard) || status == Some(ValidatorStatus::Pooled)
}

fn active(status: Option<ValidatorStatus>) -> (r: bool)
    ensures
        r == is_active(status),
{
    match status {
        Some(ValidatorStatus::OnShard) => true,
        Some(ValidatorStatus::Pooled) => true,
        _ => false,
    }
}

/// A matured withdrawal ejects a validator that its pool no longer supports,
/// and a deposit brings it back.
pub fn withdrawal_ejects_a_validator_that_a_deposit_reactivates(
    at_first: Option<ValidatorStatus>,
    matured: Option<ValidatorStatus>,
    topped_up: Option<ValidatorStatus>,
) -> (holds: bool)
    ensures
        holds == (is_active(at_first) && matured == Some(ValidatorStatus::InsufficientStake)
            && is_active(topped_up)),
{
    active(at_first) && matches!(matured, Some(ValidatorStatus::InsufficientStake)) && active(
        topped_up,
    )
}

/// Registering a live validator again keeps its first key.
pub fn re_registration_of_a_live_validator_is_a_no_op(
    deposit_folded: bool,
    first: &[u8; 48],
    registered: &Option<[u8; 48]>,
    after: &Option<[u8; 48]>,
) -> (holds: bool)
    ensures
        holds == (deposit_folded && *registered == Some(*first) && *after == Some(*first)),
{
    deposit_folded && is_key(registered, first) && is_key(after, first)
}

fn is_key(found: &Option<[u8; 48]>, key: &[u8; 48]) -> (r: bool)
    ensures
        r == (*found == Some(*key)),
{
    match found {
        Some(k) => {
            let r = same_bytes(k.as_slice(), key.as_slice());
            proof {
                if r {
                    assert(*k =~= *key);
                }
            }
            r
        },
        None => false,
    }
}

/// How many candidates are registered.
pub open spec fn registrations(statuses: Seq<Option<ValidatorStatus>>) -> nat
    decreases statuses.len(),
{
    if statuses.len() == 0 {
        0
    } else {
        registrations(statuses.drop_last()) + (if statuses.last() is Some {
            1nat
        } else {
            0nat
        })
    }
}

/// A pool's capacity caps registrations: exactly as many take as it supports.
pub fn pool_capacity_caps_registrations(
    deposit_folded: bool,
    statuses: &Vec<Option<ValidatorStatus>>,
    capacity: usize,
) -> (holds: bool)
    ensures
        holds == (deposit_folded && registrations(statuses@) == capacity),
{
    let mut count: usize = 0;
    let mut i: usize = 0;
    assert(statuses@.take(0) =~= Seq::empty());
    while i < statuses.len()
        invariant
            i <= statuses@.len(),
            count <= i,
            count == registrations(statuses@.take(i as int)),
        decreases statuses@.len() - i,
    {
        assert(statuses@.take(i + 1).drop_last() =~= statuses@.take(i as int));
        if statuses[i].is_some() {
            count = count + 1;
        }
        i = i + 1;
    }
    assert(statuses@.take(statuses@.len() as int) =~= statuses@);
    deposit_folded && count == capacity
}

/// Which composition came first makes no difference to the judgement of a race,
/// and one that is won once has one accepted composition, a requester who gained
/// the request, an accepted composer who paid more than the request, and another
/// who paid the floor.
pub proof fn law_a_race_is_won_once_whoever_came_first(r: RaceReport, request: u128)
    ensures
        is_won_once(r, request) == is_won_once(
            RaceReport {
                first: r.second,
                second: r.first,
                first_vault: r.second_vault,
                second_vault: r.first_vault,
                requester_vault: r.requester_vault,
                floor: r.floor,
            },
            request,
        ),
        r.first == Some(TransactionStatus::Completed(TransactionDecision::Accept)) ==> (is_won_once(
            r,
            request,
        ) <==> r.second != Some(TransactionStatus::Completed(TransactionDecision::Accept))
            && r.requester_vault.1 == r.requester_vault.0 + request && r.first_vault.0
            > r.first_vault.1 + request && r.second_vault.0 == r.second_vault.1 + r.floor),
        is_won_once(r, request) ==> (r.first == Some(
            TransactionStatus::Completed(TransactionDecision::Accept),
        )) != (r.second == Some(TransactionStatus::Completed(TransactionDecision::Accept))),
{
}

/// Payments are serialised exactly where no height carries two of them and the
/// vault gained every one.
pub proof fn law_serialised_payments_all_arrive(
    heights: Seq<u64>,
    before: u128,
    after: u128,
    settled: u64,
    payment: u128,
)
    ensures
        is_serialised(heights, before, after, settled, payment) <==> heights.no_duplicates() && after
            == before + settled * payment,
{
    assert(settled * payment >= 0) by (nonlinear_arith);
}

/// The change reported of a cell is the first that speaks of it, and there is none
/// exactly where no change does.
pub proof fn law_the_first_change_of_a_cell_is_found(
    changes: Seq<ResourceChange>,
    key: SubstateKey,
    i: int,
)
    ensures
        0 <= i < changes.len() && changes[i].key == key && (forall|j: int|
            0 <= j < i ==> (#[trigger] changes[j]).key != key) ==> change_of(changes, key) == Some(
            changes[i],
        ),
        (forall|j: int| 0 <= j < changes.len() ==> (#[trigger] changes[j]).key != key) ==> change_of(
            changes,
            key,
        ) is None,
    decreases changes.len(),
{
    if changes.len() > 0 {
        let rest = changes.skip(1);
        law_the_first_change_of_a_cell_is_found(rest, key, i - 1);
        assert forall|j: int| 0 <= j < rest.len() implies #[trigger] rest[j] == changes[j + 1] by {}
        if 0 <= i < changes.len() && changes[i].key == key && (forall|j: int|
            0 <= j < i ==> (#[trigger] changes[j]).key != key) && i > 0 {
            assert(changes[0].key != key);
            assert forall|j: int| 0 <= j < i - 1 implies (#[trigger] rest[j]).key != key by {
                assert(rest[j] == changes[j + 1]);
            }
            assert(rest[i - 1] == changes[i]);
        }
        if forall|j: int| 0 <= j < changes.len() ==> (#[trigger] changes[j]).key != key {
            assert(changes[0].key != key);
            assert forall|j: int| 0 <= j < rest.len() implies (#[trigger] rest[j]).key != key by {
                assert(rest[j] == changes[j + 1]);
            }
        }
    }
}

/// A right preview of a transfer conserves what the two accounts hold: together
/// they would hold what they do, less the fee; the sender is out the amount and
/// the fee, the recipient is up the amount, and free credit would leave the
/// sender out the amount alone.
pub proof fn law_a_previewed_transfer_conserves(
    report: PreviewReport,
    credited: PreviewReport,
    sender: SubstateKey,
    recipient: SubstateKey,
    sender_before: u128,
    recipient_before: u128,
    amount: u128,
)
    requires
        previews_transfer(
            report,
            credited,
            sender,
            recipient,
            sender_before,
            recipient_before,
            amount,
        ),
    ensures
        ({
            let s = change_of(report.changes@, sender)->0;
            let r = change_of(report.changes@, recipient)->0;
            let c = change_of(credited.changes@, sender)->0;
            &&& report.outcome is Completed && report.fee > 0 && credited.fee == report.fee
            &&& s.before == sender_before && r.before == recipient_before
            &&& s.after + r.after + report.fee == sender_before + recipient_before
            &&& s.after == sender_before - amount - report.fee && s.settled == amount
            &&& r.after == recipient_before + amount && r.credit == amount
            &&& c.after == sender_before - amount
        }),
{
}

/// A storm rides out exactly where every publish of it was accepted, committed and
/// is held, each in a cell of its own, and each chain is served past where it was.
pub proof fn law_a_storm_rides_out_whole(
    list: Seq<StormPublish>,
    before: (Option<u64>, Option<u64>),
    after: (Option<u64>, Option<u64>),
)
    ensures
        rides_out(list, before, after) <==> list.map_values(
            |p: StormPublish| p.cell,
        ).no_duplicates() && (forall|i: int|
            0 <= i < list.len() ==> (#[trigger] list[i]).status == Some(
                TransactionStatus::Completed(TransactionDecision::Accept),
            ) && list[i].height is Some && list[i].held) && after.0 is Some && after.1 is Some && (
        before.0 is Some ==> before.0->0 < after.0->0) && (before.1 is Some ==> before.1->0
            < after.1->0),
{
    let cells = list.map_values(|p: StormPublish| p.cell);
    if distinct_cells(list) {
        assert forall|i: int, j: int| 0 <= i < cells.len() && 0 <= j < cells.len() && i != j implies
            cells[i] != cells[j] by {
            if i < j {
                assert(list[i].cell != list[j].cell);
            } else {
                assert(list[j].cell != list[i].cell);
            }
        }
    }
    if cells.no_duplicates() {
        assert forall|i: int, j: int| 0 <= i < j < list.len() implies (#[trigger] list[i]).cell != (
        #[trigger] list[j]).cell by {
            assert(cells[i] != cells[j]);
        }
    }
    if rides_out(list, before, after) {
        assert forall|i: int| 0 <= i < list.len() implies (#[trigger] list[i]).status == Some(
            TransactionStatus::Completed(TransactionDecision::Accept),
        ) && list[i].height is Some && list[i].held by {
            assert(published(list[i]));
        }
    }
}

/// A balance reads back: an absent cell is nothing, sixteen bytes are the amount
/// whose bytes they are, and no other cell is a balance. What left a vault and
/// what it was lowered by is the difference, where it did not gain.
pub proof fn law_balances_read_back(cell: Option<Seq<u8>>, before: u128, after: u128)
    ensures
        cell is None ==> balance_in(cell) == Some(0u128),
        cell is Some && cell->0.len() == 16 ==> balance_in(cell) is Some && le_bytes(
            balance_in(cell)->0 as nat,
            16,
        ) == cell->0,
        cell is Some && cell->0.len() != 16 ==> balance_in(cell) is None,
        spent(before, after) is Some <==> after <= before,
        after <= before ==> after + spent(before, after)->0 == before && after + lowered(
            before,
            after,
        ) == before,
        after > before ==> lowered(before, after) == 0,
{
    if cell is Some {
        lemma_widths();
        lemma_le_canonical(cell->0);
    }
}

/// The registered candidates are counted one by one.
pub proof fn law_registrations_are_counted(statuses: Seq<Option<ValidatorStatus>>)
    ensures
        registrations(statuses) == statuses.filter(
            |s: Option<ValidatorStatus>| s is Some,
        ).len(),
    decreases statuses.len(),
{
    reveal(Seq::filter);
    if statuses.len() > 0 {
        law_registrations_are_counted(statuses.drop_last());
    }
}

/// A transaction is decided by any of the three decisions, and by nothing else; a
/// validator is active on a shard or in its pool, and nowhere else; a mark is
/// attested where it is recorded and above zero.
pub proof fn law_what_counts_as_decided_active_and_attested(
    status: Option<TransactionStatus>,
    validator: Option<ValidatorStatus>,
    mark: Option<u64>,
)
    ensures
        is_decided(status) <==> status == Some(
            TransactionStatus::Completed(TransactionDecision::Accept),
        ) || status == Some(TransactionStatus::Completed(TransactionDecision::Reject)) || status
            == Some(TransactionStatus::Completed(TransactionDecision::Aborted)),
        is_active(validator) <==> validator is Some && !(validator->0 is InsufficientStake)
            && !(validator->0 is Retired),
        is_attested(mark) <==> mark is Some && mark != Some(0u64),
{
    if is_decided(status) {
        match status->0->Completed_0 {
            TransactionDecision::Accept => {},
            TransactionDecision::Reject => {},
            TransactionDecision::Aborted => {},
        }
    }
}

/// How far heights spread is one figure: one more than the highest is above the
/// lowest, and nothing where there are none. All are accepted exactly where each
/// one is.
pub proof fn law_heights_spread_one_way(
    heights: Seq<u64>,
    span: int,
    lo: int,
    hi: int,
    list: Seq<Option<TransactionStatus>>,
)
    requires
        spans_heights(heights, span),
    ensures
        heights.len() == 0 ==> span == 0,
        0 <= lo < heights.len() && 0 <= hi < heights.len() ==> span >= heights[hi] - heights[lo] + 1,
        0 <= lo < heights.len() && 0 <= hi < heights.len() && (forall|k: int|
            0 <= k < heights.len() ==> heights[lo] <= #[trigger] heights[k] <= heights[hi]) ==> span
            == heights[hi] - heights[lo] + 1,
        all_accepted(list) <==> forall|i: int|
            0 <= i < list.len() ==> (#[trigger] list[i]) is Some && list[i]->0 is Completed
                && list[i]->0->Completed_0 is Accept,
{
}

} // verus!
