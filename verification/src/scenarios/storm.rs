//! The artifacts and the plan of a deploy storm.
use vstd::prelude::*;

use crate::bridge::artifact::{attach_metadata, attach_refused_as, declared, section};
use crate::bridge::checks::MetadataLimits;
use crate::bridge::error::{FramingFault, VmStaticsError};
use crate::bridge::metadata::{section_of, PackageMetadata};
use crate::bridge::sbor_value::sbor_payload;
use crate::bridge::wire::Wire;
use crate::shard::ShardId;
use crate::text::{decimal, decimal_text, lemma_decimal_injective};

verus! {

/// The event name that tells one artifact of a storm from the next.
pub open spec fn storm_event(nonce: u16) -> Seq<char> {
    "storm-"@ + decimal(nonce as nat)
}

/// The metadata of a storm's artifact: the given one with one event more.
pub open spec fn storms(stormy: PackageMetadata, metadata: PackageMetadata, nonce: u16) -> bool {
    &&& stormy.methods == metadata.methods
    &&& stormy.events@.len() == metadata.events@.len() + 1
    &&& stormy.events@.drop_last() == metadata.events@
    &&& stormy.events@.last()@ == storm_event(nonce)
}

/// Adds the event that tells one artifact of a storm from the next.
pub fn storm_metadata(metadata: PackageMetadata, nonce: u16) -> (stormy: PackageMetadata)
    ensures
        storms(stormy, metadata, nonce),
{
    let mut stormy = metadata;
    let mut name = "storm-".to_string();
    let number = decimal_text(nonce as u64);
    name.append(number.as_str());
    stormy.events.push(name);
    assert(stormy.events@.drop_last() =~= metadata.events@);
    stormy
}

/// An artifact of a storm: a component with metadata that differs from the next
/// one's in one event name, so that each is a package of its own.
pub fn vm_storm_artifact(
    component: &[u8],
    metadata: PackageMetadata,
    nonce: u16,
    lim: &MetadataLimits,
) -> (r: Result<Vec<u8>, VmStaticsError>)
    requires
        lim.wf(),
        metadata.wf(),
    ensures
        exists|stormy: PackageMetadata| #[trigger]
            storms(stormy, metadata, nonce) && match r {
                Ok(out) => {
                    &&& declared(component@) == Ok::<Option<(int, int)>, FramingFault>(None)
                    &&& section_of(sbor_payload(stormy.tree()), stormy, *lim)
                    &&& out@ == component@ + section(sbor_payload(stormy.tree()))
                },
                Err(e) => attach_refused_as(component@, stormy, *lim, e),
            },
{
    let stormy = storm_metadata(metadata, nonce);
    assert(storms(stormy, metadata, nonce));
    attach_metadata(component, &stormy, lim)
}

/// How many packages each publisher of a storm deploys.
pub const PER_PUBLISHER: u16 = 6;

/// How many publishers a storm has, one for each child of the root.
pub const STORM_PUBLISHERS: u16 = 2;

/// A publish of a storm, before it is built.
#[derive(Clone, Copy, Debug, PartialEq, Eq, Structural)]
pub struct StormStep {
    /// Which of the storm's publishers deploys it.
    pub publisher: u16,
    /// The nonce of its artifact.
    pub nonce: u16,
    /// The publisher's shard.
    pub shard: ShardId,
}

/// The publish that a publisher deploys as its `k`th.
pub open spec fn storm_step(publisher: int, k: int) -> StormStep {
    StormStep {
        publisher: publisher as u16,
        nonce: (k + publisher * 1_000) as u16,
        shard: ShardId { depth: 1, path: publisher as u64 },
    }
}

/// The steps of a storm: every publisher deploys its packages in turn, under
/// nonces of its own.
pub open spec fn storm_steps() -> Seq<StormStep> {
    Seq::new(
        (STORM_PUBLISHERS * PER_PUBLISHER) as nat,
        |i: int| storm_step(i / (PER_PUBLISHER as int), i % (PER_PUBLISHER as int)),
    )
}

/// The publishes of a storm, in the order they are submitted.
#[must_use]
pub fn vm_storm_plan() -> (plan: Vec<StormStep>)
    ensures
        plan@ == storm_steps(),
{
    let mut plan: Vec<StormStep> = Vec::new();
    let mut publisher: u16 = 0;
    while publisher < STORM_PUBLISHERS
        invariant
            publisher <= STORM_PUBLISHERS,
            plan@.len() == publisher * PER_PUBLISHER,
            forall|i: int| 0 <= i < plan@.len() ==> #[trigger] plan@[i] == storm_steps()[i],
        decreases STORM_PUBLISHERS - publisher,
    {
        let mut nonce: u16 = 0;
        while nonce < PER_PUBLISHER
            invariant
                publisher < STORM_PUBLISHERS,
                nonce <= PER_PUBLISHER,
                plan@.len() == publisher * PER_PUBLISHER + nonce,
                forall|i: int| 0 <= i < plan@.len() ==> #[trigger] plan@[i] == storm_steps()[i],
            decreases PER_PUBLISHER - nonce,
        {
            let ghost at = plan@.len() as int;
            plan.push(
                StormStep {
                    publisher,
                    nonce: nonce + publisher * 1_000,
                    shard: ShardId::leaf(1, publisher as u64),
                },
            );
            assert(at / (PER_PUBLISHER as int) == publisher && at % (PER_PUBLISHER as int) == nonce);
            nonce = nonce + 1;
        }
        publisher = publisher + 1;
    }
    assert(plan@ =~= storm_steps());
    plan
}

/// No two publishes of a storm have one nonce, on one shard or on two.
pub proof fn law_storm_nonces_differ(i: int, j: int)
    requires
        0 <= i < j < storm_steps().len(),
    ensures
        storm_steps()[i].nonce != storm_steps()[j].nonce,
{
}

/// A storm is a storm: different nonces make different artifacts' metadata, so
/// no publish repeats another.
pub proof fn law_storm_events_differ(a: u16, b: u16)
    requires
        a != b,
    ensures
        storm_event(a) != storm_event(b),
{
    if storm_event(a) == storm_event(b) {
        let prefix = "storm-"@;
        assert(storm_event(a).skip(prefix.len() as int) =~= decimal(a as nat));
        assert(storm_event(b).skip(prefix.len() as int) =~= decimal(b as nat));
        lemma_decimal_injective(a as nat, b as nat);
    }
}

/// A storm has two publishers of six publishes each, one publisher behind the
/// other, each on its own child of the root, under nonces that count up from a
/// thousand times the publisher.
pub proof fn law_a_storm_is_two_runs_of_six(publisher: int, k: int)
    requires
        0 <= publisher < 2,
        0 <= k < 6,
    ensures
        storm_steps().len() == 12,
        ({
            let step = storm_steps()[publisher * 6 + k];
            &&& step.publisher == publisher
            &&& step.nonce == publisher * 1000 + k
            &&& step.shard.depth == 1
            &&& step.shard.path == publisher
        }),
{
    assert((publisher * 6 + k) / 6 == publisher && (publisher * 6 + k) % 6 == k);
}

/// A storm's metadata is the given one with one event behind the rest, named for
/// the nonce.
pub proof fn law_a_storm_adds_one_event(
    stormy: PackageMetadata,
    metadata: PackageMetadata,
    nonce: u16,
    i: int,
)
    requires
        storms(stormy, metadata, nonce),
        0 <= i < metadata.events@.len(),
    ensures
        stormy.methods == metadata.methods,
        stormy.events@.len() == metadata.events@.len() + 1,
        stormy.events@[i] == metadata.events@[i],
        stormy.events@[metadata.events@.len() as int]@ == "storm-"@ + decimal(nonce as nat),
{
    assert(stormy.events@.drop_last()[i] == stormy.events@[i]);
}

} // verus!
