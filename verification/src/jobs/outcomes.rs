//! What becomes of thumbnails, requests and fixture plans.
use vstd::prelude::*;

use crate::jobs::engine::{fixture_job, fixture_jobs, BenchmarkNavigationQueue};
use crate::jobs::navigation::{ascends, quality_for};
use crate::jobs::persistence::PersistenceRequest;
use crate::jobs::pipeline::{complete_thumb_attempt, Event, ThumbOutcome, ThumbResult};
use crate::jobs::queue::{Action, PlannedJob, Quality};
use crate::meta::FileMeta;
use crate::planning::{build_plan_targets, PlanKind, PlanTarget};
use crate::types::Tier;

verus! {

/// Only the Full tier is developed at full quality.
pub proof fn law_only_the_full_tier_is_developed_in_full(tier: Tier, quality: Quality)
    requires
        call_ensures(quality_for, (tier,), quality),
    ensures
        quality == Quality::Full <==> tier == Tier::Full,
        quality == Quality::Browse <==> tier != Tier::Full,
{
}

/// A request retains every byte of its pixels.
pub proof fn law_requests_retain_their_pixels(request: &PersistenceRequest, bytes: usize)
    requires
        call_ensures(PersistenceRequest::retained_bytes, (request,), bytes),
    ensures
        bytes == request.pixels@.rgba.len(),
{
}

/// A thumbnail that was made is installed and reported with its metadata, and nothing
/// else is. One that failed is reported as failed, and then the metadata that was read
/// in its place, or why it could not be.
pub proof fn law_thumbnails_bring_their_metadata<F: FnOnce() -> Result<FileMeta, String>>(
    index: usize,
    attempt: Result<ThumbResult, String>,
    fallback: F,
    outcome: ThumbOutcome,
)
    requires
        call_ensures(complete_thumb_attempt::<F>, (index, attempt, fallback), outcome),
    ensures
        outcome.installed is Some <==> attempt is Ok,
        attempt matches Ok(made) ==> {
            &&& outcome.installed == Some(made.thumb)
            &&& outcome.events@ == seq![
                Event::ThumbReady { index, meta: Box::new(made.meta) },
            ]
        },
        attempt matches Err(error) ==> {
            &&& outcome.events@.len() == 2
            &&& outcome.events@[0] == (Event::ImageFailed { index, tier: Tier::Thumb, error })
            &&& outcome.events@[1] matches Event::MetadataReady { index: i, meta } ==> i == index
                && fallback.ensures((), Ok(*meta))
            &&& outcome.events@[1] matches Event::MetadataFailed { index: i, error: reason } ==> i
                == index && fallback.ensures((), Err(reason))
            &&& outcome.events@[1] is MetadataReady || outcome.events@[1] is MetadataFailed
        },
{
    if let Ok(made) = attempt {
        assert(outcome.events@ =~= seq![Event::ThumbReady { index, meta: Box::new(made.meta) }]);
    }
}

/// Whether a job is what a target asks of the fixture: what is displayed is developed at
/// the quality of its tier, and what is prefetched is prefetched where that is on.
pub open spec fn is_asked_for(target: PlanTarget, prefetch: bool, job: PlannedJob) -> bool {
    &&& job.0 == (target.index, target.tier)
    &&& job.1 == target.class
    &&& job.2 == target.effective_distance
    &&& target.kind == PlanKind::Display ==> job.3 == Action::Develop(
        if target.tier == Tier::Full {
            Quality::Full
        } else {
            Quality::Browse
        },
    )
    &&& target.kind == PlanKind::Prefetch ==> prefetch && job.3 == Action::PrefetchFull
    &&& target.kind != PlanKind::Warm
}

proof fn lemma_asked_for(targets: Seq<PlanTarget>, prefetch: bool, n: int) -> (at: Seq<int>)
    requires
        0 <= n <= targets.len(),
    ensures
        ascends(at, n),
        at.len() == fixture_jobs(targets, prefetch, n).len(),
        forall|i: int|
            0 <= i < at.len() ==> is_asked_for(
                targets[#[trigger] at[i]],
                prefetch,
                fixture_jobs(targets, prefetch, n)[i],
            ),
        forall|k: int|
            0 <= k < n && ((#[trigger] targets[k]).kind == PlanKind::Display || (prefetch
                && targets[k].kind == PlanKind::Prefetch)) ==> at.contains(k),
    decreases n,
{
    if n <= 0 {
        seq![]
    } else {
        let before = lemma_asked_for(targets, prefetch, n - 1);
        let rest = fixture_jobs(targets, prefetch, n - 1);
        let jobs = fixture_jobs(targets, prefetch, n);
        match fixture_job(targets[n - 1], prefetch) {
            Some(job) => {
                let at = before.push(n - 1);
                assert(at[before.len() as int] == n - 1);
                assert forall|i: int| 0 <= i < at.len() implies is_asked_for(
                    targets[#[trigger] at[i]],
                    prefetch,
                    jobs[i],
                ) by {
                    if i < before.len() {
                        assert(at[i] == before[i]);
                        assert(jobs[i] == rest[i]);
                    }
                }
                assert forall|k: int|
                    0 <= k < n && ((#[trigger] targets[k]).kind == PlanKind::Display || (prefetch
                        && targets[k].kind == PlanKind::Prefetch)) implies at.contains(k) by {
                    if k < n - 1 {
                        assert(before.contains(k));
                        let j = choose|j: int| 0 <= j < before.len() && before[j] == k;
                        assert(at[j] == k);
                    }
                }
                at
            },
            None => before,
        }
    }
}

/// The fixture queues what its targets ask for, in their order and nothing else.
pub proof fn law_fixtures_queue_what_is_asked_for(
    targets: Seq<PlanTarget>,
    prefetch: bool,
    jobs: Seq<PlannedJob>,
) -> (at: Seq<int>)
    requires
        jobs == fixture_jobs(targets, prefetch, targets.len() as int),
    ensures
        ascends(at, targets.len() as int),
        at.len() == jobs.len(),
        forall|i: int|
            0 <= i < at.len() ==> is_asked_for(targets[#[trigger] at[i]], prefetch, jobs[i]),
        forall|k: int|
            0 <= k < targets.len() && ((#[trigger] targets[k]).kind == PlanKind::Display || (
            prefetch && targets[k].kind == PlanKind::Prefetch)) ==> at.contains(k),
{
    lemma_asked_for(targets, prefetch, targets.len() as int)
}

/// The fixed policy queues what a plain forward wave in folder order displays.
pub proof fn law_the_fixed_policy_shows_a_plain_wave(
    queue: &BenchmarkNavigationQueue,
    len: usize,
    current: usize,
    order: &[usize],
    targets: Vec<PlanTarget>,
)
    requires
        queue.folder_len() == len,
        order@.len() == 0,
        call_ensures(build_plan_targets, (len, current, 1i8, false, order, false), targets),
    ensures
        queue.fixed_jobs(current) == fixture_jobs(targets@, false, targets@.len() as int),
{
    assert(order@ =~= seq![]);
}

} // verus!
