//! What becomes of every single job of a queue.
//!
//! The laws here speak of planned, queued and running jobs one by one, before and
//! after an operation of the queue.

use vstd::prelude::*;

use crate::jobs::ids::JobId;
use crate::jobs::navigation::ascends;
use crate::jobs::queue::{
    background_outcome, best_runnable, cancel_id, claim_next, enqueue_plan, extended,
    failures_after, has_room, heap_after, is_live, is_running, owns, owns_live, planned,
    requires_id, retained, runnable, runs_compatibly, runs_exactly, speculative_active, urgent_lane,
    urgent_outcome, wanted, without_claim, Action, CancelToken, Claim, DeferredJob, JobCompletion,
    JobQueue, PlannedJob, Prio, Quality, QueueModel, QueuedJob, QueuedState, Running,
};
use crate::types::Tier;

verus! {

// ---------------------------------------------------------------------------
// Demand
// ---------------------------------------------------------------------------

/// Whether a running action does what another one asks for: the same work, or
/// optional Full work where Full pixels are asked for.
pub open spec fn serves(running: Action, asked: Action) -> bool {
    ||| running == asked
    ||| running == Action::PrefetchFull && asked == Action::Develop(Quality::Full)
    ||| running == Action::PrefetchFull && asked == Action::Rehydrate
}

/// Whether an optional target counts as failed after a plan: it failed before, the
/// navigation did not change, and the plan does not require it.
pub open spec fn still_failed(
    before: QueueModel,
    plan: Seq<PlannedJob>,
    changed: bool,
    id: JobId,
) -> bool {
    &&& !changed && before.failures.contains(id)
    &&& forall|i: int|
        0 <= i < plan.len() && (#[trigger] plan[i]).0 == id ==> plan[i].3 == Action::PrefetchFull
}

/// Whether a planned job counts: it is not optional work that still counts as
/// failed.
pub open spec fn stays(before: QueueModel, plan: Seq<PlannedJob>, changed: bool, i: int) -> bool {
    0 <= i < plan.len() && !(plan[i].3 == Action::PrefetchFull && still_failed(
        before,
        plan,
        changed,
        plan[i].0,
    ))
}

/// Whether a plan asks for an action of an image: some planned job that counts does,
/// and no later one asks for anything of that image.
pub open spec fn asks(
    before: QueueModel,
    plan: Seq<PlannedJob>,
    changed: bool,
    id: JobId,
    action: Action,
) -> bool {
    exists|i: int| #[trigger]
        stays(before, plan, changed, i) && plan[i].0 == id && plan[i].3 == action && forall|j: int|
            i < j && #[trigger] stays(before, plan, changed, j) ==> plan[j].0 != id
}

/// Whether a plan asks for anything of an image.
pub open spec fn asks_something(
    before: QueueModel,
    plan: Seq<PlannedJob>,
    changed: bool,
    id: JobId,
) -> bool {
    exists|i: int| #[trigger] stays(before, plan, changed, i) && plan[i].0 == id
}

/// Whether a running job was claimed as the background job.
pub open spec fn is_the_background_job(before: QueueModel, job: Running) -> bool {
    before.background_claim matches Some(claim) && claim.id == job.id && claim.generation
        == job.generation
}

/// Whether a job of an image is running, not cancelled, that serves an action.
pub open spec fn is_served(running: Seq<Running>, id: JobId, action: Action) -> bool {
    exists|r: int|
        0 <= r < running.len() && (#[trigger] running[r]).id == id && !running[r].cancelled
            && serves(running[r].action, action)
}

proof fn lemma_failures(before: QueueModel, plan: Seq<PlannedJob>, changed: bool, id: JobId)
    ensures
        failures_after(before, plan, changed).contains(id) <==> still_failed(
            before,
            plan,
            changed,
            id,
        ),
{
    if !changed {
        if requires_id(plan, plan.len() as int, id) {
            let i = choose|i: int|
                0 <= i < plan.len() && (#[trigger] plan[i]).0 == id && plan[i].3
                    != Action::PrefetchFull;
            assert(plan[i].0 == id);
        }
    }
}

proof fn lemma_retained_at(plan: Seq<PlannedJob>, failures: Set<JobId>, n: int) -> (at: Seq<int>)
    requires
        0 <= n <= plan.len(),
    ensures
        ascends(at, n),
        at.len() == retained(plan, failures, n).len(),
        forall|k: int|
            0 <= k < at.len() ==> retained(plan, failures, n)[k] == plan[#[trigger] at[k]] && !(
            plan[at[k]].3 == Action::PrefetchFull && failures.contains(plan[at[k]].0)),
        forall|i: int|
            0 <= i < n && !((#[trigger] plan[i]).3 == Action::PrefetchFull && failures.contains(
                plan[i].0,
            )) ==> at.contains(i),
    decreases n,
{
    if n <= 0 {
        seq![]
    } else {
        let before = lemma_retained_at(plan, failures, n - 1);
        let job = plan[n - 1];
        if job.3 == Action::PrefetchFull && failures.contains(job.0) {
            before
        } else {
            let at = before.push(n - 1);
            assert(at[before.len() as int] == n - 1);
            assert forall|k: int| 0 <= k < at.len() implies retained(plan, failures, n)[k]
                == plan[#[trigger] at[k]] && !(plan[at[k]].3 == Action::PrefetchFull
                && failures.contains(plan[at[k]].0)) by {
                if k < before.len() {
                    assert(at[k] == before[k]);
                }
            }
            assert forall|i: int|
                0 <= i < n && !((#[trigger] plan[i]).3 == Action::PrefetchFull && failures.contains(
                    plan[i].0,
                )) implies at.contains(i) by {
                if i < n - 1 {
                    let k = choose|k: int| 0 <= k < before.len() && before[k] == i;
                    assert(at[k] == i);
                }
            }
            at
        }
    }
}

/// The planned jobs that count.
spec fn kept_of(before: QueueModel, plan: Seq<PlannedJob>, changed: bool) -> Seq<PlannedJob> {
    if changed {
        plan
    } else {
        retained(plan, failures_after(before, plan, changed), plan.len() as int)
    }
}

proof fn lemma_kept_at(before: QueueModel, plan: Seq<PlannedJob>, changed: bool) -> (at: Seq<int>)
    ensures
        ascends(at, plan.len() as int),
        at.len() == kept_of(before, plan, changed).len(),
        forall|k: int|
            0 <= k < at.len() ==> kept_of(before, plan, changed)[k] == plan[#[trigger] at[k]]
                && stays(before, plan, changed, at[k]),
        forall|i: int| #[trigger] stays(before, plan, changed, i) ==> at.contains(i),
{
    let failures = failures_after(before, plan, changed);
    if changed {
        let at = Seq::new(plan.len(), |k: int| k);
        assert forall|i: int| #[trigger] stays(before, plan, changed, i) implies at.contains(
            i,
        ) by {
            assert(at[i] == i);
        }
        at
    } else {
        let at = lemma_retained_at(plan, failures, plan.len() as int);
        assert forall|k: int| 0 <= k < at.len() implies kept_of(before, plan, changed)[k]
            == plan[#[trigger] at[k]] && stays(before, plan, changed, at[k]) by {
            lemma_failures(before, plan, changed, plan[at[k]].0);
        }
        assert forall|i: int| #[trigger] stays(before, plan, changed, i) implies at.contains(
            i,
        ) by {
            lemma_failures(before, plan, changed, plan[i].0);
            assert(plan[i] == plan[i]);
        }
        at
    }
}

proof fn lemma_wanted(plan: Seq<PlannedJob>, epoch: u64, n: int, id: JobId)
    requires
        0 <= n <= plan.len(),
    ensures
        wanted(plan, epoch, n).contains_key(id) <==> exists|k: int|
            0 <= k < n && (#[trigger] plan[k]).0 == id,
        wanted(plan, epoch, n).contains_key(id) ==> exists|k: int|
            0 <= k < n && (#[trigger] plan[k]).0 == id && wanted(plan, epoch, n)[id] == (
            QueuedState { epoch, action: plan[k].3 }) && forall|j: int|
                k < j < n ==> (#[trigger] plan[j]).0 != id,
    decreases n,
{
    if n > 0 {
        lemma_wanted(plan, epoch, n - 1, id);
        if plan[n - 1].0 == id {
            assert(plan[n - 1].0 == id);
        } else if wanted(plan, epoch, n - 1).contains_key(id) {
            let k = choose|k: int|
                0 <= k < n - 1 && (#[trigger] plan[k]).0 == id && wanted(plan, epoch, n - 1)[id]
                    == (QueuedState { epoch, action: plan[k].3 }) && forall|j: int|
                    k < j < n - 1 ==> (#[trigger] plan[j]).0 != id;
            assert(plan[k].0 == id);
        }
    }
}

proof fn lemma_asked(
    before: QueueModel,
    plan: Seq<PlannedJob>,
    changed: bool,
    epoch: u64,
    id: JobId,
    action: Action,
)
    ensures
        ({
            let kept = kept_of(before, plan, changed);
            let want = wanted(kept, epoch, kept.len() as int);
            &&& want.contains_key(id) <==> asks_something(before, plan, changed, id)
            &&& want.contains_key(id) && want[id].action == action <==> asks(
                before,
                plan,
                changed,
                id,
                action,
            )
            &&& want.contains_key(id) ==> want[id].epoch == epoch
        }),
{
    let kept = kept_of(before, plan, changed);
    let n = kept.len() as int;
    let want = wanted(kept, epoch, n);
    let at = lemma_kept_at(before, plan, changed);
    lemma_wanted(kept, epoch, n, id);
    if want.contains_key(id) {
        let k = choose|k: int|
            0 <= k < n && (#[trigger] kept[k]).0 == id && want[id] == (QueuedState {
                epoch,
                action: kept[k].3,
            }) && forall|j: int| k < j < n ==> (#[trigger] kept[j]).0 != id;
        let i = at[k];
        assert(stays(before, plan, changed, i) && plan[i].0 == id);
        assert forall|j: int| i < j && #[trigger] stays(before, plan, changed, j) implies plan[j].0
            != id by {
            let m = choose|m: int| 0 <= m < at.len() && at[m] == j;
            if m <= k {
                if m < k {
                    assert(at[m] < at[k]);
                }
            }
            assert(kept[m].0 != id);
        }
        assert(asks(before, plan, changed, id, kept[k].3));
        if asks(before, plan, changed, id, action) {
            let o = choose|o: int| #[trigger]
                stays(before, plan, changed, o) && plan[o].0 == id && plan[o].3 == action
                    && forall|j: int|
                    o < j && #[trigger] stays(before, plan, changed, j) ==> plan[j].0 != id;
            if o < i {
                assert(stays(before, plan, changed, i));
            } else if i < o {
                assert(stays(before, plan, changed, o));
            }
        }
    }
    if asks_something(before, plan, changed, id) {
        let i = choose|i: int| #[trigger] stays(before, plan, changed, i) && plan[i].0 == id;
        let k = choose|k: int| 0 <= k < at.len() && at[k] == i;
        assert(kept[k].0 == id);
    }
    if asks(before, plan, changed, id, action) {
        let i = choose|i: int| #[trigger]
            stays(before, plan, changed, i) && plan[i].0 == id && plan[i].3 == action;
        assert(asks_something(before, plan, changed, id));
    }
}

// ---------------------------------------------------------------------------
// Replacing the plan
// ---------------------------------------------------------------------------

/// A new plan leaves alone what does not belong to it: the urgent, background and
/// parked jobs, the background claim, and the numbers of claims. A closed queue it
/// leaves alone altogether. Optional targets that failed count as failed until the
/// navigation changes or a plan requires them.
pub proof fn law_plans_leave_other_lanes_alone(
    queue: &mut JobQueue,
    plan: Vec<PlannedJob>,
    changed: bool,
    id: JobId,
)
    requires
        old(queue).wf(),
        has_room(old(queue)@, plan@.len() as int),
        call_ensures(JobQueue::set_plan, (queue, plan, changed), ()),
    ensures
        ({
            let before = old(queue)@;
            let after = final(queue)@;
            &&& before.closed ==> after == before
            &&& after.urgent == before.urgent
            &&& after.background == before.background
            &&& after.background_claim == before.background_claim
            &&& after.background_initialized == before.background_initialized
            &&& after.deferred == before.deferred
            &&& after.generation == before.generation
            &&& after.closed == before.closed
            &&& after.parallel == before.parallel
            &&& !before.closed ==> (after.failures.contains(id) <==> still_failed(
                before,
                plan@,
                changed,
                id,
            ))
            &&& !before.closed ==> after.epoch == before.epoch + 1
        }),
{
    lemma_failures(old(queue)@, plan@, changed, id);
}

/// A new plan cancels a running job exactly where it does not serve what the plan asks
/// of its image. The background job is left alone where the plan asks nothing of its
/// image, unless a changed navigation needs its worker for anything at all. No job is
/// replaced, and no cancellation withdrawn.
pub proof fn law_plans_cancel_what_they_do_not_ask_for(
    queue: &mut JobQueue,
    plan: Vec<PlannedJob>,
    changed: bool,
    r: int,
)
    requires
        old(queue).wf(),
        has_room(old(queue)@, plan@.len() as int),
        call_ensures(JobQueue::set_plan, (queue, plan, changed), ()),
        !old(queue)@.closed,
        0 <= r < old(queue)@.running.len(),
    ensures
        ({
            let before = old(queue)@;
            let was = before.running[r];
            let is = final(queue)@.running[r];
            let served = exists|action: Action| #[trigger]
                asks(before, plan@, changed, was.id, action) && serves(was.action, action);
            let asked = asks_something(before, plan@, changed, was.id);
            let busy = exists|i: int| stays(before, plan@, changed, i);
            &&& final(queue)@.running.len() == before.running.len()
            &&& is.id == was.id && is.action == was.action && is.generation == was.generation
            &&& is_the_background_job(before, was) ==> (is.cancelled <==> was.cancelled || (changed
                && busy) || (asked && !served))
            &&& !is_the_background_job(before, was) ==> (is.cancelled <==> was.cancelled || !served)
        }),
{
    let before = old(queue)@;
    let was = before.running[r];
    let kept = kept_of(before, plan@, changed);
    let epoch = (before.epoch + 1) as u64;
    let want = wanted(kept, epoch, kept.len() as int);
    let at = lemma_kept_at(before, plan@, changed);
    assert forall|action: Action|
        want.contains_key(was.id) && want[was.id].action == action <==> #[trigger] asks(
            before,
            plan@,
            changed,
            was.id,
            action,
        ) by {
        lemma_asked(before, plan@, changed, epoch, was.id, action);
    }
    lemma_asked(before, plan@, changed, epoch, was.id, Action::Metadata);
    if want.contains_key(was.id) {
        assert(asks(before, plan@, changed, was.id, want[was.id].action));
    }
    if kept.len() > 0 {
        assert(stays(before, plan@, changed, at[0]));
    }
    if exists|i: int| stays(before, plan@, changed, i) {
        let i = choose|i: int| stays(before, plan@, changed, i);
        assert(at.contains(i));
    }
}

proof fn lemma_admitted_at(
    plan: Seq<PlannedJob>,
    running: Seq<Running>,
    want: Map<JobId, QueuedState>,
    epoch: u64,
    seq: int,
    n: int,
) -> (at: Seq<int>)
    requires
        0 <= n <= plan.len(),
        0 <= seq,
        seq + n <= u64::MAX,
    ensures
        ({
            let a = enqueue_plan(plan, running, want, epoch, seq, n);
            &&& ascends(at, n)
            &&& at.len() == a.heap.len()
            &&& a.seq == seq + a.heap.len()
            &&& a.heap.len() <= n
            &&& forall|k: int|
                0 <= k < at.len() ==> a.heap[k] == (QueuedJob {
                    prio: Prio {
                        class: plan[#[trigger] at[k]].1,
                        eff_dist: plan[at[k]].2,
                        seq: (seq + k + 1) as u64,
                    },
                    epoch,
                    id: plan[at[k]].0,
                    action: plan[at[k]].3,
                }) && !runs_compatibly(running, plan[at[k]].0, plan[at[k]].3)
            &&& forall|i: int|
                0 <= i < n && !runs_compatibly(running, (#[trigger] plan[i]).0, plan[i].3)
                    ==> at.contains(i)
            &&& forall|id: JobId| #[trigger]
                a.queued.contains_key(id) <==> want.contains_key(id) && forall|i: int|
                    0 <= i < n && (#[trigger] plan[i]).0 == id ==> !runs_compatibly(
                        running,
                        id,
                        plan[i].3,
                    )
            &&& forall|id: JobId| #[trigger] a.queued.contains_key(id) ==> a.queued[id] == want[id]
        }),
    decreases n,
{
    if n <= 0 {
        seq![]
    } else {
        let before = lemma_admitted_at(plan, running, want, epoch, seq, n - 1);
        let rest = enqueue_plan(plan, running, want, epoch, seq, n - 1);
        let a = enqueue_plan(plan, running, want, epoch, seq, n);
        let job = plan[n - 1];
        assert forall|id: JobId| #[trigger]
            a.queued.contains_key(id) <==> want.contains_key(id) && forall|i: int|
                0 <= i < n && (#[trigger] plan[i]).0 == id ==> !runs_compatibly(
                    running,
                    id,
                    plan[i].3,
                ) by {
            assert(rest.queued.contains_key(id) <==> want.contains_key(id) && forall|i: int|
                0 <= i < n - 1 && (#[trigger] plan[i]).0 == id ==> !runs_compatibly(
                    running,
                    id,
                    plan[i].3,
                ));
            if job.0 == id && runs_compatibly(running, id, job.3) {
                assert(plan[n - 1].0 == id);
            }
        }
        assert forall|id: JobId| #[trigger] a.queued.contains_key(id) implies a.queued[id]
            == want[id] by {
            assert(rest.queued.contains_key(id));
        }
        if runs_compatibly(running, job.0, job.3) {
            before
        } else {
            let at = before.push(n - 1);
            assert(at[before.len() as int] == n - 1);
            assert forall|k: int| 0 <= k < at.len() implies a.heap[k] == (QueuedJob {
                prio: Prio {
                    class: plan[#[trigger] at[k]].1,
                    eff_dist: plan[at[k]].2,
                    seq: (seq + k + 1) as u64,
                },
                epoch,
                id: plan[at[k]].0,
                action: plan[at[k]].3,
            }) && !runs_compatibly(running, plan[at[k]].0, plan[at[k]].3) by {
                if k < before.len() {
                    assert(at[k] == before[k]);
                    assert(a.heap[k] == rest.heap[k]);
                }
            }
            assert forall|i: int|
                0 <= i < n && !runs_compatibly(
                    running,
                    (#[trigger] plan[i]).0,
                    plan[i].3,
                ) implies at.contains(i) by {
                if i < n - 1 {
                    let k = choose|k: int| 0 <= k < before.len() && before[k] == i;
                    assert(at[k] == i);
                }
            }
            at
        }
    }
}

proof fn lemma_served(running: Seq<Running>, id: JobId, action: Action)
    ensures
        runs_compatibly(running, id, action) <==> is_served(running, id, action),
{
    if is_served(running, id, action) {
        let r = choose|r: int|
            0 <= r < running.len() && (#[trigger] running[r]).id == id && !running[r].cancelled
                && serves(running[r].action, action);
        assert(running[r].id == id && running[r].action.satisfies(action));
    }
    if runs_compatibly(running, id, action) {
        let r = choose|r: int|
            0 <= r < running.len() && (#[trigger] running[r]).id == id
                && running[r].action.satisfies(action) && !running[r].cancelled;
        assert(running[r].id == id && serves(running[r].action, action));
    }
}

/// A new plan queues its jobs that count, in its order and numbered on, but for those
/// that a running job serves. Exactly the images that it asks something of, and none
/// of whose jobs is served, wait for what was asked last.
pub proof fn law_plans_queue_what_is_not_served(
    queue: &mut JobQueue,
    plan: Vec<PlannedJob>,
    changed: bool,
) -> (at: Seq<int>)
    requires
        old(queue).wf(),
        has_room(old(queue)@, plan@.len() as int),
        call_ensures(JobQueue::set_plan, (queue, plan, changed), ()),
        !old(queue)@.closed,
    ensures
        ({
            let before = old(queue)@;
            let after = final(queue)@;
            &&& ascends(at, plan@.len() as int)
            &&& at.len() == after.heap.len()
            &&& after.seq == before.seq + after.heap.len()
            &&& forall|k: int|
                0 <= k < at.len() ==> {
                    let job = plan@[#[trigger] at[k]];
                    let entry = after.heap[k];
                    &&& stays(before, plan@, changed, at[k])
                    &&& !is_served(after.running, job.0, job.3)
                    &&& entry.id == job.0 && entry.prio.class == job.1 && entry.prio.eff_dist
                        == job.2 && entry.action == job.3
                    &&& entry.prio.seq == before.seq + k + 1
                    &&& entry.epoch == before.epoch + 1
                }
            &&& forall|i: int| #[trigger]
                stays(before, plan@, changed, i) && !is_served(
                    after.running,
                    plan@[i].0,
                    plan@[i].3,
                ) ==> at.contains(i)
            &&& forall|id: JobId| #[trigger]
                after.queued.contains_key(id) <==> asks_something(before, plan@, changed, id)
                    && forall|i: int| #[trigger]
                    stays(before, plan@, changed, i) && plan@[i].0 == id ==> !is_served(
                        after.running,
                        id,
                        plan@[i].3,
                    )
            &&& forall|id: JobId| #[trigger]
                after.queued.contains_key(id) ==> after.queued[id].epoch == before.epoch + 1 && asks(
                    before,
                    plan@,
                    changed,
                    id,
                    after.queued[id].action,
                )
        }),
{
    let before = old(queue)@;
    let after = planned(before, plan@, changed);
    let kept = kept_of(before, plan@, changed);
    let epoch = (before.epoch + 1) as u64;
    let want = wanted(kept, epoch, kept.len() as int);
    let chosen = lemma_kept_at(before, plan@, changed);
    assert(kept.len() <= plan@.len()) by {
        lemma_ascending_len(chosen, plan@.len() as int);
    }
    let places = lemma_admitted_at(
        kept,
        after.running,
        want,
        epoch,
        before.seq,
        kept.len() as int,
    );
    let at = Seq::new(places.len(), |k: int| chosen[places[k]]);
    assert forall|k: int| 0 <= k < at.len() implies 0 <= #[trigger] at[k] < plan@.len() by {
        assert(0 <= places[k] < chosen.len());
        assert(at[k] == chosen[places[k]]);
    }
    assert forall|j: int, k: int| 0 <= j < k < at.len() implies #[trigger] at[j]
        < #[trigger] at[k] by {
        assert(places[j] < places[k]);
        assert(chosen[places[j]] < chosen[places[k]]);
    }
    assert forall|k: int| 0 <= k < at.len() implies ({
        let job = plan@[#[trigger] at[k]];
        let entry = after.heap[k];
        &&& stays(before, plan@, changed, at[k])
        &&& !is_served(after.running, job.0, job.3)
        &&& entry.id == job.0 && entry.prio.class == job.1 && entry.prio.eff_dist == job.2
            && entry.action == job.3
        &&& entry.prio.seq == before.seq + k + 1
        &&& entry.epoch == before.epoch + 1
    }) by {
        assert(0 <= places[k] < chosen.len());
        assert(kept[places[k]] == plan@[chosen[places[k]]]);
        lemma_served(after.running, plan@[at[k]].0, plan@[at[k]].3);
    }
    assert forall|i: int| #[trigger]
        stays(before, plan@, changed, i) && !is_served(
            after.running,
            plan@[i].0,
            plan@[i].3,
        ) implies at.contains(i) by {
        lemma_served(after.running, plan@[i].0, plan@[i].3);
        let m = choose|m: int| 0 <= m < chosen.len() && chosen[m] == i;
        assert(kept[m] == plan@[i]);
        assert(places.contains(m));
        let k = choose|k: int| 0 <= k < places.len() && places[k] == m;
        assert(at[k] == i);
    }
    assert forall|id: JobId| #[trigger]
        after.queued.contains_key(id) <==> asks_something(before, plan@, changed, id)
            && forall|i: int| #[trigger]
            stays(before, plan@, changed, i) && plan@[i].0 == id ==> !is_served(
                after.running,
                id,
                plan@[i].3,
            ) by {
        lemma_asked(before, plan@, changed, epoch, id, Action::Metadata);
        if forall|i: int| #[trigger]
            stays(before, plan@, changed, i) && plan@[i].0 == id ==> !is_served(
                after.running,
                id,
                plan@[i].3,
            ) {
            assert forall|m: int| 0 <= m < kept.len() && (#[trigger] kept[m]).0
                == id implies !runs_compatibly(after.running, id, kept[m].3) by {
                assert(kept[m] == plan@[chosen[m]]);
                assert(stays(before, plan@, changed, chosen[m]));
                lemma_served(after.running, id, kept[m].3);
            }
        }
        if forall|m: int|
            0 <= m < kept.len() && (#[trigger] kept[m]).0 == id ==> !runs_compatibly(
                after.running,
                id,
                kept[m].3,
            ) {
            assert forall|i: int| #[trigger]
                stays(before, plan@, changed, i) && plan@[i].0 == id implies !is_served(
                after.running,
                id,
                plan@[i].3,
            ) by {
                let m = choose|m: int| 0 <= m < chosen.len() && chosen[m] == i;
                assert(kept[m] == plan@[i]);
                lemma_served(after.running, id, plan@[i].3);
            }
        }
    }
    assert forall|id: JobId| #[trigger] after.queued.contains_key(id) implies after.queued[id].epoch
        == before.epoch + 1 && asks(before, plan@, changed, id, after.queued[id].action) by {
        lemma_asked(before, plan@, changed, epoch, id, after.queued[id].action);
    }
    at
}

proof fn lemma_ascending_len(at: Seq<int>, n: int)
    requires
        0 <= n,
        ascends(at, n),
    ensures
        at.len() <= n,
    decreases n,
{
    if at.len() > 0 {
        let rest = at.drop_last();
        let last = at.last();
        assert(0 <= at[at.len() - 1] < n);
        assert forall|i: int| 0 <= i < rest.len() implies 0 <= #[trigger] rest[i] < n - 1 by {
            assert(at[i] < at[at.len() - 1]);
        }
        assert forall|i: int, j: int| 0 <= i < j < rest.len() implies #[trigger] rest[i]
            < #[trigger] rest[j] by {
            assert(at[i] < at[j]);
        }
        if n > 0 {
            lemma_ascending_len(rest, n - 1);
        }
    }
}

// ---------------------------------------------------------------------------
// Claiming
// ---------------------------------------------------------------------------

/// Whether a job of an image is running.
pub open spec fn runs(running: Seq<Running>, id: JobId) -> bool {
    exists|r: int| 0 <= r < running.len() && (#[trigger] running[r]).id == id
}

/// Whether one of the first `n` entries of a lane asks something else of the image of
/// a running job than what it does.
pub open spec fn asks_otherwise(lane: Seq<(JobId, Action)>, n: int, job: Running) -> bool {
    exists|j: int| 0 <= j < n && (#[trigger] lane[j]).0 == job.id && lane[j].1 != job.action
}

/// Whether an entry of a lane asks for what a running job does, that is not cancelled
/// and of which no earlier entry asks something else.
pub open spec fn is_done_already(
    lane: Seq<(JobId, Action)>,
    running: Seq<Running>,
    j: int,
) -> bool {
    exists|r: int|
        0 <= r < running.len() && (#[trigger] running[r]).id == lane[j].0 && running[r].action
            == lane[j].1 && !running[r].cancelled && !asks_otherwise(lane, j, running[r])
}

/// Whether an entry of a lane is the first one whose image does not run.
pub open spec fn is_first_free(
    lane: Seq<(JobId, Action)>,
    running: Seq<Running>,
    u: int,
) -> bool {
    &&& 0 <= u < lane.len() && !runs(running, lane[u].0)
    &&& forall|j: int| 0 <= j < u ==> runs(running, (#[trigger] lane[j]).0)
}

/// Whether the image of every entry of a lane runs.
pub open spec fn is_blocked(lane: Seq<(JobId, Action)>, running: Seq<Running>) -> bool {
    forall|j: int| 0 <= j < lane.len() ==> runs(running, (#[trigger] lane[j]).0)
}

/// Whether no image runs twice.
spec fn runs_once(running: Seq<Running>) -> bool {
    forall|i: int, j: int|
        0 <= i < j < running.len() ==> (#[trigger] running[i]).id != (#[trigger] running[j]).id
}

/// The entries of a lane at some positions.
pub open spec fn picked(lane: Seq<(JobId, Action)>, at: Seq<int>) -> Seq<(JobId, Action)> {
    Seq::new(at.len(), |k: int| lane[at[k]])
}

/// How far a claim looks into the urgent lane: up to the entry that it takes, or to
/// the end.
spec fn looks_up_to(lane: Seq<(JobId, Action)>, running: Seq<Running>, bound: int) -> bool {
    is_first_free(lane, running, bound) || (bound == lane.len() && is_blocked(lane, running))
}

proof fn lemma_urgent_look(
    lane: Seq<(JobId, Action)>,
    kept: Seq<(JobId, Action)>,
    running: Seq<Running>,
    bound: int,
) -> (at: Seq<int>)
    requires
        runs_once(running),
        looks_up_to(lane, running, bound),
    ensures
        ({
            let outcome = urgent_outcome(lane, kept, running);
            &&& outcome.claimed == if bound < lane.len() {
                Some(lane[bound])
            } else {
                None
            }
            &&& outcome.running.len() == running.len()
            &&& forall|r: int|
                0 <= r < running.len() ==> {
                    let is = #[trigger] outcome.running[r];
                    &&& is.id == running[r].id && is.action == running[r].action && is.generation
                        == running[r].generation
                    &&& is.cancelled == (running[r].cancelled || asks_otherwise(
                        lane,
                        bound,
                        running[r],
                    ))
                }
            &&& ascends(at, bound)
            &&& forall|j: int|
                0 <= j < bound ==> (#[trigger] at.contains(j) <==> !is_done_already(
                    lane,
                    running,
                    j,
                ))
            &&& outcome.lane == (if bound < lane.len() {
                lane.skip(bound + 1)
            } else {
                seq![]
            }) + kept + picked(lane, at)
        }),
    decreases lane.len(),
{
    let outcome = urgent_outcome(lane, kept, running);
    if bound == 0 {
        let at = Seq::<int>::empty();
        assert(picked(lane, at) =~= seq![]);
        if lane.len() > 0 {
            assert(!is_running(running, lane[0].0)) by {
                if is_running(running, lane[0].0) {
                    let r = choose|r: int|
                        0 <= r < running.len() && (#[trigger] running[r]).id == lane[0].0;
                    assert(runs(running, lane[0].0));
                }
            }
            assert(lane.skip(1) =~= lane.skip(bound + 1));
            assert(outcome.lane =~= lane.skip(bound + 1) + kept + picked(lane, at));
        } else {
            assert(outcome.lane =~= Seq::<(JobId, Action)>::empty() + kept + picked(lane, at));
        }
        at
    } else {
        let (id, action) = lane[0];
        let rest = lane.skip(1);
        assert(runs(running, lane[0].0));
        let own = choose|r: int| 0 <= r < running.len() && (#[trigger] running[r]).id == id;
        assert(is_running(running, id));
        let exact = runs_exactly(running, id, action);
        assert(exact <==> running[own].action == action && !running[own].cancelled) by {
            if exact {
                let r = choose|r: int|
                    0 <= r < running.len() && (#[trigger] running[r]).id == id && running[r].action
                        == action && !running[r].cancelled;
                if r < own {
                    assert(running[r].id != running[own].id);
                } else if own < r {
                    assert(running[own].id != running[r].id);
                }
            }
        }
        let next = if exact {
            running
        } else {
            cancel_id(running, id)
        };
        let more = if exact {
            kept
        } else {
            kept.push((id, action))
        };
        assert(runs_once(next)) by {
            assert forall|i: int, j: int| 0 <= i < j < next.len() implies (#[trigger] next[i]).id
                != (#[trigger] next[j]).id by {
                assert(running[i].id != running[j].id);
            }
        }
        assert forall|other: JobId| runs(next, other) == runs(running, other) by {
            if runs(next, other) {
                let r = choose|r: int| 0 <= r < next.len() && (#[trigger] next[r]).id == other;
                assert(running[r].id == other);
            }
            if runs(running, other) {
                let r = choose|r: int|
                    0 <= r < running.len() && (#[trigger] running[r]).id == other;
                assert(next[r].id == other);
            }
        }
        assert forall|j: int| 0 <= j < rest.len() implies #[trigger] rest[j] == lane[j + 1] by {}
        assert(looks_up_to(rest, next, bound - 1)) by {
            if bound < lane.len() {
                assert forall|j: int| 0 <= j < bound - 1 implies runs(
                    next,
                    (#[trigger] rest[j]).0,
                ) by {
                    assert(runs(running, lane[j + 1].0));
                }
                assert(rest[bound - 1] == lane[bound]);
            } else {
                assert forall|j: int| 0 <= j < rest.len() implies runs(
                    next,
                    (#[trigger] rest[j]).0,
                ) by {
                    assert(runs(running, lane[j + 1].0));
                }
            }
        }
        let later = lemma_urgent_look(rest, more, next, bound - 1);
        assert forall|n: int, r: int|
            1 <= n <= bound && 0 <= r < running.len() implies #[trigger] asks_otherwise(
            lane,
            n,
            running[r],
        ) == (asks_otherwise(rest, n - 1, next[r]) || (running[r].id == id && running[r].action
            != action)) by {
            lemma_asks_otherwise(lane, n, running[r], next[r]);
        }
        let shifted = Seq::new(later.len(), |k: int| later[k] + 1);
        let at = if exact {
            shifted
        } else {
            seq![0int] + shifted
        };
        assert(picked(lane, shifted) =~= picked(rest, later)) by {
            assert forall|k: int| 0 <= k < later.len() implies lane[shifted[k]] == rest[later[k]] by {
                assert(0 <= later[k] < bound - 1);
            }
        }
        assert(outcome == urgent_outcome(rest, more, next));
        assert forall|r: int| 0 <= r < running.len() implies ({
            let is = #[trigger] outcome.running[r];
            &&& is.id == running[r].id && is.action == running[r].action && is.generation
                == running[r].generation
            &&& is.cancelled == (running[r].cancelled || asks_otherwise(lane, bound, running[r]))
        }) by {
            assert(outcome.running[r].id == next[r].id);
            assert(asks_otherwise(lane, bound, running[r]) == (asks_otherwise(
                rest,
                bound - 1,
                next[r],
            ) || (running[r].id == id && running[r].action != action)));
            if running[r].id == id {
                if r < own {
                    assert(running[r].id != running[own].id);
                } else if own < r {
                    assert(running[own].id != running[r].id);
                }
            }
        }
        assert forall|j: int| 0 <= j < bound implies (#[trigger] at.contains(j)
            <==> !is_done_already(lane, running, j)) by {
            if j == 0 {
                assert(is_done_already(lane, running, 0) <==> exact) by {
                    if exact {
                        assert(running[own].id == lane[0].0);
                        assert(!asks_otherwise(lane, 0, running[own]));
                    }
                    if is_done_already(lane, running, 0) {
                        let r = choose|r: int|
                            0 <= r < running.len() && (#[trigger] running[r]).id == lane[0].0
                                && running[r].action == lane[0].1 && !running[r].cancelled
                                && !asks_otherwise(lane, 0, running[r]);
                        assert(running[r].id == id && running[r].action == action);
                    }
                }
                if exact {
                    if at.contains(0) {
                        let k = choose|k: int| 0 <= k < at.len() && at[k] == 0;
                        assert(0 <= later[k]);
                    }
                } else {
                    assert(at[0] == 0);
                }
            } else {
                lemma_done_already(lane, running, next, id, action, own, j);
                assert(later.contains(j - 1) <==> !is_done_already(rest, next, j - 1));
                if later.contains(j - 1) {
                    let k = choose|k: int| 0 <= k < later.len() && later[k] == j - 1;
                    if exact {
                        assert(at[k] == j);
                    } else {
                        assert(at[k + 1] == shifted[k]);
                    }
                }
                if at.contains(j) {
                    let k = choose|k: int| 0 <= k < at.len() && at[k] == j;
                    if exact {
                        assert(later[k] == j - 1);
                    } else {
                        assert(k > 0);
                        assert(at[k] == shifted[k - 1]);
                        assert(later[k - 1] == j - 1);
                    }
                }
            }
        }
        assert(ascends(at, bound)) by {
            assert forall|i: int| 0 <= i < at.len() implies 0 <= #[trigger] at[i] < bound by {
                if exact {
                    assert(0 <= later[i] < bound - 1);
                } else if i > 0 {
                    assert(at[i] == shifted[i - 1]);
                    assert(0 <= later[i - 1] < bound - 1);
                }
            }
            assert forall|i: int, j: int| 0 <= i < j < at.len() implies #[trigger] at[i]
                < #[trigger] at[j] by {
                if exact {
                    assert(later[i] < later[j]);
                } else if i > 0 {
                    assert(at[i] == shifted[i - 1] && at[j] == shifted[j - 1]);
                    assert(later[i - 1] < later[j - 1]);
                } else {
                    assert(at[j] == shifted[j - 1]);
                    assert(0 <= later[j - 1]);
                }
            }
        }
        let tail = if bound < lane.len() {
            lane.skip(bound + 1)
        } else {
            seq![]
        };
        assert((if bound - 1 < rest.len() {
            rest.skip(bound)
        } else {
            seq![]
        }) =~= tail);
        if exact {
            assert(outcome.lane =~= tail + kept + picked(lane, at));
        } else {
            assert(picked(lane, at) =~= seq![(id, action)] + picked(lane, shifted)) by {
                assert forall|k: int| 0 <= k < at.len() implies picked(lane, at)[k] == (seq![
                    (id, action),
                ] + picked(lane, shifted))[k] by {
                    if k > 0 {
                        assert(at[k] == shifted[k - 1]);
                    }
                }
            }
            assert(outcome.lane =~= tail + kept + picked(lane, at));
        }
        at
    }
}

proof fn lemma_asks_otherwise(lane: Seq<(JobId, Action)>, n: int, job: Running, same: Running)
    requires
        1 <= n <= lane.len(),
        same.id == job.id,
        same.action == job.action,
    ensures
        asks_otherwise(lane, n, job) == (asks_otherwise(lane.skip(1), n - 1, same) || (job.id
            == lane[0].0 && job.action != lane[0].1)),
{
    let rest = lane.skip(1);
    if asks_otherwise(rest, n - 1, same) {
        let j = choose|j: int|
            0 <= j < n - 1 && (#[trigger] rest[j]).0 == same.id && rest[j].1 != same.action;
        assert(lane[j + 1] == rest[j]);
    }
    if asks_otherwise(lane, n, job) {
        let j = choose|j: int|
            0 <= j < n && (#[trigger] lane[j]).0 == job.id && lane[j].1 != job.action;
        if j > 0 {
            assert(rest[j - 1] == lane[j]);
        }
    }
    if job.id == lane[0].0 && job.action != lane[0].1 {
        assert(lane[0].0 == job.id);
    }
}

proof fn lemma_done_already(
    lane: Seq<(JobId, Action)>,
    running: Seq<Running>,
    next: Seq<Running>,
    id: JobId,
    action: Action,
    own: int,
    j: int,
)
    requires
        0 < j < lane.len(),
        lane[0] == (id, action),
        runs_once(running),
        0 <= own < running.len(),
        running[own].id == id,
        ({
            let exact = running[own].action == action && !running[own].cancelled;
            &&& exact ==> next == running
            &&& !exact ==> next == cancel_id(running, id)
        }),
    ensures
        is_done_already(lane.skip(1), next, j - 1) == is_done_already(lane, running, j),
{
    let rest = lane.skip(1);
    assert(rest[j - 1] == lane[j]);
    assert forall|r: int| 0 <= r < running.len() && running[r].id == id implies r == own by {
        if r < own {
            assert(running[r].id != running[own].id);
        } else if own < r {
            assert(running[own].id != running[r].id);
        }
    }
    if is_done_already(lane, running, j) {
        let r = choose|r: int|
            0 <= r < running.len() && (#[trigger] running[r]).id == lane[j].0 && running[r].action
                == lane[j].1 && !running[r].cancelled && !asks_otherwise(lane, j, running[r]);
        lemma_asks_otherwise(lane, j, running[r], next[r]);
        assert(next[r].id == rest[j - 1].0);
    }
    if is_done_already(rest, next, j - 1) {
        let r = choose|r: int|
            0 <= r < next.len() && (#[trigger] next[r]).id == rest[j - 1].0 && next[r].action
                == rest[j - 1].1 && !next[r].cancelled && !asks_otherwise(rest, j - 1, next[r]);
        lemma_asks_otherwise(lane, j, running[r], next[r]);
        assert(running[r].id == lane[j].0);
    }
}

proof fn lemma_look_bound(lane: Seq<(JobId, Action)>, running: Seq<Running>, n: int) -> (bound: int)
    requires
        0 <= n <= lane.len(),
        forall|j: int| 0 <= j < n ==> runs(running, (#[trigger] lane[j]).0),
    ensures
        looks_up_to(lane, running, bound),
    decreases lane.len() - n,
{
    if n == lane.len() {
        n
    } else if !runs(running, lane[n].0) {
        n
    } else {
        lemma_look_bound(lane, running, n + 1)
    }
}

/// Whether one priority comes before another: by class, then by distance, then by
/// arrival.
pub open spec fn comes_first(a: Prio, b: Prio) -> bool {
    if a.class != b.class {
        a.class < b.class
    } else if a.eff_dist != b.eff_dist {
        a.eff_dist < b.eff_dist
    } else {
        a.seq < b.seq
    }
}

/// Whether optional Full work occupies a worker, or a cancelled Full job still does.
pub open spec fn is_speculating(running: Seq<Running>) -> bool {
    exists|r: int|
        0 <= r < running.len() && ((#[trigger] running[r]).action == Action::PrefetchFull || (
        running[r].cancelled && running[r].id.1 == Tier::Full))
}

/// Whether a queued job can be claimed beside some running jobs: it is the one that
/// its image waits for, its image does not run, and, where it is optional Full work,
/// no other such work occupies a worker, nor, without parallel lanes, does background
/// work.
pub open spec fn is_ready(before: QueueModel, running: Seq<Running>, job: QueuedJob) -> bool {
    &&& before.queued.contains_key(job.id) && before.queued[job.id].epoch == job.epoch
    &&& !runs(running, job.id)
    &&& job.action == Action::PrefetchFull ==> !is_speculating(running) && (before.parallel
        || before.background_claim is None)
}

proof fn lemma_ready(m: QueueModel, job: QueuedJob)
    ensures
        runnable(m, job) == is_ready(m, m.running, job),
{
    if runs(m.running, job.id) {
        let r = choose|r: int| 0 <= r < m.running.len() && (#[trigger] m.running[r]).id == job.id;
        assert(is_running(m.running, job.id));
    }
    if is_running(m.running, job.id) {
        let r = choose|r: int| 0 <= r < m.running.len() && (#[trigger] m.running[r]).id == job.id;
        assert(runs(m.running, job.id));
    }
    if is_speculating(m.running) {
        let r = choose|r: int|
            0 <= r < m.running.len() && ((#[trigger] m.running[r]).action == Action::PrefetchFull
                || (m.running[r].cancelled && m.running[r].id.1 == Tier::Full));
        assert(speculative_active(m.running));
    }
    if speculative_active(m.running) {
        let r = choose|r: int|
            0 <= r < m.running.len() && ((#[trigger] m.running[r]).action == Action::PrefetchFull
                || (m.running[r].id.1 == Tier::Full && m.running[r].cancelled));
        assert(is_speculating(m.running));
    }
}

proof fn lemma_best(m: QueueModel, n: int)
    requires
        0 <= n <= m.heap.len(),
        forall|i: int, j: int|
            0 <= i < j < m.heap.len() ==> (#[trigger] m.heap[i]).prio.seq < (
            #[trigger] m.heap[j]).prio.seq,
    ensures
        match best_runnable(m, n) {
            None => forall|i: int| 0 <= i < n ==> !runnable(m, #[trigger] m.heap[i]),
            Some(best) => 0 <= best < n && runnable(m, m.heap[best]) && forall|i: int|
                0 <= i < n && i != best && runnable(m, #[trigger] m.heap[i]) ==> comes_first(
                    m.heap[best].prio,
                    m.heap[i].prio,
                ),
        },
    decreases n,
{
    if n > 0 {
        lemma_best(m, n - 1);
        let job = m.heap[n - 1];
        if let Some(best) = best_runnable(m, n - 1) {
            assert(m.heap[best].prio.seq < m.heap[n - 1].prio.seq);
        }
    }
}

proof fn lemma_background_look(
    lane: Seq<(JobId, Action)>,
    kept: Seq<(JobId, Action)>,
    running: Seq<Running>,
    bound: int,
)
    requires
        looks_up_to(lane, running, bound),
    ensures
        ({
            let outcome = background_outcome(lane, kept, running);
            &&& outcome.claimed == if bound < lane.len() {
                Some(lane[bound])
            } else {
                None
            }
            &&& outcome.lane == (if bound < lane.len() {
                lane.skip(bound + 1)
            } else {
                seq![]
            }) + kept + lane.take(bound)
        }),
    decreases lane.len(),
{
    let outcome = background_outcome(lane, kept, running);
    if lane.len() == 0 {
        assert(outcome.lane =~= Seq::<(JobId, Action)>::empty() + kept + lane.take(bound));
    } else if bound == 0 {
        assert(!is_running(running, lane[0].0)) by {
            if is_running(running, lane[0].0) {
                let r = choose|r: int|
                    0 <= r < running.len() && (#[trigger] running[r]).id == lane[0].0;
                assert(runs(running, lane[0].0));
            }
        }
        assert(outcome.lane =~= lane.skip(bound + 1) + kept + lane.take(bound));
    } else {
        assert(runs(running, lane[0].0));
        let r = choose|r: int| 0 <= r < running.len() && (#[trigger] running[r]).id == lane[0].0;
        assert(is_running(running, lane[0].0));
        let rest = lane.skip(1);
        assert forall|j: int| 0 <= j < rest.len() implies #[trigger] rest[j] == lane[j + 1] by {}
        assert(looks_up_to(rest, running, bound - 1)) by {
            if bound < lane.len() {
                assert forall|j: int| 0 <= j < bound - 1 implies runs(
                    running,
                    (#[trigger] rest[j]).0,
                ) by {
                    assert(runs(running, lane[j + 1].0));
                }
            } else {
                assert forall|j: int| 0 <= j < rest.len() implies runs(
                    running,
                    (#[trigger] rest[j]).0,
                ) by {
                    assert(runs(running, lane[j + 1].0));
                }
            }
        }
        lemma_background_look(rest, kept.push(lane[0]), running, bound - 1);
        let tail = if bound < lane.len() {
            lane.skip(bound + 1)
        } else {
            seq![]
        };
        assert((if bound - 1 < rest.len() {
            rest.skip(bound)
        } else {
            seq![]
        }) =~= tail);
        assert(outcome.lane =~= tail + kept + lane.take(bound));
    }
}

proof fn lemma_heap_at(m: QueueModel, chosen: Option<int>, n: int) -> (at: Seq<int>)
    requires
        0 <= n <= m.heap.len(),
    ensures
        ascends(at, n),
        at.len() == heap_after(m, chosen, n).len(),
        forall|k: int|
            0 <= k < at.len() ==> heap_after(m, chosen, n)[k] == m.heap[#[trigger] at[k]]
                && chosen != Some(at[k]),
        forall|i: int|
            0 <= i < n && chosen != Some(i) && is_live(m.queued, #[trigger] m.heap[i])
                ==> at.contains(i),
    decreases n,
{
    if n <= 0 {
        seq![]
    } else {
        let before = lemma_heap_at(m, chosen, n - 1);
        let rest = heap_after(m, chosen, n - 1);
        let all = heap_after(m, chosen, n);
        if all.len() > rest.len() {
            let at = before.push(n - 1);
            assert(at[before.len() as int] == n - 1);
            assert forall|k: int| 0 <= k < at.len() implies all[k] == m.heap[#[trigger] at[k]]
                && chosen != Some(at[k]) by {
                if k < before.len() {
                    assert(at[k] == before[k]);
                    assert(all[k] == rest[k]);
                }
            }
            assert forall|i: int|
                0 <= i < n && chosen != Some(i) && is_live(
                    m.queued,
                    #[trigger] m.heap[i],
                ) implies at.contains(i) by {
                if i < n - 1 {
                    let k = choose|k: int| 0 <= k < before.len() && before[k] == i;
                    assert(at[k] == i);
                }
            }
            at
        } else {
            before
        }
    }
}

/// What a claim looked at and took, over the state before it.
#[verifier::ext_equal]
pub struct ClaimTrail {
    /// How far it looked into the urgent lane.
    pub bound: int,
    /// The urgent entries in front of that which wait on.
    pub waiting: Seq<int>,
    /// The heap entry that it took.
    pub chosen: Option<int>,
    /// The heap entries that are left.
    pub left: Seq<int>,
    /// How far it looked into the background lane.
    pub reach: int,
}

/// What a queue claims next. Urgent demand comes first: the first entry whose image
/// does not run. Entries in front of it that a running job already does are dropped;
/// the others wait behind the rest, and what runs of their images is cancelled. Where
/// no urgent image is free, the ready job of the heap is claimed that comes before all
/// other ready ones. Where none is ready, the first background entry whose image does
/// not run is, unless background work runs already or, without parallel lanes,
/// optional Full work occupies a worker; those in front of it move behind the rest. A
/// claim is numbered and runs at once; nothing that waits is lost.
pub proof fn law_claims_go_by_lane_and_priority(
    queue: &mut JobQueue,
    job: Option<(JobId, Action, CancelToken)>,
) -> (trail: ClaimTrail)
    requires
        old(queue).wf(),
        old(queue)@.generation < u64::MAX,
        call_ensures(JobQueue::pop, (queue,), job),
        !old(queue)@.closed,
    ensures
        ({
            let before = old(queue)@;
            let after = final(queue)@;
            let n = before.running.len() as int;
            let seen = after.running.take(n);
            let urgent = trail.bound < before.urgent.len();
            // What runs.
            &&& after.running.len() == if job is Some {
                n + 1
            } else {
                n
            }
            &&& forall|r: int|
                0 <= r < n ==> {
                    let was = before.running[r];
                    let is = #[trigger] after.running[r];
                    &&& is.id == was.id && is.action == was.action && is.generation
                        == was.generation
                    &&& is.cancelled == (was.cancelled || asks_otherwise(
                        before.urgent,
                        trail.bound,
                        was,
                    ))
                }
            &&& job matches Some((id, action, token)) ==> {
                &&& after.running[n] == (Running {
                    id,
                    action,
                    generation: (before.generation + 1) as u64,
                    cancelled: false,
                })
                &&& token.id == id && token.generation == before.generation + 1
                &&& !runs(before.running, id)
            }
            &&& after.generation == before.generation + if job is Some {
                1int
            } else {
                0int
            }
            // The urgent lane.
            &&& is_first_free(before.urgent, before.running, trail.bound) || (trail.bound
                == before.urgent.len() && is_blocked(before.urgent, before.running))
            &&& ascends(trail.waiting, trail.bound)
            &&& forall|j: int|
                0 <= j < trail.bound ==> (#[trigger] trail.waiting.contains(j) <==> !is_done_already(
                    before.urgent,
                    before.running,
                    j,
                ))
            &&& after.urgent == (if urgent {
                before.urgent.skip(trail.bound + 1)
            } else {
                seq![]
            }) + picked(before.urgent, trail.waiting)
            &&& urgent ==> {
                &&& job matches Some((id, action, _)) && (id, action) == before.urgent[trail.bound]
                    && after.queued == before.queued.remove(id)
                &&& after.heap == before.heap
                &&& after.background == before.background
                &&& after.background_claim == before.background_claim
            }
            // The heap.
            &&& !urgent ==> {
                &&& trail.chosen is None <==> forall|i: int|
                    0 <= i < before.heap.len() ==> !is_ready(before, seen, #[trigger] before.heap[i])
                &&& ascends(trail.left, before.heap.len() as int)
                &&& trail.left.len() == after.heap.len()
                &&& forall|k: int|
                    0 <= k < trail.left.len() ==> after.heap[k] == before.heap[#[trigger] trail.left[
                        k
                    ]]
                &&& forall|i: int|
                    0 <= i < before.heap.len() && trail.chosen != Some(i)
                        && before.queued.contains_key((#[trigger] before.heap[i]).id)
                        && before.queued[before.heap[i].id].epoch == before.heap[i].epoch
                        ==> trail.left.contains(i)
            }
            &&& !urgent ==> (trail.chosen matches Some(best) ==> {
                &&& 0 <= best < before.heap.len()
                &&& is_ready(before, seen, before.heap[best])
                &&& forall|i: int|
                    0 <= i < before.heap.len() && i != best && is_ready(
                        before,
                        seen,
                        #[trigger] before.heap[i],
                    ) ==> comes_first(before.heap[best].prio, before.heap[i].prio)
                &&& job matches Some((id, action, _)) && id == before.heap[best].id && action
                    == before.heap[best].action && after.queued == before.queued.remove(id)
                &&& !trail.left.contains(best)
                &&& after.background == before.background
                &&& after.background_claim == before.background_claim
            })
            // The background lane.
            &&& !urgent && trail.chosen is None ==> {
                let free = before.background_claim is None && (before.parallel || !is_speculating(
                    seen,
                ));
                &&& after.queued == before.queued
                &&& !free ==> job is None && after.background == before.background
                    && after.background_claim == before.background_claim
                &&& free ==> {
                    &&& is_first_free(before.background, before.running, trail.reach) || (trail.reach
                        == before.background.len() && is_blocked(before.background, before.running))
                    &&& trail.reach < before.background.len() ==> {
                        &&& job matches Some((id, action, token)) && (id, action)
                            == before.background[trail.reach] && after.background_claim == Some(
                            Claim { id, action, generation: token.generation },
                        )
                        &&& after.background == before.background.skip(trail.reach + 1)
                            + before.background.take(trail.reach)
                    }
                    &&& trail.reach == before.background.len() ==> job is None && after.background
                        == before.background && after.background_claim is None
                }
            }
            // Everything else.
            &&& after.deferred == before.deferred && after.failures == before.failures
            &&& after.epoch == before.epoch && after.seq == before.seq
            &&& !after.closed && after.parallel == before.parallel
            &&& after.background_initialized == before.background_initialized
        }),
{
    let before = old(queue)@;
    let outcome = claim_next(before);
    let after = outcome.model;
    let n = before.running.len() as int;
    assert(runs_once(before.running));
    let bound = lemma_look_bound(before.urgent, before.running, 0);
    let waiting = lemma_urgent_look(before.urgent, seq![], before.running, bound);
    let looked = urgent_outcome(before.urgent, seq![], before.running);
    assert(looked.lane =~= (if bound < before.urgent.len() {
        before.urgent.skip(bound + 1)
    } else {
        seq![]
    }) + picked(before.urgent, waiting));
    let seen = looked.running;
    let m = QueueModel { urgent: looked.lane, running: seen, ..before };
    assert forall|id: JobId| runs(seen, id) == runs(before.running, id) by {
        if runs(seen, id) {
            let r = choose|r: int| 0 <= r < seen.len() && (#[trigger] seen[r]).id == id;
            assert(before.running[r].id == id);
        }
        if runs(before.running, id) {
            let r = choose|r: int|
                0 <= r < before.running.len() && (#[trigger] before.running[r]).id == id;
            assert(seen[r].id == id);
        }
    }
    assert(after.running.take(n) =~= seen);
    if bound < before.urgent.len() {
        ClaimTrail { bound, waiting, chosen: None, left: seq![], reach: 0 }
    } else {
        let chosen = best_runnable(m, m.heap.len() as int);
        lemma_best(m, m.heap.len() as int);
        assert forall|i: int| 0 <= i < m.heap.len() implies runnable(m, #[trigger] m.heap[i])
            == is_ready(before, seen, m.heap[i]) by {
            lemma_ready(m, m.heap[i]);
        }
        let left = lemma_heap_at(m, chosen, m.heap.len() as int);
        if chosen is Some {
            let best = chosen->0;
            assert(!left.contains(best)) by {
                if left.contains(best) {
                    let k = choose|k: int| 0 <= k < left.len() && left[k] == best;
                    assert(chosen != Some(left[k]));
                }
            }
            assert(is_ready(before, seen, before.heap[best]));
            ClaimTrail { bound, waiting, chosen, left, reach: 0 }
        } else {
            let reach = lemma_look_bound(before.background, before.running, 0);
            assert(looks_up_to(before.background, seen, reach)) by {
                if reach < before.background.len() {
                    assert forall|j: int| 0 <= j < reach implies runs(
                        seen,
                        (#[trigger] before.background[j]).0,
                    ) by {
                        assert(runs(before.running, before.background[j].0));
                    }
                } else {
                    assert forall|j: int| 0 <= j < before.background.len() implies runs(
                        seen,
                        (#[trigger] before.background[j]).0,
                    ) by {
                        assert(runs(before.running, before.background[j].0));
                    }
                }
            }
            lemma_background_look(before.background, seq![], seen, reach);
            let found = background_outcome(before.background, seq![], seen);
            assert(found.lane =~= (if reach < before.background.len() {
                before.background.skip(reach + 1)
            } else {
                seq![]
            }) + before.background.take(reach));
            if reach == before.background.len() {
                assert(found.lane =~= before.background);
            }
            assert(speculative_active(seen) == is_speculating(seen)) by {
                if is_speculating(seen) {
                    let r = choose|r: int|
                        0 <= r < seen.len() && ((#[trigger] seen[r]).action == Action::PrefetchFull
                            || (seen[r].cancelled && seen[r].id.1 == Tier::Full));
                    assert(seen[r].action == Action::PrefetchFull || (seen[r].id.1 == Tier::Full
                        && seen[r].cancelled));
                }
                if speculative_active(seen) {
                    let r = choose|r: int|
                        0 <= r < seen.len() && ((#[trigger] seen[r]).action == Action::PrefetchFull
                            || (seen[r].id.1 == Tier::Full && seen[r].cancelled));
                    assert(seen[r].action == Action::PrefetchFull || (seen[r].cancelled
                        && seen[r].id.1 == Tier::Full));
                }
            }
            ClaimTrail { bound, waiting, chosen, left, reach }
        }
    }
}

/// A closed queue hands out nothing and stays as it is.
pub proof fn law_nothing_is_claimed_after_shutdown(
    queue: &mut JobQueue,
    job: Option<(JobId, Action, CancelToken)>,
)
    requires
        old(queue).wf(),
        old(queue)@.generation < u64::MAX,
        call_ensures(JobQueue::pop, (queue,), job),
        old(queue)@.closed,
    ensures
        job is None,
        final(queue)@ == old(queue)@,
{
}

// ---------------------------------------------------------------------------
// The other producers
// ---------------------------------------------------------------------------

proof fn lemma_extended_entries(m: QueueModel, jobs: Seq<PlannedJob>, n: int, id: JobId)
    requires
        !m.closed,
        0 <= n <= jobs.len(),
        0 <= m.seq,
        m.seq + n <= u64::MAX,
        0 <= m.epoch <= u64::MAX,
    ensures
        ({
            let after = extended(m, jobs, n);
            &&& after.heap.len() == m.heap.len() + n
            &&& after.seq == m.seq + n
            &&& forall|i: int| 0 <= i < m.heap.len() ==> #[trigger] after.heap[i] == m.heap[i]
            &&& forall|k: int|
                0 <= k < n ==> after.heap[m.heap.len() + k] == (QueuedJob {
                    prio: Prio {
                        class: (#[trigger] jobs[k]).1,
                        eff_dist: jobs[k].2,
                        seq: (m.seq + k + 1) as u64,
                    },
                    epoch: m.epoch as u64,
                    id: jobs[k].0,
                    action: jobs[k].3,
                })
            &&& (forall|k: int| 0 <= k < n ==> (#[trigger] jobs[k]).0 != id) ==> (
            after.queued.contains_key(id) == m.queued.contains_key(id)) && (m.queued.contains_key(
                id,
            ) ==> after.queued[id] == m.queued[id])
            &&& (exists|k: int| 0 <= k < n && (#[trigger] jobs[k]).0 == id)
                ==> after.queued.contains_key(id) && exists|k: int|
                0 <= k < n && (#[trigger] jobs[k]).0 == id && after.queued[id] == (QueuedState {
                    epoch: m.epoch as u64,
                    action: jobs[k].3,
                }) && forall|j: int| k < j < n ==> (#[trigger] jobs[j]).0 != id
        }),
    decreases n,
{
    if n > 0 {
        lemma_extended_entries(m, jobs, n - 1, id);
        let rest = extended(m, jobs, n - 1);
        let after = extended(m, jobs, n);
        assert forall|k: int| 0 <= k < n implies after.heap[m.heap.len() + k] == (QueuedJob {
            prio: Prio {
                class: (#[trigger] jobs[k]).1,
                eff_dist: jobs[k].2,
                seq: (m.seq + k + 1) as u64,
            },
            epoch: m.epoch as u64,
            id: jobs[k].0,
            action: jobs[k].3,
        }) by {
            if k < n - 1 {
                assert(after.heap[m.heap.len() + k] == rest.heap[m.heap.len() + k]);
            }
        }
        if jobs[n - 1].0 == id {
            assert(jobs[n - 1].0 == id);
        } else if exists|k: int| 0 <= k < n && (#[trigger] jobs[k]).0 == id {
            let o = choose|k: int| 0 <= k < n && (#[trigger] jobs[k]).0 == id;
            assert(o < n - 1);
            let k = choose|k: int|
                0 <= k < n - 1 && (#[trigger] jobs[k]).0 == id && rest.queued[id] == (QueuedState {
                    epoch: m.epoch as u64,
                    action: jobs[k].3,
                }) && forall|j: int| k < j < n - 1 ==> (#[trigger] jobs[j]).0 != id;
            assert(jobs[k].0 == id);
        } else {
            assert(jobs[n - 1].0 != id);
        }
    }
}

proof fn lemma_extended_rest(m: QueueModel, jobs: Seq<PlannedJob>, n: int)
    ensures
        ({
            let after = extended(m, jobs, n);
            &&& after.urgent == m.urgent && after.running == m.running && after.background
                == m.background
            &&& after.background_claim == m.background_claim && after.deferred == m.deferred
            &&& after.background_initialized == m.background_initialized && after.failures
                == m.failures
            &&& after.epoch == m.epoch && after.generation == m.generation && after.closed
                == m.closed && after.parallel == m.parallel
        }),
    decreases n,
{
    if n > 0 && !m.closed {
        lemma_extended_rest(m, jobs, n - 1);
    }
}

/// Appended jobs are queued behind everything else, numbered on, under the current
/// plan, and their images wait for what was asked last. Nothing else changes, and a
/// closed queue takes none.
pub proof fn law_appended_jobs_are_queued_behind(
    queue: &mut JobQueue,
    jobs: Vec<PlannedJob>,
    k: int,
    id: JobId,
)
    requires
        old(queue).wf(),
        old(queue)@.seq + jobs@.len() <= u64::MAX,
        call_ensures(JobQueue::extend, (queue, jobs), ()),
    ensures
        ({
            let before = old(queue)@;
            let after = final(queue)@;
            let n = before.heap.len() as int;
            &&& before.closed ==> after == before
            &&& after.urgent == before.urgent && after.running == before.running
            &&& after.background == before.background && after.background_claim
                == before.background_claim
            &&& after.deferred == before.deferred && after.failures == before.failures
            &&& after.epoch == before.epoch && after.generation == before.generation
            &&& after.closed == before.closed && after.parallel == before.parallel
            &&& after.background_initialized == before.background_initialized
            &&& !before.closed ==> {
                &&& after.heap.len() == n + jobs@.len()
                &&& after.seq == before.seq + jobs@.len()
                &&& forall|i: int| 0 <= i < n ==> #[trigger] after.heap[i] == before.heap[i]
                &&& 0 <= k < jobs@.len() ==> {
                    let entry = after.heap[n + k];
                    &&& entry.id == jobs@[k].0 && entry.prio.class == jobs@[k].1
                        && entry.prio.eff_dist == jobs@[k].2 && entry.action == jobs@[k].3
                    &&& entry.prio.seq == before.seq + k + 1 && entry.epoch == before.epoch
                }
                &&& (forall|j: int| 0 <= j < jobs@.len() ==> (#[trigger] jobs@[j]).0 != id) ==> (
                after.queued.contains_key(id) == before.queued.contains_key(id)) && (
                before.queued.contains_key(id) ==> after.queued[id] == before.queued[id])
                &&& 0 <= k < jobs@.len() && (forall|j: int|
                    k < j < jobs@.len() ==> (#[trigger] jobs@[j]).0 != jobs@[k].0)
                    ==> after.queued.contains_key(jobs@[k].0) && after.queued[jobs@[k].0].action
                    == jobs@[k].3 && after.queued[jobs@[k].0].epoch == before.epoch
            }
        }),
{
    let before = old(queue)@;
    let n = jobs@.len() as int;
    lemma_extended_rest(before, jobs@, n);
    if !before.closed {
        lemma_extended_entries(before, jobs@, n, id);
        if 0 <= k < n {
            lemma_extended_entries(before, jobs@, n, jobs@[k].0);
            assert(jobs@[k].0 == jobs@[k].0);
            if forall|j: int| k < j < n ==> (#[trigger] jobs@[j]).0 != jobs@[k].0 {
                let o = choose|o: int|
                    0 <= o < n && (#[trigger] jobs@[o]).0 == jobs@[k].0 && extended(
                        before,
                        jobs@,
                        n,
                    ).queued[jobs@[k].0] == (QueuedState {
                        epoch: before.epoch as u64,
                        action: jobs@[o].3,
                    }) && forall|j: int| o < j < n ==> (#[trigger] jobs@[j]).0 != jobs@[k].0;
                if o < k {
                    assert(jobs@[k].0 != jobs@[k].0);
                }
            }
        }
    }
}

/// Whether a job of an image does an action and is not cancelled.
pub open spec fn does(running: Seq<Running>, id: JobId, action: Action) -> bool {
    exists|r: int|
        0 <= r < running.len() && (#[trigger] running[r]).id == id && running[r].action == action
            && !running[r].cancelled
}

proof fn lemma_does(running: Seq<Running>, id: JobId, action: Action)
    ensures
        runs_exactly(running, id, action) == does(running, id, action),
{
    if does(running, id, action) {
        let r = choose|r: int|
            0 <= r < running.len() && (#[trigger] running[r]).id == id && running[r].action
                == action && !running[r].cancelled;
        assert(running[r].id == id);
    }
    if runs_exactly(running, id, action) {
        let r = choose|r: int|
            0 <= r < running.len() && (#[trigger] running[r]).id == id && running[r].action
                == action && !running[r].cancelled;
        assert(running[r].id == id);
    }
}

/// Whether an earlier or the same entry of a list stands for the image of an entry
/// among some positions.
pub open spec fn is_stood_for(jobs: Seq<(JobId, Action)>, at: Seq<int>, i: int) -> bool {
    exists|k: int| 0 <= k < at.len() && #[trigger] at[k] <= i && jobs[at[k]].0 == jobs[i].0
}

proof fn lemma_urgent_at(running: Seq<Running>, jobs: Seq<(JobId, Action)>, n: int) -> (at: Seq<int>)
    requires
        0 <= n <= jobs.len(),
    ensures
        ({
            let lane = urgent_lane(running, jobs, n);
            &&& ascends(at, n)
            &&& at.len() == lane.len()
            &&& forall|k: int|
                0 <= k < at.len() ==> lane[k] == jobs[#[trigger] at[k]] && !does(
                    running,
                    jobs[at[k]].0,
                    jobs[at[k]].1,
                )
            &&& forall|j: int, k: int|
                0 <= j < k < at.len() ==> (#[trigger] lane[j]).0 != (#[trigger] lane[k]).0
            &&& forall|i: int|
                0 <= i < n && !does(running, jobs[i].0, jobs[i].1) ==> #[trigger] is_stood_for(
                    jobs,
                    at,
                    i,
                )
        }),
    decreases n,
{
    if n <= 0 {
        seq![]
    } else {
        let before = lemma_urgent_at(running, jobs, n - 1);
        let rest = urgent_lane(running, jobs, n - 1);
        let lane = urgent_lane(running, jobs, n);
        let (id, action) = jobs[n - 1];
        lemma_does(running, id, action);
        if runs_exactly(running, id, action) || crate::jobs::queue::in_lane(rest, id) {
            assert forall|i: int|
                0 <= i < n && !does(running, jobs[i].0, jobs[i].1) implies #[trigger] is_stood_for(
                jobs,
                before,
                i,
            ) by {
                if i == n - 1 {
                    let k = choose|k: int| 0 <= k < rest.len() && (#[trigger] rest[k]).0 == id;
                    assert(0 <= before[k] < n - 1);
                    assert(jobs[before[k]].0 == jobs[i].0);
                }
            }
            before
        } else {
            let at = before.push(n - 1);
            assert(at[before.len() as int] == n - 1);
            assert forall|k: int| 0 <= k < at.len() implies lane[k] == jobs[#[trigger] at[k]]
                && !does(running, jobs[at[k]].0, jobs[at[k]].1) by {
                if k < before.len() {
                    assert(at[k] == before[k]);
                    assert(lane[k] == rest[k]);
                }
            }
            assert forall|j: int, k: int| 0 <= j < k < at.len() implies (#[trigger] lane[j]).0 != (
            #[trigger] lane[k]).0 by {
                if k < before.len() {
                    assert(lane[j] == rest[j] && lane[k] == rest[k]);
                } else {
                    assert(lane[j] == rest[j]);
                }
            }
            assert forall|i: int|
                0 <= i < n && !does(running, jobs[i].0, jobs[i].1) implies #[trigger] is_stood_for(
                jobs,
                at,
                i,
            ) by {
                if i < n - 1 {
                    assert(is_stood_for(jobs, before, i));
                    let k = choose|k: int|
                        0 <= k < before.len() && #[trigger] before[k] <= i && jobs[before[k]].0
                            == jobs[i].0;
                    assert(at[k] == before[k]);
                } else {
                    assert(at[before.len() as int] <= i);
                }
            }
            at
        }
    }
}

/// Urgent demand replaces the urgent lane: the first demand of each image, in order,
/// without what a job already does. Nothing else changes, and a closed queue takes
/// none.
pub proof fn law_urgent_demand_replaces_the_lane(
    queue: &mut JobQueue,
    jobs: Vec<(JobId, Action)>,
    accepted: bool,
) -> (at: Seq<int>)
    requires
        old(queue).wf(),
        call_ensures(JobQueue::set_urgent, (queue, jobs), accepted),
    ensures
        ({
            let before = old(queue)@;
            let after = final(queue)@;
            &&& accepted <==> !before.closed
            &&& !accepted ==> after == before
            &&& after.heap == before.heap && after.queued == before.queued && after.running
                == before.running
            &&& after.background == before.background && after.background_claim
                == before.background_claim
            &&& after.deferred == before.deferred && after.failures == before.failures
            &&& after.background_initialized == before.background_initialized
            &&& after.epoch == before.epoch && after.seq == before.seq && after.generation
                == before.generation
            &&& after.closed == before.closed && after.parallel == before.parallel
            &&& accepted ==> {
                &&& ascends(at, jobs@.len() as int)
                &&& after.urgent == picked(jobs@, at)
                &&& forall|k: int|
                    0 <= k < at.len() ==> !does(
                        before.running,
                        jobs@[#[trigger] at[k]].0,
                        jobs@[at[k]].1,
                    )
                &&& forall|j: int, k: int|
                    0 <= j < k < at.len() ==> jobs@[#[trigger] at[j]].0 != jobs@[#[trigger] at[k]].0
                &&& forall|i: int|
                    0 <= i < jobs@.len() && !does(before.running, jobs@[i].0, jobs@[i].1)
                        ==> #[trigger] is_stood_for(jobs@, at, i)
            }
        }),
{
    let before = old(queue)@;
    let at = lemma_urgent_at(before.running, jobs@, jobs@.len() as int);
    let lane = urgent_lane(before.running, jobs@, jobs@.len() as int);
    assert(lane =~= picked(jobs@, at));
    assert forall|j: int, k: int| 0 <= j < k < at.len() implies jobs@[#[trigger] at[j]].0
        != jobs@[#[trigger] at[k]].0 by {
        assert(lane[j].0 != lane[k].0);
    }
    at
}

/// The background lane is installed once, behind what is there, and never in a closed
/// queue; nothing else changes.
pub proof fn law_background_is_installed_once(
    queue: &mut JobQueue,
    jobs: Vec<(JobId, Action)>,
    installed: bool,
)
    requires
        old(queue).wf(),
        call_ensures(JobQueue::initialize_background, (queue, jobs), installed),
    ensures
        ({
            let before = old(queue)@;
            let after = final(queue)@;
            &&& installed <==> !before.closed && !before.background_initialized
            &&& !installed ==> after == before
            &&& installed ==> after.background_initialized && after.background
                == before.background + jobs@
            &&& after.heap == before.heap && after.queued == before.queued && after.urgent
                == before.urgent && after.running == before.running
            &&& after.background_claim == before.background_claim && after.deferred
                == before.deferred && after.failures == before.failures
            &&& after.epoch == before.epoch && after.seq == before.seq && after.generation
                == before.generation
            &&& after.closed == before.closed && after.parallel == before.parallel
        }),
{
}

// ---------------------------------------------------------------------------
// Ending
// ---------------------------------------------------------------------------

/// Whether a running job is the one that a token was given for.
pub open spec fn is_of(job: Running, token: CancelToken) -> bool {
    job.id == token.id && job.generation == token.generation
}

/// Whether the job of a token runs and is not cancelled.
pub open spec fn is_alive(running: Seq<Running>, token: CancelToken) -> bool {
    exists|r: int| 0 <= r < running.len() && is_of(#[trigger] running[r], token)
        && !running[r].cancelled
}

proof fn lemma_alive(running: Seq<Running>, token: CancelToken)
    ensures
        owns_live(running, token.id, token.generation) == is_alive(running, token),
{
    if is_alive(running, token) {
        let r = choose|r: int|
            0 <= r < running.len() && is_of(#[trigger] running[r], token) && !running[r].cancelled;
        assert(running[r].id == token.id);
    }
    if owns_live(running, token.id, token.generation) {
        let r = choose|r: int|
            0 <= r < running.len() && (#[trigger] running[r]).id == token.id
                && running[r].generation == token.generation && !running[r].cancelled;
        assert(is_of(running[r], token));
    }
}

proof fn lemma_ended(running: Seq<Running>, token: CancelToken)
    requires
        runs_once(running),
    ensures
        ({
            let left = without_claim(running, token.id, token.generation);
            &&& (forall|r: int| 0 <= r < running.len() ==> !is_of(#[trigger] running[r], token))
                ==> left == running
            &&& forall|r: int|
                0 <= r < running.len() && is_of(#[trigger] running[r], token) ==> left
                    == running.remove(r)
        }),
    decreases running.len(),
{
    let left = without_claim(running, token.id, token.generation);
    if running.len() > 0 {
        let rest = running.drop_last();
        let last = running.last();
        assert(running[running.len() - 1] == last);
        assert(runs_once(rest)) by {
            assert forall|i: int, j: int| 0 <= i < j < rest.len() implies (#[trigger] rest[i]).id
                != (#[trigger] rest[j]).id by {
                assert(running[i].id != running[j].id);
            }
        }
        lemma_ended(rest, token);
        if is_of(last, token) {
            assert forall|r: int| 0 <= r < running.len() && is_of(
                #[trigger] running[r],
                token,
            ) implies left == running.remove(r) by {
                if r < running.len() - 1 {
                    assert(running[r].id != running[running.len() - 1].id);
                }
                assert(running.remove(r) =~= rest);
            }
        } else {
            if forall|r: int| 0 <= r < running.len() ==> !is_of(#[trigger] running[r], token) {
                assert forall|r: int| 0 <= r < rest.len() implies !is_of(
                    #[trigger] rest[r],
                    token,
                ) by {
                    assert(rest[r] == running[r]);
                }
                assert(left =~= running);
            }
            assert forall|r: int| 0 <= r < running.len() && is_of(
                #[trigger] running[r],
                token,
            ) implies left == running.remove(r) by {
                assert(rest[r] == running[r]);
                assert(is_of(rest[r], token));
                assert(left =~= running.remove(r));
            }
        }
    } else {
        assert(left =~= running);
    }
}

/// A job that ends leaves the running ones, if it is still among them, and may publish
/// exactly where it is and was not cancelled. Optional work counts as failed where it
/// says so while it may publish. The background job frees its lane; in an open queue
/// it goes back to the end of the lane where it is to be retried, and is parked for its
/// bytes where it was deferred. Any other job is done with.
pub proof fn law_ended_jobs_leave_what_they_owe(
    queue: &mut JobQueue,
    token: CancelToken,
    completion: JobCompletion,
    publication: bool,
    published: bool,
    r: int,
    id: JobId,
)
    requires
        old(queue).wf(),
        call_ensures(
            JobQueue::finish_with_publication,
            (queue, token, completion, publication),
            published,
        ),
    ensures
        ({
            let before = old(queue)@;
            let after = final(queue)@;
            let alive = is_alive(before.running, token);
            let background = before.background_claim matches Some(claim) && claim.id == token.id
                && claim.generation == token.generation;
            &&& published <==> publication && alive
            &&& 0 <= r < before.running.len() && is_of(before.running[r], token) ==> after.running
                == before.running.remove(r)
            &&& (forall|k: int|
                0 <= k < before.running.len() ==> !is_of(#[trigger] before.running[k], token))
                ==> after.running == before.running
            &&& after.failures.contains(id) <==> before.failures.contains(id) || (id == token.id
                && alive && completion == JobCompletion::SuppressSpeculative)
            &&& after.background_claim == if background {
                None
            } else {
                before.background_claim
            }
            &&& after.background == if background && !before.closed && completion
                == JobCompletion::RetryBackground {
                before.background.push((token.id, before.background_claim->0.action))
            } else {
                before.background
            }
            &&& (completion matches JobCompletion::DeferBackground { required_bytes } && background
                && !before.closed) ==> after.deferred == before.deferred.push(
                DeferredJob {
                    id: token.id,
                    action: before.background_claim->0.action,
                    required_bytes: completion->required_bytes,
                },
            )
            &&& !((completion is DeferBackground) && background && !before.closed)
                ==> after.deferred == before.deferred
            &&& after.heap == before.heap && after.queued == before.queued && after.urgent
                == before.urgent
            &&& after.background_initialized == before.background_initialized
            &&& after.epoch == before.epoch && after.seq == before.seq && after.generation
                == before.generation
            &&& after.closed == before.closed && after.parallel == before.parallel
        }),
{
    let before = old(queue)@;
    lemma_alive(before.running, token);
    assert(runs_once(before.running));
    lemma_ended(before.running, token);
}

/// Ending a job without a publication is ending it with one that is not offered, and a
/// job that just ends is complete.
pub proof fn law_plain_endings_publish_nothing(
    queue: &mut JobQueue,
    token: CancelToken,
    completion: JobCompletion,
    published: bool,
    silent: &mut JobQueue,
    plain: &mut JobQueue,
)
    requires
        old(queue).wf(),
        old(silent).wf(),
        old(plain).wf(),
        old(silent)@ == old(queue)@,
        old(plain)@ == old(queue)@,
        call_ensures(
            JobQueue::finish_with_publication,
            (queue, token, completion, false),
            published,
        ),
        call_ensures(JobQueue::finish_with, (silent, token, completion), ()),
        call_ensures(JobQueue::finish, (plain, token), ()),
    ensures
        !published,
        final(silent)@ == final(queue)@,
        completion == JobCompletion::Complete ==> final(plain)@ == final(queue)@,
{
}

/// Parked work is released one at a time, the oldest first, once the bytes that it
/// waits for are available; it goes to the end of the background lane. A closed queue
/// releases none.
pub proof fn law_parked_work_is_released_in_order(
    queue: &mut JobQueue,
    available: usize,
    done: bool,
)
    requires
        old(queue).wf(),
        call_ensures(JobQueue::release_one_deferred, (queue, available), done),
    ensures
        ({
            let before = old(queue)@;
            let after = final(queue)@;
            &&& done <==> !before.closed && before.deferred.len() > 0
                && before.deferred[0].required_bytes <= available
            &&& !done ==> after == before
            &&& done ==> {
                &&& after.background.len() == before.background.len() + 1
                &&& after.background.last() == (before.deferred[0].id, before.deferred[0].action)
                &&& forall|i: int|
                    0 <= i < before.background.len() ==> #[trigger] after.background[i]
                        == before.background[i]
                &&& after.deferred.len() == before.deferred.len() - 1
                &&& forall|i: int|
                    0 <= i < after.deferred.len() ==> #[trigger] after.deferred[i]
                        == before.deferred[i + 1]
            }
            &&& after.heap == before.heap && after.queued == before.queued && after.urgent
                == before.urgent && after.running == before.running
            &&& after.background_claim == before.background_claim && after.failures
                == before.failures && after.background_initialized == before.background_initialized
            &&& after.epoch == before.epoch && after.seq == before.seq && after.generation
                == before.generation
            &&& after.closed == before.closed && after.parallel == before.parallel
        }),
{
}

/// A shutdown cancels everything that runs and drops everything that waits.
pub proof fn law_shutdown_drops_everything(queue: &mut JobQueue, r: int, id: JobId)
    requires
        old(queue).wf(),
        call_ensures(JobQueue::close, (queue,), ()),
    ensures
        ({
            let before = old(queue)@;
            let after = final(queue)@;
            &&& after.closed
            &&& after.heap.len() == 0 && after.urgent.len() == 0 && after.background.len() == 0
                && after.deferred.len() == 0
            &&& !after.queued.contains_key(id)
            &&& after.background_claim is None
            &&& after.running.len() == before.running.len()
            &&& 0 <= r < before.running.len() ==> after.running[r].cancelled && after.running[r].id
                == before.running[r].id && after.running[r].action == before.running[r].action
                && after.running[r].generation == before.running[r].generation
        }),
{
}

/// Cancelling a token cancels the job that it was given for, if that still runs, and
/// no other. A token counts as cancelled exactly where its job does not run any more
/// or was cancelled; else the job may publish.
pub proof fn law_tokens_speak_for_their_job(
    token: CancelToken,
    queue: &mut JobQueue,
    r: int,
    held: &JobQueue,
    stale: bool,
    owner: bool,
)
    requires
        old(queue).wf(),
        call_ensures(CancelToken::cancel, (&token, queue), ()),
        held.wf(),
        call_ensures(CancelToken::cancelled, (&token, held), stale),
        call_ensures(JobQueue::owns_publication, (held, token), owner),
    ensures
        stale == !is_alive(held@.running, token),
        owner == is_alive(held@.running, token),
        final(queue)@.running.len() == old(queue)@.running.len(),
        0 <= r < old(queue)@.running.len() ==> {
            let was = old(queue)@.running[r];
            let is = final(queue)@.running[r];
            &&& is.id == was.id && is.action == was.action && is.generation == was.generation
            &&& is.cancelled <==> was.cancelled || is_of(was, token)
        },
        final(queue)@.heap == old(queue)@.heap,
        final(queue)@.queued == old(queue)@.queued,
        final(queue)@.urgent == old(queue)@.urgent,
        final(queue)@.background == old(queue)@.background,
        final(queue)@.background_claim == old(queue)@.background_claim,
        final(queue)@.deferred == old(queue)@.deferred,
        final(queue)@.failures == old(queue)@.failures,
        final(queue)@.closed == old(queue)@.closed,
{
    lemma_alive(held@.running, token);
    let running = old(queue)@.running;
    if 0 <= r < running.len() {
        if is_of(running[r], token) {
            assert(owns(running, token.id, token.generation));
        } else if owns(running, token.id, token.generation) {
            let k = choose|k: int|
                0 <= k < running.len() && (#[trigger] running[k]).id == token.id
                    && running[k].generation == token.generation;
            if running[r].id == token.id {
                if k < r {
                    assert(running[k].id != running[r].id);
                } else if r < k {
                    assert(running[r].id != running[k].id);
                }
            }
        }
    }
}

/// What a queue tells of itself, and how it starts: open and without jobs.
pub proof fn law_queues_tell_what_they_hold(
    parallel: bool,
    fresh: JobQueue,
    made: JobQueue,
    queue: &JobQueue,
    jobs: usize,
    room: bool,
    heap: usize,
    idle: bool,
    urgent: usize,
    running: usize,
    background: usize,
    parked: usize,
    busy: bool,
    closed: bool,
    installed: bool,
    id: JobId,
)
    requires
        call_ensures(JobQueue::new, (), fresh),
        call_ensures(JobQueue::new_with_parallel_background_lanes, (parallel,), made),
        queue.wf(),
        call_ensures(JobQueue::has_room, (queue, jobs), room),
        call_ensures(JobQueue::resident_jobs, (queue,), heap),
        call_ensures(JobQueue::queued_is_empty, (queue,), idle),
        call_ensures(JobQueue::urgent_len, (queue,), urgent),
        call_ensures(JobQueue::in_flight_len, (queue,), running),
        call_ensures(JobQueue::background_len, (queue,), background),
        call_ensures(JobQueue::deferred_len, (queue,), parked),
        call_ensures(JobQueue::background_is_running, (queue,), busy),
        call_ensures(JobQueue::is_closed, (queue,), closed),
        call_ensures(JobQueue::background_initialized, (queue,), installed),
    ensures
        fresh@.parallel && made@.parallel == parallel,
        ({
            let empty = made@;
            &&& empty.heap.len() == 0 && empty.urgent.len() == 0 && empty.running.len() == 0
            &&& empty.background.len() == 0 && empty.deferred.len() == 0
            &&& empty.background_claim is None && !empty.background_initialized && !empty.closed
            &&& !empty.queued.contains_key(id) && !empty.failures.contains(id)
            &&& empty.epoch == 0 && empty.seq == 0 && empty.generation == 0
        }),
        parallel ==> fresh@ == made@,
        room <==> queue@.seq + jobs <= u64::MAX && queue@.epoch < u64::MAX && queue@.generation
            < u64::MAX,
        heap == queue@.heap.len(),
        idle ==> !queue@.queued.contains_key(id),
        queue@.queued.contains_key(id) ==> !idle,
        urgent == queue@.urgent.len(),
        running == queue@.running.len(),
        background == queue@.background.len(),
        parked == queue@.deferred.len(),
        busy <==> queue@.background_claim is Some,
        closed == queue@.closed,
        installed == queue@.background_initialized,
{
}

/// A running action is compatible with another one exactly where it serves it, and only
/// optional Full work is speculative.
pub proof fn law_only_full_prefetch_serves_other_work(
    running: Action,
    asked: Action,
    compatible: bool,
    speculative: bool,
)
    requires
        call_ensures(Action::compatible_with, (running, asked), compatible),
        call_ensures(Action::is_speculative_full, (running,), speculative),
    ensures
        compatible <==> serves(running, asked),
        speculative <==> running == Action::PrefetchFull,
{
}

} // verus!
