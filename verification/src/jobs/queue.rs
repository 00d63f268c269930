//! The job queue: replaceable interactive plans, an urgent lane, a persistent
//! background lane, and cooperative cancellation of claimed work.
//!
//! The queue is a plain value. A caller that shares it between threads guards
//! it with a lock and wakes its workers after each change.

use std::collections::VecDeque;

use vstd::prelude::*;

use crate::jobs::ids::{same_id, IdMap, JobId};
use crate::types::Tier;

verus! {

/// Development quality of a RAW render.
#[derive(Debug, Clone, Copy, PartialEq, Eq, Structural)]
pub enum Quality {
    /// Half-resolution development for browsing.
    Browse,
    /// Full-resolution development.
    Full,
}

/// What a worker does for a claimed identity.
#[derive(Debug, Clone, Copy, PartialEq, Eq, Structural)]
pub enum Action {
    /// Scan container metadata.
    Metadata,
    /// Decode the embedded thumbnail.
    Thumb,
    /// Develop for display.
    Develop(Quality),
    /// Populate only the adaptive Full RGBA working set. Existing RAM/disk
    /// JPEGs may be rehydrated, but a RAW miss is not encoded or persisted.
    PrefetchFull,
    /// Persist a resident Full buffer after it becomes required display work.
    PersistResident,
    /// Develop only to fill the encoded ring and disk: no decoded pixels are
    /// installed and no event is sent, which keeps far images from thrashing
    /// the decoded ring.
    WarmDevelop(Quality),
    /// Decode an encoded cache object.
    Rehydrate,
}

impl Action {
    /// Whether a running job of this action satisfies a request.
    pub open spec fn satisfies(self, requested: Action) -> bool {
        ||| self == requested
        ||| self == Action::PrefetchFull && (requested == Action::Develop(Quality::Full)
            || requested == Action::Rehydrate)
    }

    /// Returns whether a running job of this action satisfies a request.
    pub fn compatible_with(self, requested: Action) -> (compatible: bool)
        ensures
            compatible == self.satisfies(requested),
    {
        self == requested || (self == Action::PrefetchFull && (requested == Action::Develop(
            Quality::Full,
        ) || requested == Action::Rehydrate))
    }

    /// Returns whether this is optional Full-resolution work.
    pub fn is_speculative_full(self) -> (speculative: bool)
        ensures
            speculative == (self == Action::PrefetchFull),
    {
        self == Action::PrefetchFull
    }
}

/// One wanted job: identity, priority class, effective distance and action.
pub type PlannedJob = (JobId, u8, u32, Action);

/// Priority of a queued job; smaller priorities run first.
#[derive(Debug, Clone, Copy, PartialEq, Eq, Structural)]
pub struct Prio {
    /// Coarse class.
    pub class: u8,
    /// Direction-weighted distance within the class.
    pub eff_dist: u32,
    /// Arrival number, which keeps equal priorities in arrival order.
    pub seq: u64,
}

impl Prio {
    /// Whether `self` runs before `other`.
    pub open spec fn before(self, other: Prio) -> bool {
        ||| self.class < other.class
        ||| self.class == other.class && self.eff_dist < other.eff_dist
        ||| self.class == other.class && self.eff_dist == other.eff_dist && self.seq < other.seq
    }

    fn precedes(self, other: Prio) -> (first: bool)
        ensures
            first == self.before(other),
    {
        self.class < other.class || (self.class == other.class && (self.eff_dist < other.eff_dist
            || (self.eff_dist == other.eff_dist && self.seq < other.seq)))
    }
}

/// A heap entry. It is inert once its epoch no longer matches the live one of
/// its identity.
#[derive(Debug, Clone, Copy, PartialEq, Eq)]
pub struct QueuedJob {
    pub prio: Prio,
    pub epoch: u64,
    pub id: JobId,
    pub action: Action,
}

/// The live heap entry of an identity.
#[derive(Debug, Clone, Copy, PartialEq, Eq, Structural)]
pub struct QueuedState {
    pub epoch: u64,
    pub action: Action,
}

/// A claimed job that has not finished.
#[derive(Debug, Clone, Copy, PartialEq, Eq)]
pub struct Running {
    pub id: JobId,
    pub action: Action,
    /// Number of the claim, never reused.
    pub generation: u64,
    /// Whether cancellation was requested. It suppresses stale publication and
    /// is checked between expensive stages; it cannot interrupt a decode that
    /// is already executing.
    pub cancelled: bool,
}

/// What a worker holds for the job it claimed.
#[derive(Debug, Clone, Copy, PartialEq, Eq)]
pub struct Claim {
    pub id: JobId,
    pub action: Action,
    pub generation: u64,
}

impl Claim {
    /// The cancellation token of the claim.
    pub open spec fn token(self) -> CancelToken {
        CancelToken { id: self.id, generation: self.generation }
    }
}

/// Cooperative cancellation handle shared between a queue and one worker.
///
/// Cancellation suppresses stale publication and is checked between expensive
/// pipeline stages. It cannot interrupt a decode or demosaic that is already
/// executing.
#[derive(Debug, Clone, Copy, PartialEq, Eq)]
pub struct CancelToken {
    pub id: JobId,
    pub generation: u64,
}

/// How a claimed job ended.
#[derive(Debug, Clone, Copy, PartialEq, Eq, Structural)]
pub enum JobCompletion {
    /// The background obligation was either satisfied or made best-effort by
    /// an accepted persistence request.
    Complete,
    /// Cancellation stopped the job before it produced or handed off pixels.
    RetryBackground,
    /// The bounded persistence lane could not accept completed pixels. Park
    /// the job until that lane next frees capacity instead of immediately
    /// developing the RAW again.
    DeferBackground {
        /// Bytes the lane has to free first.
        required_bytes: usize,
    },
    /// A live optional Full attempt produced no resident pixels. Suppress the
    /// same speculative target until navigation changes or foreground demand
    /// explicitly promotes it.
    SuppressSpeculative,
}

/// Warm work that waits for persistence capacity.
#[derive(Debug, Clone, Copy, PartialEq, Eq)]
pub struct DeferredJob {
    pub id: JobId,
    pub action: Action,
    pub required_bytes: usize,
}

/// Everything a [`JobQueue`] holds.
#[verifier::ext_equal]
pub struct QueueModel {
    /// Interactive jobs in arrival order, inert entries included.
    pub heap: Seq<QueuedJob>,
    /// The live entry of each queued identity.
    pub queued: Map<JobId, QueuedState>,
    /// Replaceable lane that is consumed before the heap.
    pub urgent: Seq<(JobId, Action)>,
    /// Claimed jobs in claim order.
    pub running: Seq<Running>,
    /// Folder-wide work that survives navigation replans and is consumed only
    /// when no interactive job can run.
    pub background: Seq<(JobId, Action)>,
    /// The running job that was claimed from the background lane.
    pub background_claim: Option<Claim>,
    /// Warm work rejected by the persistence lane, oldest first.
    pub deferred: Seq<DeferredJob>,
    /// Whether the background lane was installed.
    pub background_initialized: bool,
    /// Optional Full targets that failed during this navigation wave.
    pub failures: Set<JobId>,
    /// Number of plans installed.
    pub epoch: int,
    /// Number of jobs queued.
    pub seq: int,
    /// Number of jobs claimed.
    pub generation: int,
    /// Whether the queue was shut down.
    pub closed: bool,
    /// Whether background and speculative work may run side by side.
    pub parallel: bool,
}

// ---------------------------------------------------------------------------
// Running jobs
// ---------------------------------------------------------------------------

/// Whether a job of an identity is running.
pub open spec fn is_running(running: Seq<Running>, id: JobId) -> bool {
    exists|i: int| 0 <= i < running.len() && (#[trigger] running[i]).id == id
}

/// Whether a job of an identity is running the same action uncancelled.
pub open spec fn runs_exactly(running: Seq<Running>, id: JobId, action: Action) -> bool {
    exists|i: int|
        0 <= i < running.len() && (#[trigger] running[i]).id == id && running[i].action == action
            && !running[i].cancelled
}

/// Whether a job of an identity is running, uncancelled, an action that
/// satisfies the requested one.
pub open spec fn runs_compatibly(running: Seq<Running>, id: JobId, action: Action) -> bool {
    exists|i: int|
        0 <= i < running.len() && (#[trigger] running[i]).id == id && running[i].action.satisfies(
            action,
        ) && !running[i].cancelled
}

/// Whether a claim is still the running job of its identity.
pub open spec fn owns(running: Seq<Running>, id: JobId, generation: u64) -> bool {
    exists|i: int|
        0 <= i < running.len() && (#[trigger] running[i]).id == id && running[i].generation
            == generation
}

/// Whether a claim is still the running job of its identity and was not
/// cancelled.
pub open spec fn owns_live(running: Seq<Running>, id: JobId, generation: u64) -> bool {
    exists|i: int|
        0 <= i < running.len() && (#[trigger] running[i]).id == id && running[i].generation
            == generation && !running[i].cancelled
}

/// Whether cancellation was requested of the running job that a claim owns.
pub open spec fn is_cancelled(running: Seq<Running>, id: JobId, generation: u64) -> bool {
    exists|i: int|
        0 <= i < running.len() && (#[trigger] running[i]).id == id && running[i].generation
            == generation && running[i].cancelled
}

/// A running job with cancellation requested.
pub open spec fn cancelled(job: Running) -> Running {
    Running { cancelled: true, ..job }
}

/// The running jobs with the one of an identity cancelled.
pub open spec fn cancel_id(running: Seq<Running>, id: JobId) -> Seq<Running> {
    Seq::new(
        running.len(),
        |i: int|
            if running[i].id == id {
                cancelled(running[i])
            } else {
                running[i]
            },
    )
}

/// The running jobs with all of them cancelled.
pub open spec fn cancel_all(running: Seq<Running>) -> Seq<Running> {
    Seq::new(running.len(), |i: int| cancelled(running[i]))
}

/// The running jobs without the one that a claim owns.
pub open spec fn without_claim(running: Seq<Running>, id: JobId, generation: u64) -> Seq<Running>
    decreases running.len(),
{
    if running.len() == 0 {
        running
    } else if running.last().id == id && running.last().generation == generation {
        running.drop_last()
    } else {
        without_claim(running.drop_last(), id, generation).push(running.last())
    }
}

// ---------------------------------------------------------------------------
// Replacing the plan
// ---------------------------------------------------------------------------

/// Whether one of the first `n` planned jobs is required work for an identity.
pub open spec fn requires_id(plan: Seq<PlannedJob>, n: int, id: JobId) -> bool {
    exists|i: int|
        0 <= i < n && (#[trigger] plan[i]).0 == id && plan[i].3 != Action::PrefetchFull
}

/// The optional failures that a plan leaves in force. A navigation change
/// forgets them all; required demand forgets its own.
pub open spec fn failures_after(m: QueueModel, plan: Seq<PlannedJob>, changed: bool) -> Set<JobId> {
    if changed {
        Set::empty()
    } else {
        Set::new(
            |id: JobId| m.failures.contains(id) && !requires_id(plan, plan.len() as int, id),
        )
    }
}

/// The first `n` planned jobs without the optional ones that failed.
pub open spec fn retained(plan: Seq<PlannedJob>, failures: Set<JobId>, n: int) -> Seq<PlannedJob>
    decreases n,
{
    if n <= 0 {
        seq![]
    } else {
        let rest = retained(plan, failures, n - 1);
        let job = plan[n - 1];
        if job.3 == Action::PrefetchFull && failures.contains(job.0) {
            rest
        } else {
            rest.push(job)
        }
    }
}

/// What the first `n` planned jobs want of each identity.
pub open spec fn wanted(plan: Seq<PlannedJob>, epoch: u64, n: int) -> Map<JobId, QueuedState>
    decreases n,
{
    if n <= 0 {
        Map::empty()
    } else {
        wanted(plan, epoch, n - 1).insert(
            plan[n - 1].0,
            QueuedState { epoch, action: plan[n - 1].3 },
        )
    }
}

/// Whether a running job was claimed from the background lane.
pub open spec fn is_background(background: Option<Claim>, job: Running) -> bool {
    background matches Some(claim) && claim.id == job.id && claim.generation == job.generation
}

/// Whether a new plan cancels a running job. Interactive work stops unless the
/// plan still wants it; background work stops when the plan wants something
/// else of its identity, or when a navigation change needs its worker.
pub open spec fn displaced(
    background: Option<Claim>,
    want: Map<JobId, QueuedState>,
    preempt: bool,
    job: Running,
) -> bool {
    let satisfied = want.contains_key(job.id) && job.action.satisfies(want[job.id].action);
    if is_background(background, job) {
        preempt || (want.contains_key(job.id) && !satisfied)
    } else {
        !satisfied
    }
}

/// The running jobs after a new plan was installed.
pub open spec fn displace(
    running: Seq<Running>,
    background: Option<Claim>,
    want: Map<JobId, QueuedState>,
    preempt: bool,
) -> Seq<Running> {
    Seq::new(
        running.len(),
        |i: int|
            if displaced(background, want, preempt, running[i]) {
                cancelled(running[i])
            } else {
                running[i]
            },
    )
}

/// Heap, live entries and arrival counter while a plan is being queued.
#[verifier::ext_equal]
pub struct Admission {
    pub heap: Seq<QueuedJob>,
    pub queued: Map<JobId, QueuedState>,
    pub seq: int,
}

/// Queues the first `n` planned jobs. A job whose identity is already running a
/// live compatible action is not queued again.
pub open spec fn enqueue_plan(
    plan: Seq<PlannedJob>,
    running: Seq<Running>,
    want: Map<JobId, QueuedState>,
    epoch: u64,
    seq: int,
    n: int,
) -> Admission
    decreases n,
{
    if n <= 0 {
        Admission { heap: seq![], queued: want, seq }
    } else {
        let rest = enqueue_plan(plan, running, want, epoch, seq, n - 1);
        let (id, class, eff_dist, action) = plan[n - 1];
        if runs_compatibly(running, id, action) {
            Admission { queued: rest.queued.remove(id), ..rest }
        } else {
            Admission {
                heap: rest.heap.push(
                    QueuedJob {
                        prio: Prio { class, eff_dist, seq: (rest.seq + 1) as u64 },
                        epoch,
                        id,
                        action,
                    },
                ),
                seq: rest.seq + 1,
                ..rest
            }
        }
    }
}

/// The queue after its interactive job set was replaced.
pub open spec fn planned(m: QueueModel, plan: Seq<PlannedJob>, changed: bool) -> QueueModel {
    if m.closed {
        m
    } else {
        let failures = failures_after(m, plan, changed);
        let kept = if changed {
            plan
        } else {
            retained(plan, failures, plan.len() as int)
        };
        let epoch = (m.epoch + 1) as u64;
        let want = wanted(kept, epoch, kept.len() as int);
        let running = displace(
            m.running,
            m.background_claim,
            want,
            changed && kept.len() > 0,
        );
        let admitted = enqueue_plan(kept, running, want, epoch, m.seq, kept.len() as int);
        QueueModel {
            heap: admitted.heap,
            queued: admitted.queued,
            running,
            failures,
            epoch: m.epoch + 1,
            seq: admitted.seq,
            ..m
        }
    }
}

// ---------------------------------------------------------------------------
// The other producers
// ---------------------------------------------------------------------------

/// The queue after the first `n` jobs were appended to the current plan.
pub open spec fn extended(m: QueueModel, jobs: Seq<PlannedJob>, n: int) -> QueueModel
    decreases n,
{
    if m.closed || n <= 0 {
        m
    } else {
        let rest = extended(m, jobs, n - 1);
        let (id, class, eff_dist, action) = jobs[n - 1];
        let epoch = m.epoch as u64;
        QueueModel {
            heap: rest.heap.push(
                QueuedJob {
                    prio: Prio { class, eff_dist, seq: (rest.seq + 1) as u64 },
                    epoch,
                    id,
                    action,
                },
            ),
            queued: rest.queued.insert(id, QueuedState { epoch, action }),
            seq: rest.seq + 1,
            ..rest
        }
    }
}

/// Whether an identity occurs in a lane.
pub open spec fn in_lane(lane: Seq<(JobId, Action)>, id: JobId) -> bool {
    exists|i: int| 0 <= i < lane.len() && (#[trigger] lane[i]).0 == id
}

/// The urgent lane of the first `n` demanded jobs: the first demand of each
/// identity, without what is already running live.
pub open spec fn urgent_lane(running: Seq<Running>, jobs: Seq<(JobId, Action)>, n: int) -> Seq<
    (JobId, Action),
>
    decreases n,
{
    if n <= 0 {
        seq![]
    } else {
        let rest = urgent_lane(running, jobs, n - 1);
        let (id, action) = jobs[n - 1];
        if runs_exactly(running, id, action) || in_lane(rest, id) {
            rest
        } else {
            rest.push((id, action))
        }
    }
}

// ---------------------------------------------------------------------------
// Claiming
// ---------------------------------------------------------------------------

/// What became of a lane and of the running jobs when a claim looked at it.
#[verifier::ext_equal]
pub struct LaneOutcome {
    pub claimed: Option<(JobId, Action)>,
    pub lane: Seq<(JobId, Action)>,
    pub running: Seq<Running>,
}

/// Looks for an urgent job. Demand that is already running live is dropped.
/// Demand for an identity that still runs something else cancels that
/// generation and waits behind the rest, so one file is never decoded by two
/// workers at once.
pub open spec fn urgent_outcome(
    lane: Seq<(JobId, Action)>,
    kept: Seq<(JobId, Action)>,
    running: Seq<Running>,
) -> LaneOutcome
    decreases lane.len(),
{
    if lane.len() == 0 {
        LaneOutcome { claimed: None, lane: kept, running }
    } else {
        let (id, action) = lane[0];
        let rest = lane.skip(1);
        if !is_running(running, id) {
            LaneOutcome { claimed: Some((id, action)), lane: rest + kept, running }
        } else if runs_exactly(running, id, action) {
            urgent_outcome(rest, kept, running)
        } else {
            urgent_outcome(rest, kept.push((id, action)), cancel_id(running, id))
        }
    }
}

/// Looks for a background job whose identity is not running; the others move
/// behind the rest.
pub open spec fn background_outcome(
    lane: Seq<(JobId, Action)>,
    kept: Seq<(JobId, Action)>,
    running: Seq<Running>,
) -> LaneOutcome
    decreases lane.len(),
{
    if lane.len() == 0 {
        LaneOutcome { claimed: None, lane: kept, running }
    } else {
        let rest = lane.skip(1);
        if is_running(running, lane[0].0) {
            background_outcome(rest, kept.push(lane[0]), running)
        } else {
            LaneOutcome { claimed: Some(lane[0]), lane: rest + kept, running }
        }
    }
}

/// Whether optional Full work, or a cancelled Full job that has not ended yet,
/// occupies a worker.
pub open spec fn speculative_active(running: Seq<Running>) -> bool {
    exists|i: int|
        0 <= i < running.len() && ((#[trigger] running[i]).action == Action::PrefetchFull || (
        running[i].id.1 == Tier::Full && running[i].cancelled))
}

/// Whether a heap entry is the live one of its identity.
pub open spec fn is_live(queued: Map<JobId, QueuedState>, job: QueuedJob) -> bool {
    queued.contains_key(job.id) && queued[job.id].epoch == job.epoch
}

/// Whether a heap entry may be claimed now.
pub open spec fn runnable(m: QueueModel, job: QueuedJob) -> bool {
    &&& is_live(m.queued, job)
    &&& !is_running(m.running, job.id)
    &&& job.action == Action::PrefetchFull ==> !speculative_active(m.running) && (m.parallel
        || m.background_claim is None)
}

/// The first of the first `n` heap entries that is runnable and that no other
/// runnable one precedes.
pub open spec fn best_runnable(m: QueueModel, n: int) -> Option<int>
    decreases n,
{
    if n <= 0 {
        None
    } else {
        let rest = best_runnable(m, n - 1);
        let job = m.heap[n - 1];
        if runnable(m, job) && (rest matches Some(best) ==> job.prio.before(m.heap[best].prio)) {
            Some(n - 1)
        } else {
            rest
        }
    }
}

/// The first `n` heap entries after a claim looked at them: the claimed entry
/// is gone, and so are the inert ones that came before it.
pub open spec fn heap_after(m: QueueModel, chosen: Option<int>, n: int) -> Seq<QueuedJob>
    decreases n,
{
    if n <= 0 {
        seq![]
    } else {
        let rest = heap_after(m, chosen, n - 1);
        let job = m.heap[n - 1];
        let kept = match chosen {
            Some(best) => n - 1 != best && (is_live(m.queued, job) || m.heap[best].prio.before(
                job.prio,
            )),
            None => is_live(m.queued, job),
        };
        if kept {
            rest.push(job)
        } else {
            rest
        }
    }
}

/// A queue after a claim, and the claim.
#[verifier::ext_equal]
pub struct ClaimOutcome {
    pub model: QueueModel,
    pub claim: Option<Claim>,
}

/// The claim that a queue makes next for an identity.
pub open spec fn next_claim(m: QueueModel, id: JobId, action: Action) -> Claim {
    Claim { id, action, generation: (m.generation + 1) as u64 }
}

/// The queue after it claimed an identity.
pub open spec fn claimed(m: QueueModel, id: JobId, action: Action) -> QueueModel {
    QueueModel {
        running: m.running.push(
            Running {
                id,
                action,
                generation: (m.generation + 1) as u64,
                cancelled: false,
            },
        ),
        generation: m.generation + 1,
        ..m
    }
}

/// Claims from the background lane, which owns at most one worker.
pub open spec fn claim_background(m: QueueModel) -> ClaimOutcome {
    if m.background_claim is Some || (!m.parallel && speculative_active(m.running)) {
        ClaimOutcome { model: m, claim: None }
    } else {
        let outcome = background_outcome(m.background, seq![], m.running);
        let looked = QueueModel { background: outcome.lane, ..m };
        match outcome.claimed {
            Some((id, action)) => ClaimOutcome {
                model: QueueModel {
                    background_claim: Some(next_claim(m, id, action)),
                    ..claimed(looked, id, action)
                },
                claim: Some(next_claim(m, id, action)),
            },
            None => ClaimOutcome { model: looked, claim: None },
        }
    }
}

/// Claims from the heap, or from the background lane where nothing in the heap
/// can run.
pub open spec fn claim_queued(m: QueueModel) -> ClaimOutcome {
    let chosen = best_runnable(m, m.heap.len() as int);
    let looked = QueueModel { heap: heap_after(m, chosen, m.heap.len() as int), ..m };
    match chosen {
        Some(best) => {
            let job = m.heap[best];
            ClaimOutcome {
                model: claimed(
                    QueueModel { queued: m.queued.remove(job.id), ..looked },
                    job.id,
                    job.action,
                ),
                claim: Some(next_claim(m, job.id, job.action)),
            }
        },
        None => claim_background(looked),
    }
}

/// Claims the highest-priority runnable job: urgent demand, then the heap, then
/// the background lane.
pub open spec fn claim_next(m: QueueModel) -> ClaimOutcome {
    if m.closed {
        ClaimOutcome { model: m, claim: None }
    } else {
        let outcome = urgent_outcome(m.urgent, seq![], m.running);
        let looked = QueueModel { urgent: outcome.lane, running: outcome.running, ..m };
        match outcome.claimed {
            Some((id, action)) => ClaimOutcome {
                model: claimed(
                    QueueModel { queued: m.queued.remove(id), ..looked },
                    id,
                    action,
                ),
                claim: Some(next_claim(m, id, action)),
            },
            None => claim_queued(looked),
        }
    }
}

// ---------------------------------------------------------------------------
// Finishing
// ---------------------------------------------------------------------------

/// The queue after a claim ended.
pub open spec fn finished(m: QueueModel, token: CancelToken, completion: JobCompletion) -> QueueModel {
    let background = m.background_claim matches Some(owner) && owner.id == token.id
        && owner.generation == token.generation;
    let action = m.background_claim->0.action;
    QueueModel {
        failures: if completion == JobCompletion::SuppressSpeculative && owns_live(
            m.running,
            token.id,
            token.generation,
        ) {
            m.failures.insert(token.id)
        } else {
            m.failures
        },
        background_claim: if background {
            None
        } else {
            m.background_claim
        },
        background: if background && !m.closed && completion == JobCompletion::RetryBackground {
            m.background.push((token.id, action))
        } else {
            m.background
        },
        deferred: match completion {
            JobCompletion::DeferBackground { required_bytes } => if background && !m.closed {
                m.deferred.push(DeferredJob { id: token.id, action, required_bytes })
            } else {
                m.deferred
            },
            _ => m.deferred,
        },
        running: without_claim(m.running, token.id, token.generation),
        ..m
    }
}

/// Whether parked warm work may be released into `available` bytes.
pub open spec fn releasable(m: QueueModel, available: usize) -> bool {
    !m.closed && m.deferred.len() > 0 && m.deferred[0].required_bytes <= available
}

/// The queue after the oldest parked warm job was released, if it fits.
pub open spec fn released(m: QueueModel, available: usize) -> QueueModel {
    if releasable(m, available) {
        QueueModel {
            background: m.background.push((m.deferred[0].id, m.deferred[0].action)),
            deferred: m.deferred.skip(1),
            ..m
        }
    } else {
        m
    }
}

/// The queue after shutdown.
pub open spec fn closed(m: QueueModel) -> QueueModel {
    QueueModel {
        closed: true,
        heap: seq![],
        queued: Map::empty(),
        urgent: seq![],
        background: seq![],
        deferred: seq![],
        running: cancel_all(m.running),
        background_claim: None,
        ..m
    }
}

// ---------------------------------------------------------------------------
// Invariant
// ---------------------------------------------------------------------------

/// What holds of every queue: an identity runs at most once, claims and queued
/// jobs carry numbers that were never reused, the background claim is a running
/// job, and a closed queue offers nothing.
pub open spec fn consistent(m: QueueModel) -> bool {
    &&& 0 <= m.epoch <= u64::MAX
    &&& 0 <= m.seq <= u64::MAX
    &&& 0 <= m.generation <= u64::MAX
    &&& forall|i: int, j: int|
        0 <= i < j < m.running.len() ==> (#[trigger] m.running[i]).id != (
        #[trigger] m.running[j]).id && m.running[i].generation < m.running[j].generation
    &&& forall|i: int|
        0 <= i < m.running.len() ==> (#[trigger] m.running[i]).generation <= m.generation
    &&& forall|i: int, j: int|
        0 <= i < j < m.heap.len() ==> (#[trigger] m.heap[i]).prio.seq < (
        #[trigger] m.heap[j]).prio.seq
    &&& forall|i: int| 0 <= i < m.heap.len() ==> (#[trigger] m.heap[i]).prio.seq <= m.seq
    &&& m.background_claim matches Some(claim) ==> exists|i: int|
        0 <= i < m.running.len() && (#[trigger] m.running[i]).id == claim.id
            && m.running[i].generation == claim.generation && m.running[i].action == claim.action
    &&& m.closed ==> m.heap.len() == 0 && m.queued == Map::<JobId, QueuedState>::empty()
        && m.urgent.len() == 0 && m.background.len() == 0 && m.deferred.len() == 0
        && m.background_claim is None && forall|i: int|
        0 <= i < m.running.len() ==> (#[trigger] m.running[i]).cancelled
}

/// A priority queue of image jobs.
pub struct JobQueue {
    heap: Vec<QueuedJob>,
    queued: IdMap<QueuedState>,
    urgent: VecDeque<(JobId, Action)>,
    in_flight: Vec<Running>,
    background: VecDeque<(JobId, Action)>,
    background_in_flight: Option<Claim>,
    background_deferred: VecDeque<DeferredJob>,
    background_initialized: bool,
    speculative_failures: IdMap<()>,
    epoch: u64,
    seq: u64,
    generation: u64,
    closed: bool,
    parallel_background_lanes: bool,
}

impl View for JobQueue {
    type V = QueueModel;

    closed spec fn view(&self) -> QueueModel {
        QueueModel {
            heap: self.heap@,
            queued: self.queued@,
            urgent: self.urgent@,
            running: self.in_flight@,
            background: self.background@,
            background_claim: self.background_in_flight,
            deferred: self.background_deferred@,
            background_initialized: self.background_initialized,
            failures: self.speculative_failures@.dom(),
            epoch: self.epoch as int,
            seq: self.seq as int,
            generation: self.generation as int,
            closed: self.closed,
            parallel: self.parallel_background_lanes,
        }
    }
}

/// An open queue without jobs.
pub open spec fn empty_queue(parallel: bool) -> QueueModel {
    QueueModel {
        heap: seq![],
        queued: Map::empty(),
        urgent: seq![],
        running: seq![],
        background: seq![],
        background_claim: None,
        deferred: seq![],
        background_initialized: false,
        failures: Set::empty(),
        epoch: 0,
        seq: 0,
        generation: 0,
        closed: false,
        parallel,
    }
}

impl JobQueue {
    /// Whether the identity tables of the queue are sound.
    pub closed spec fn tables_wf(&self) -> bool {
        self.queued.wf() && self.speculative_failures.wf()
    }

    /// Whether the queue is consistent.
    pub open spec fn wf(&self) -> bool {
        consistent(self@) && self.tables_wf()
    }

    /// Creates an open queue whose background and speculative work may run side
    /// by side.
    pub fn new() -> (queue: Self)
        ensures
            queue.wf(),
            queue@ == empty_queue(true),
    {
        Self::new_with_parallel_background_lanes(true)
    }

    /// Creates an open queue. Without parallel background lanes at most one of
    /// background and speculative work runs at a time.
    pub fn new_with_parallel_background_lanes(parallel_background_lanes: bool) -> (queue: Self)
        ensures
            queue.wf(),
            queue@ == empty_queue(parallel_background_lanes),
    {
        let queue = JobQueue {
            heap: Vec::new(),
            queued: IdMap::new(),
            urgent: VecDeque::new(),
            in_flight: Vec::new(),
            background: VecDeque::new(),
            background_in_flight: None,
            background_deferred: VecDeque::new(),
            background_initialized: false,
            speculative_failures: IdMap::new(),
            epoch: 0,
            seq: 0,
            generation: 0,
            closed: false,
            parallel_background_lanes,
        };
        assert(queue@ =~= empty_queue(parallel_background_lanes));
        queue
    }
}

// ---------------------------------------------------------------------------
// Preservation
// ---------------------------------------------------------------------------

/// Whether the counters can number `jobs` more queued jobs and one more plan.
pub open spec fn has_room(m: QueueModel, jobs: int) -> bool {
    m.seq + jobs <= u64::MAX && m.epoch < u64::MAX
}

/// Whether two lists of running jobs differ in nothing but cancellation, which
/// is never withdrawn.
pub open spec fn same_jobs(before: Seq<Running>, after: Seq<Running>) -> bool {
    &&& before.len() == after.len()
    &&& forall|i: int|
        0 <= i < after.len() ==> (#[trigger] after[i]).id == before[i].id && after[i].action
            == before[i].action && after[i].generation == before[i].generation && (
        before[i].cancelled ==> after[i].cancelled)
}

proof fn lemma_enqueued(
    plan: Seq<PlannedJob>,
    running: Seq<Running>,
    want: Map<JobId, QueuedState>,
    epoch: u64,
    seq: int,
    n: int,
)
    requires
        0 <= n <= plan.len(),
        0 <= seq,
        seq + n <= u64::MAX,
    ensures
        ({
            let a = enqueue_plan(plan, running, want, epoch, seq, n);
            &&& seq <= a.seq <= seq + n
            &&& forall|i: int, j: int|
                0 <= i < j < a.heap.len() ==> (#[trigger] a.heap[i]).prio.seq < (
                #[trigger] a.heap[j]).prio.seq
            &&& forall|i: int| 0 <= i < a.heap.len() ==> (#[trigger] a.heap[i]).prio.seq <= a.seq
        }),
    decreases n,
{
    if n > 0 {
        lemma_enqueued(plan, running, want, epoch, seq, n - 1);
    }
}

proof fn lemma_retained_len(plan: Seq<PlannedJob>, failures: Set<JobId>, n: int)
    requires
        0 <= n,
    ensures
        retained(plan, failures, n).len() <= n,
    decreases n,
{
    if n > 0 {
        lemma_retained_len(plan, failures, n - 1);
    }
}

/// Replacing the plan keeps a queue consistent and withdraws no cancellation.
pub proof fn law_planned_is_consistent(m: QueueModel, plan: Seq<PlannedJob>, changed: bool)
    requires
        consistent(m),
        has_room(m, plan.len() as int),
    ensures
        consistent(planned(m, plan, changed)),
        same_jobs(m.running, planned(m, plan, changed).running),
{
    if !m.closed {
        let failures = failures_after(m, plan, changed);
        let kept = if changed {
            plan
        } else {
            retained(plan, failures, plan.len() as int)
        };
        lemma_retained_len(plan, failures, plan.len() as int);
        let epoch = (m.epoch + 1) as u64;
        let want = wanted(kept, epoch, kept.len() as int);
        let running = displace(m.running, m.background_claim, want, changed && kept.len() > 0);
        lemma_enqueued(kept, running, want, epoch, m.seq, kept.len() as int);
        if let Some(claim) = m.background_claim {
            let i = choose|i: int|
                0 <= i < m.running.len() && (#[trigger] m.running[i]).id == claim.id
                    && m.running[i].generation == claim.generation && m.running[i].action
                    == claim.action;
            assert(running[i].id == claim.id);
        }
    }
}

/// Appending jobs keeps a queue consistent.
pub proof fn law_extended_is_consistent(m: QueueModel, jobs: Seq<PlannedJob>, n: int)
    requires
        consistent(m),
        0 <= n <= jobs.len(),
        m.seq + n <= u64::MAX,
    ensures
        consistent(extended(m, jobs, n)),
        extended(m, jobs, n).seq <= m.seq + n,
        extended(m, jobs, n).running == m.running,
    decreases n,
{
    if !m.closed && n > 0 {
        law_extended_is_consistent(m, jobs, n - 1);
    }
}

proof fn lemma_urgent_outcome(
    lane: Seq<(JobId, Action)>,
    kept: Seq<(JobId, Action)>,
    running: Seq<Running>,
)
    ensures
        same_jobs(running, urgent_outcome(lane, kept, running).running),
        urgent_outcome(lane, kept, running).claimed matches Some((id, action)) ==> !is_running(
            urgent_outcome(lane, kept, running).running,
            id,
        ),
    decreases lane.len(),
{
    if lane.len() > 0 {
        let (id, action) = lane[0];
        let rest = lane.skip(1);
        if is_running(running, id) {
            if runs_exactly(running, id, action) {
                lemma_urgent_outcome(rest, kept, running);
            } else {
                lemma_urgent_outcome(rest, kept.push((id, action)), cancel_id(running, id));
            }
        }
    }
}

proof fn lemma_background_outcome(
    lane: Seq<(JobId, Action)>,
    kept: Seq<(JobId, Action)>,
    running: Seq<Running>,
)
    ensures
        background_outcome(lane, kept, running).running == running,
        background_outcome(lane, kept, running).claimed matches Some((id, action)) ==> !is_running(
            running,
            id,
        ),
    decreases lane.len(),
{
    if lane.len() > 0 && is_running(running, lane[0].0) {
        lemma_background_outcome(lane.skip(1), kept.push(lane[0]), running);
    }
}

proof fn lemma_heap_after(m: QueueModel, chosen: Option<int>, n: int)
    requires
        consistent(m),
        0 <= n <= m.heap.len(),
    ensures
        ({
            let h = heap_after(m, chosen, n);
            &&& forall|i: int, j: int|
                0 <= i < j < h.len() ==> (#[trigger] h[i]).prio.seq < (#[trigger] h[j]).prio.seq
            &&& forall|i: int|
                0 <= i < h.len() ==> n > 0 && (#[trigger] h[i]).prio.seq <= m.heap[n - 1].prio.seq
        }),
    decreases n,
{
    if n > 0 {
        lemma_heap_after(m, chosen, n - 1);
    }
}

/// What the chosen heap entry is: runnable, and before every other runnable
/// one.
proof fn lemma_best_runnable(m: QueueModel, n: int)
    requires
        0 <= n <= m.heap.len(),
    ensures
        match best_runnable(m, n) {
            Some(best) => {
                &&& 0 <= best < n
                &&& runnable(m, m.heap[best])
                &&& forall|i: int|
                    0 <= i < n && runnable(m, #[trigger] m.heap[i]) ==> !m.heap[i].prio.before(
                        m.heap[best].prio,
                    )
            },
            None => forall|i: int| 0 <= i < n ==> !runnable(m, #[trigger] m.heap[i]),
        },
    decreases n,
{
    if n > 0 {
        lemma_best_runnable(m, n - 1);
    }
}

proof fn lemma_claimed_is_consistent(m: QueueModel, id: JobId, action: Action)
    requires
        consistent(m),
        !m.closed,
        m.generation < u64::MAX,
        !is_running(m.running, id),
    ensures
        consistent(claimed(m, id, action)),
{
    let after = claimed(m, id, action);
    if let Some(claim) = m.background_claim {
        let i = choose|i: int|
            0 <= i < m.running.len() && (#[trigger] m.running[i]).id == claim.id
                && m.running[i].generation == claim.generation && m.running[i].action
                == claim.action;
        assert(after.running[i] == m.running[i]);
    }
    assert forall|i: int, j: int| 0 <= i < j < after.running.len() implies (
    #[trigger] after.running[i]).id != (#[trigger] after.running[j]).id
        && after.running[i].generation < after.running[j].generation by {
        assert(after.running[i] == m.running[i]);
        if j < m.running.len() {
            assert(after.running[j] == m.running[j]);
        }
    }
}

proof fn lemma_claim_background_is_consistent(m: QueueModel)
    requires
        consistent(m),
        !m.closed,
        m.generation < u64::MAX,
    ensures
        consistent(claim_background(m).model),
{
    if !(m.background_claim is Some || (!m.parallel && speculative_active(m.running))) {
        let outcome = background_outcome(m.background, seq![], m.running);
        lemma_background_outcome(m.background, seq![], m.running);
        let looked = QueueModel { background: outcome.lane, ..m };
        if let Some((id, action)) = outcome.claimed {
            lemma_claimed_is_consistent(looked, id, action);
            let after = claim_background(m).model;
            assert(after.running[m.running.len() as int].id == id);
        }
    }
}

/// Claiming keeps a queue consistent: in particular no identity is ever claimed
/// while an earlier claim of it is still running.
pub proof fn law_claim_is_consistent(m: QueueModel)
    requires
        consistent(m),
        m.generation < u64::MAX,
    ensures
        consistent(claim_next(m).model),
        claim_next(m).claim matches Some(claim) ==> !is_running(m.running, claim.id)
            && claim.generation > m.generation,
{
    if !m.closed {
        let outcome = urgent_outcome(m.urgent, seq![], m.running);
        lemma_urgent_outcome(m.urgent, seq![], m.running);
        let looked = QueueModel { urgent: outcome.lane, running: outcome.running, ..m };
        lemma_same_jobs_consistent(m, looked);
        lemma_same_jobs_running(m.running, outcome.running);
        if let Some((id, action)) = outcome.claimed {
            lemma_claimed_is_consistent(
                QueueModel { queued: m.queued.remove(id), ..looked },
                id,
                action,
            );
        } else {
            let n = looked.heap.len() as int;
            let chosen = best_runnable(looked, n);
            lemma_best_runnable(looked, n);
            lemma_heap_after(looked, chosen, n);
            let after = QueueModel { heap: heap_after(looked, chosen, n), ..looked };
            assert(consistent(after));
            if let Some(best) = chosen {
                let job = looked.heap[best];
                lemma_claimed_is_consistent(
                    QueueModel { queued: looked.queued.remove(job.id), ..after },
                    job.id,
                    job.action,
                );
            } else {
                lemma_claim_background_is_consistent(after);
                lemma_background_outcome(after.background, seq![], after.running);
            }
        }
    }
}

proof fn lemma_same_jobs_running(before: Seq<Running>, after: Seq<Running>)
    requires
        same_jobs(before, after),
    ensures
        forall|id: JobId| #[trigger] is_running(before, id) <==> is_running(after, id),
{
    assert forall|id: JobId| #[trigger] is_running(before, id) <==> is_running(after, id) by {
        if is_running(before, id) {
            let i = choose|i: int| 0 <= i < before.len() && (#[trigger] before[i]).id == id;
            assert(after[i].id == id);
        }
        if is_running(after, id) {
            let i = choose|i: int| 0 <= i < after.len() && (#[trigger] after[i]).id == id;
            assert(before[i].id == id);
        }
    }
}

proof fn lemma_same_jobs_consistent(m: QueueModel, after: QueueModel)
    requires
        consistent(m),
        !m.closed,
        same_jobs(m.running, after.running),
        after == (QueueModel { running: after.running, urgent: after.urgent, ..m }),
    ensures
        consistent(after),
{
    if let Some(claim) = m.background_claim {
        let i = choose|i: int|
            0 <= i < m.running.len() && (#[trigger] m.running[i]).id == claim.id
                && m.running[i].generation == claim.generation && m.running[i].action
                == claim.action;
        assert(after.running[i].id == claim.id);
    }
}

proof fn lemma_without_claim(running: Seq<Running>, id: JobId, generation: u64, position: int)
    requires
        0 <= position < running.len(),
        running[position].id == id,
        running[position].generation == generation,
        forall|i: int, j: int|
            0 <= i < j < running.len() ==> (#[trigger] running[i]).id != (#[trigger] running[j]).id,
    ensures
        without_claim(running, id, generation) == running.remove(position),
    decreases running.len(),
{
    if position == running.len() - 1 {
        assert(running.remove(position) =~= running.drop_last());
    } else {
        assert(running.last() == running[running.len() - 1]);
        lemma_without_claim(running.drop_last(), id, generation, position);
        assert(running.remove(position) =~= running.drop_last().remove(position).push(
            running.last(),
        ));
    }
}

proof fn lemma_without_absent(running: Seq<Running>, id: JobId, generation: u64)
    requires
        !owns(running, id, generation),
    ensures
        without_claim(running, id, generation) == running,
    decreases running.len(),
{
    if running.len() > 0 {
        assert(running.last() == running[running.len() - 1]);
        assert forall|i: int| 0 <= i < running.drop_last().len() implies !((
        #[trigger] running.drop_last()[i]).id == id && running.drop_last()[i].generation
            == generation) by {
            assert(running.drop_last()[i] == running[i]);
        }
        lemma_without_absent(running.drop_last(), id, generation);
        assert(running =~= running.drop_last().push(running.last()));
    }
}

/// Finishing a claim keeps a queue consistent and ends exactly that claim.
pub proof fn law_finished_is_consistent(m: QueueModel, token: CancelToken, completion: JobCompletion)
    requires
        consistent(m),
    ensures
        consistent(finished(m, token, completion)),
        !owns(finished(m, token, completion).running, token.id, token.generation),
        owns(m.running, token.id, token.generation) ==> !is_running(
            finished(m, token, completion).running,
            token.id,
        ),
{
    let after = finished(m, token, completion);
    if owns(m.running, token.id, token.generation) {
        let p = choose|p: int|
            0 <= p < m.running.len() && (#[trigger] m.running[p]).id == token.id
                && m.running[p].generation == token.generation;
        lemma_without_claim(m.running, token.id, token.generation, p);
        assert forall|i: int| 0 <= i < after.running.len() implies (#[trigger] after.running[i]).id
            != token.id by {
            if i < p {
                assert(after.running[i] == m.running[i]);
            } else {
                assert(after.running[i] == m.running[i + 1]);
            }
        }
        assert forall|i: int, j: int| 0 <= i < j < after.running.len() implies (
        #[trigger] after.running[i]).id != (#[trigger] after.running[j]).id
            && after.running[i].generation < after.running[j].generation by {
            let a = if i < p {
                i
            } else {
                i + 1
            };
            let b = if j < p {
                j
            } else {
                j + 1
            };
            assert(after.running[i] == m.running[a]);
            assert(after.running[j] == m.running[b]);
        }
        assert forall|i: int| 0 <= i < after.running.len() implies (
        #[trigger] after.running[i]).generation <= m.generation && (m.closed
            ==> after.running[i].cancelled) by {
            let a = if i < p {
                i
            } else {
                i + 1
            };
            assert(after.running[i] == m.running[a]);
        }
        if let Some(owner) = after.background_claim {
            let q = choose|q: int|
                0 <= q < m.running.len() && (#[trigger] m.running[q]).id == owner.id
                    && m.running[q].generation == owner.generation && m.running[q].action
                    == owner.action;
            if q < p {
                assert(after.running[q] == m.running[q]);
            } else {
                assert(q != p);
                assert(after.running[q - 1] == m.running[q]);
            }
        }
    } else {
        lemma_without_absent(m.running, token.id, token.generation);
    }
}

// ---------------------------------------------------------------------------
// Operations
// ---------------------------------------------------------------------------

/// Whether the identities of running jobs are all different.
spec fn distinct(running: Seq<Running>) -> bool {
    forall|i: int, j: int|
        0 <= i < j < running.len() ==> (#[trigger] running[i]).id != (#[trigger] running[j]).id
}

fn find_running(running: &Vec<Running>, id: JobId) -> (position: Option<usize>)
    ensures
        match position {
            Some(i) => i < running@.len() && running@[i as int].id == id,
            None => !is_running(running@, id),
        },
{
    let mut i: usize = 0;
    while i < running.len()
        invariant
            i <= running@.len(),
            forall|k: int| 0 <= k < i ==> (#[trigger] running@[k]).id != id,
        decreases running@.len() - i,
    {
        if same_id(running[i].id, id) {
            return Some(i);
        }
        i += 1;
    }
    None
}

fn find_compatible(running: &Vec<Running>, id: JobId, action: Action) -> (found: bool)
    requires
        distinct(running@),
    ensures
        found == runs_compatibly(running@, id, action),
{
    match find_running(running, id) {
        Some(i) => {
            let job: Running = running[i];
            assert(job == running@[i as int]);
            job.action.compatible_with(action) && !job.cancelled
        },
        None => false,
    }
}

fn find_exact(running: &Vec<Running>, id: JobId, action: Action) -> (found: bool)
    requires
        distinct(running@),
    ensures
        found == runs_exactly(running@, id, action),
{
    match find_running(running, id) {
        Some(i) => {
            let job: Running = running[i];
            assert(job == running@[i as int]);
            job.action == action && !job.cancelled
        },
        None => false,
    }
}

fn any_speculative(running: &Vec<Running>) -> (active: bool)
    ensures
        active == speculative_active(running@),
{
    let mut i: usize = 0;
    while i < running.len()
        invariant
            i <= running@.len(),
            forall|k: int|
                0 <= k < i ==> !((#[trigger] running@[k]).action == Action::PrefetchFull || (
                running@[k].id.1 == Tier::Full && running@[k].cancelled)),
        decreases running@.len() - i,
    {
        let job: Running = running[i];
        assert(job == running@[i as int]);
        if job.action.is_speculative_full() || (job.id.1 == Tier::Full && job.cancelled) {
            return true;
        }
        i += 1;
    }
    false
}

fn forget_required(failures: &mut IdMap<()>, plan: &Vec<PlannedJob>)
    requires
        old(failures).wf(),
    ensures
        final(failures).wf(),
        forall|id: JobId| #[trigger]
            final(failures)@.contains_key(id) <==> old(failures)@.contains_key(id) && !requires_id(
                plan@,
                plan@.len() as int,
                id,
            ),
{
    let mut i: usize = 0;
    while i < plan.len()
        invariant
            i <= plan@.len(),
            failures.wf(),
            forall|id: JobId| #[trigger]
                failures@.contains_key(id) <==> old(failures)@.contains_key(id) && !requires_id(
                    plan@,
                    i as int,
                    id,
                ),
        decreases plan@.len() - i,
    {
        let job: PlannedJob = plan[i];
        let ghost before = failures@;
        if !job.3.is_speculative_full() {
            failures.remove(job.0);
        }
        proof {
            assert forall|id: JobId| #[trigger]
                failures@.contains_key(id) <==> old(failures)@.contains_key(id) && !requires_id(
                plan@,
                i + 1,
                id,
            ) by {
                assert(before.contains_key(id) <==> old(failures)@.contains_key(id)
                    && !requires_id(plan@, i as int, id));
                if requires_id(plan@, i as int, id) {
                    let k = choose|k: int|
                        0 <= k < i && (#[trigger] plan@[k]).0 == id && plan@[k].3
                            != Action::PrefetchFull;
                    assert(plan@[k].0 == id);
                }
                if id == job.0 && job.3 != Action::PrefetchFull {
                    assert(plan@[i as int].0 == id);
                }
            }
        }
        i += 1;
    }
}

fn retain_plan(plan: Vec<PlannedJob>, failures: &IdMap<()>) -> (kept: Vec<PlannedJob>)
    ensures
        kept@ == retained(plan@, failures@.dom(), plan@.len() as int),
{
    let mut kept: Vec<PlannedJob> = Vec::new();
    let mut i: usize = 0;
    while i < plan.len()
        invariant
            i <= plan@.len(),
            kept@ == retained(plan@, failures@.dom(), i as int),
        decreases plan@.len() - i,
    {
        let job: PlannedJob = plan[i];
        if !(job.3.is_speculative_full() && failures.contains(job.0)) {
            kept.push(job);
        }
        i += 1;
    }
    kept
}

fn want_plan(queued: &mut IdMap<QueuedState>, plan: &Vec<PlannedJob>, epoch: u64)
    ensures
        final(queued).wf(),
        final(queued)@ == wanted(plan@, epoch, plan@.len() as int),
{
    queued.clear();
    let mut i: usize = 0;
    while i < plan.len()
        invariant
            i <= plan@.len(),
            queued.wf(),
            queued@ == wanted(plan@, epoch, i as int),
        decreases plan@.len() - i,
    {
        let job: PlannedJob = plan[i];
        queued.insert(job.0, QueuedState { epoch, action: job.3 });
        i += 1;
    }
}

fn displace_running(
    running: &mut Vec<Running>,
    background: Option<Claim>,
    want: &IdMap<QueuedState>,
    preempt: bool,
)
    ensures
        final(running)@ == displace(old(running)@, background, want@, preempt),
{
    let mut i: usize = 0;
    while i < running.len()
        invariant
            i <= running@.len(),
            running@.len() == old(running)@.len(),
            forall|k: int|
                0 <= k < i ==> #[trigger] running@[k] == displace(
                    old(running)@,
                    background,
                    want@,
                    preempt,
                )[k],
            forall|k: int|
                i <= k < running@.len() ==> #[trigger] running@[k] == old(running)@[k],
        decreases running@.len() - i,
    {
        let job: Running = running[i];
        assert(job == old(running)@[i as int]);
        let owned: bool = match background {
            Some(claim) => same_id(claim.id, job.id) && claim.generation == job.generation,
            None => false,
        };
        let (demanded, satisfied): (bool, bool) = match want.get(job.id) {
            Some(state) => (true, job.action.compatible_with(state.action)),
            None => (false, false),
        };
        let stop: bool = if owned {
            preempt || (demanded && !satisfied)
        } else {
            !satisfied
        };
        if stop {
            running[i] = Running { cancelled: true, ..job };
        }
        i += 1;
    }
    assert(running@ =~= displace(old(running)@, background, want@, preempt));
}

fn queue_plan(
    heap: &mut Vec<QueuedJob>,
    queued: &mut IdMap<QueuedState>,
    plan: &Vec<PlannedJob>,
    running: &Vec<Running>,
    epoch: u64,
    seq: u64,
) -> (next: u64)
    requires
        old(queued).wf(),
        distinct(running@),
        seq + plan@.len() <= u64::MAX,
    ensures
        final(queued).wf(),
        ({
            let a = enqueue_plan(
                plan@,
                running@,
                old(queued)@,
                epoch,
                seq as int,
                plan@.len() as int,
            );
            &&& final(heap)@ == a.heap
            &&& final(queued)@ == a.queued
            &&& next == a.seq
        }),
{
    heap.clear();
    let mut next: u64 = seq;
    let mut i: usize = 0;
    while i < plan.len()
        invariant
            i <= plan@.len(),
            queued.wf(),
            distinct(running@),
            seq <= next <= seq + i,
            seq + plan@.len() <= u64::MAX,
            ({
                let a = enqueue_plan(
                    plan@,
                    running@,
                    old(queued)@,
                    epoch,
                    seq as int,
                    i as int,
                );
                &&& heap@ == a.heap
                &&& queued@ == a.queued
                &&& next == a.seq
            }),
        decreases plan@.len() - i,
    {
        let (id, class, eff_dist, action) = plan[i];
        if find_compatible(running, id, action) {
            queued.remove(id);
        } else {
            next = next + 1;
            heap.push(
                QueuedJob { prio: Prio { class, eff_dist, seq: next }, epoch, id, action },
            );
        }
        i += 1;
    }
    next
}

impl JobQueue {
    /// Returns whether the queue's counters can number `jobs` more jobs and one
    /// more plan and claim.
    pub fn has_room(&self, jobs: usize) -> (room: bool)
        ensures
            room == (has_room(self@, jobs as int) && self@.generation < u64::MAX),
    {
        (jobs as u64) <= u64::MAX - self.seq && self.epoch < u64::MAX && self.generation < u64::MAX
    }

    /// Replace the interactive job set. Running interactive jobs no longer
    /// wanted are cancelled; running jobs still wanted keep running (not
    /// duplicated). A real navigation change can also cancel the active
    /// background generation so newly interactive work reaches a worker at
    /// the next cancellation point.
    pub fn set_plan(&mut self, plan: Vec<PlannedJob>, navigation_changed: bool)
        requires
            old(self).wf(),
            has_room(old(self)@, plan@.len() as int),
        ensures
            final(self).wf(),
            final(self)@ == planned(old(self)@, plan@, navigation_changed),
    {
        let ghost before = self@;
        let ghost wanted_plan = plan@;
        proof {
            law_planned_is_consistent(before, plan@, navigation_changed);
        }
        if self.closed {
            return;
        }
        let kept: Vec<PlannedJob> = if navigation_changed {
            self.speculative_failures.clear();
            plan
        } else {
            // Required display demand must retry immediately even if the same
            // image failed as optional work earlier in this navigation wave.
            forget_required(&mut self.speculative_failures, &plan);
            retain_plan(plan, &self.speculative_failures)
        };
        let ghost failures = failures_after(before, wanted_plan, navigation_changed);
        assert(self.speculative_failures@.dom() =~= failures);
        proof {
            lemma_retained_len(wanted_plan, failures, wanted_plan.len() as int);
        }
        self.epoch = self.epoch + 1;
        let epoch: u64 = self.epoch;
        want_plan(&mut self.queued, &kept, epoch);
        let preempt: bool = navigation_changed && kept.len() > 0;
        displace_running(&mut self.in_flight, self.background_in_flight, &self.queued, preempt);
        let next = queue_plan(
            &mut self.heap,
            &mut self.queued,
            &kept,
            &self.in_flight,
            epoch,
            self.seq,
        );
        self.seq = next;
        assert(self@ =~= planned(before, wanted_plan, navigation_changed));
    }

    /// Install persistent background work exactly once. Returns whether the
    /// work was installed.
    pub fn initialize_background(&mut self, jobs: Vec<(JobId, Action)>) -> (installed: bool)
        requires
            old(self).wf(),
        ensures
            final(self).wf(),
            installed == (!old(self)@.closed && !old(self)@.background_initialized),
            final(self)@ == if installed {
                QueueModel {
                    background: old(self)@.background + jobs@,
                    background_initialized: true,
                    ..old(self)@
                }
            } else {
                old(self)@
            },
    {
        if self.closed || self.background_initialized {
            return false;
        }
        self.background_initialized = true;
        let ghost before = self.background@;
        let mut i: usize = 0;
        while i < jobs.len()
            invariant
                i <= jobs@.len(),
                !self.closed,
                self.queued.wf(),
                self.speculative_failures.wf(),
                consistent(self@),
                self@ =~= (QueueModel {
                    background: before + jobs@.take(i as int),
                    background_initialized: true,
                    ..old(self)@
                }),
            decreases jobs@.len() - i,
        {
            self.background.push_back(jobs[i]);
            i += 1;
        }
        assert(jobs@.take(i as int) =~= jobs@);
        true
    }

    /// Returns whether the background lane was installed.
    pub fn background_initialized(&self) -> (initialized: bool)
        ensures
            initialized == self@.background_initialized,
    {
        self.background_initialized
    }

    /// Append jobs without disturbing the existing plan (used for the
    /// one-shot metadata wave).
    pub fn extend(&mut self, jobs: Vec<PlannedJob>)
        requires
            old(self).wf(),
            old(self)@.seq + jobs@.len() <= u64::MAX,
        ensures
            final(self).wf(),
            final(self)@ == extended(old(self)@, jobs@, jobs@.len() as int),
    {
        let ghost before = self@;
        proof {
            law_extended_is_consistent(before, jobs@, jobs@.len() as int);
        }
        if self.closed {
            return;
        }
        let epoch: u64 = self.epoch;
        let mut i: usize = 0;
        while i < jobs.len()
            invariant
                i <= jobs@.len(),
                !before.closed,
                epoch == before.epoch,
                self.queued.wf(),
                self.speculative_failures.wf(),
                before.seq + jobs@.len() <= u64::MAX,
                self.seq <= before.seq + i,
                self@ =~= extended(before, jobs@, i as int),
            decreases jobs@.len() - i,
        {
            let (id, class, eff_dist, action) = jobs[i];
            self.seq = self.seq + 1;
            self.queued.insert(id, QueuedState { epoch, action });
            self.heap.push(
                QueuedJob { prio: Prio { class, eff_dist, seq: self.seq }, epoch, id, action },
            );
            i += 1;
        }
    }

    /// Replace the bounded interactive lane without disturbing background
    /// priorities. A queued background copy remains valid until the urgent job
    /// actually starts; dropping an item from this lane therefore demotes it
    /// for free on the next viewport update. Returns `false` only after
    /// shutdown.
    pub fn set_urgent(&mut self, jobs: Vec<(JobId, Action)>) -> (accepted: bool)
        requires
            old(self).wf(),
        ensures
            final(self).wf(),
            accepted == !old(self)@.closed,
            final(self)@ == if accepted {
                QueueModel {
                    urgent: urgent_lane(old(self)@.running, jobs@, jobs@.len() as int),
                    ..old(self)@
                }
            } else {
                old(self)@
            },
    {
        if self.closed {
            return false;
        }
        self.urgent.clear();
        let ghost before = self@;
        let mut seen: IdMap<()> = IdMap::new();
        let mut i: usize = 0;
        assert(distinct(before.running));
        while i < jobs.len()
            invariant
                i <= jobs@.len(),
                self.queued.wf(),
                self.speculative_failures.wf(),
                !before.closed,
                consistent(before),
                distinct(before.running),
                before == (QueueModel { urgent: seq![], ..old(self)@ }),
                self@ =~= (QueueModel {
                    urgent: urgent_lane(before.running, jobs@, i as int),
                    ..before
                }),
                forall|id: JobId| #[trigger]
                    seen@.contains_key(id) <==> in_lane(self.urgent@, id),
            decreases jobs@.len() - i,
        {
            let (id, action) = jobs[i];
            if !find_exact(&self.in_flight, id, action) && !seen.contains(id) {
                let ghost lane = self.urgent@;
                let ghost earlier = seen@;
                seen.insert(id, ());
                self.urgent.push_back((id, action));
                assert forall|other: JobId| #[trigger]
                    seen@.contains_key(other) <==> in_lane(self.urgent@, other) by {
                    assert(earlier.contains_key(other) <==> in_lane(lane, other));
                    if in_lane(lane, other) {
                        let k = choose|k: int|
                            0 <= k < lane.len() && (#[trigger] lane[k]).0 == other;
                        assert(self.urgent@[k].0 == other);
                    }
                    if other == id {
                        assert(self.urgent@[lane.len() as int].0 == other);
                    }
                    if in_lane(self.urgent@, other) && other != id {
                        let k = choose|k: int|
                            0 <= k < self.urgent@.len() && (#[trigger] self.urgent@[k]).0 == other;
                        assert(lane[k].0 == other);
                    }
                }
            }
            i += 1;
        }
        true
    }
}

proof fn lemma_skip_step<A>(lane: Seq<A>, n: int)
    requires
        0 <= n < lane.len(),
    ensures
        lane.skip(n)[0] == lane[n],
        lane.skip(n).skip(1) == lane.skip(n + 1),
{
    assert(lane.skip(n).skip(1) =~= lane.skip(n + 1));
}

fn cancel_running(running: &mut Vec<Running>, position: usize)
    requires
        position < old(running)@.len(),
        distinct(old(running)@),
    ensures
        final(running)@ == cancel_id(old(running)@, old(running)@[position as int].id),
{
    let job: Running = running[position];
    running[position] = Running { cancelled: true, ..job };
    assert(running@ =~= cancel_id(old(running)@, old(running)@[position as int].id));
}

/// Takes the next urgent job that can start.
fn take_urgent(urgent: &mut VecDeque<(JobId, Action)>, running: &mut Vec<Running>) -> (taken:
    Option<(JobId, Action)>)
    requires
        distinct(old(running)@),
    ensures
        ({
            let outcome = urgent_outcome(old(urgent)@, seq![], old(running)@);
            &&& taken == outcome.claimed
            &&& final(urgent)@ == outcome.lane
            &&& final(running)@ == outcome.running
        }),
{
    let count: usize = urgent.len();
    let ghost lane = urgent@;
    let ghost mut kept: Seq<(JobId, Action)> = seq![];
    let ghost total = urgent_outcome(lane, seq![], running@);
    let mut i: usize = 0;
    assert(lane.skip(0) =~= lane);
    assert(urgent@ =~= lane.skip(0) + kept);
    while i < count
        invariant
            i <= count,
            count == lane.len(),
            distinct(running@),
            urgent@ =~= lane.skip(i as int) + kept,
            total == urgent_outcome(old(urgent)@, seq![], old(running)@),
            total == urgent_outcome(lane.skip(i as int), kept, running@),
        decreases count - i,
    {
        proof {
            lemma_skip_step(lane, i as int);
        }
        let front: Option<(JobId, Action)> = urgent.pop_front();
        let (id, action) = match front {
            Some(item) => item,
            None => {
                assert(false);
                return None;
            },
        };
        assert((id, action) == lane[i as int]);
        assert(urgent@ =~= lane.skip(i + 1) + kept);
        match find_running(running, id) {
            Some(position) => {
                let job: Running = running[position];
                assert(job == running@[position as int]);
                assert(is_running(running@, id));
                if !(job.action == action && !job.cancelled) {
                    assert(!runs_exactly(running@, id, action));
                    cancel_running(running, position);
                    urgent.push_back((id, action));
                    proof {
                        kept = kept.push((id, action));
                    }
                } else {
                    assert(runs_exactly(running@, id, action));
                }
            },
            None => {
                return Some((id, action));
            },
        }
        i += 1;
    }
    assert(lane.skip(i as int) =~= seq![]);
    None
}

/// Takes the next background job whose identity is not running.
fn take_background(background: &mut VecDeque<(JobId, Action)>, running: &Vec<Running>) -> (taken:
    Option<(JobId, Action)>)
    ensures
        ({
            let outcome = background_outcome(old(background)@, seq![], running@);
            &&& taken == outcome.claimed
            &&& final(background)@ == outcome.lane
        }),
{
    let count: usize = background.len();
    let ghost lane = background@;
    let ghost mut kept: Seq<(JobId, Action)> = seq![];
    let ghost total = background_outcome(lane, seq![], running@);
    let mut i: usize = 0;
    assert(lane.skip(0) =~= lane);
    while i < count
        invariant
            i <= count,
            count == lane.len(),
            background@ =~= lane.skip(i as int) + kept,
            total == background_outcome(old(background)@, seq![], running@),
            total == background_outcome(lane.skip(i as int), kept, running@),
        decreases count - i,
    {
        proof {
            lemma_skip_step(lane, i as int);
        }
        let front: Option<(JobId, Action)> = background.pop_front();
        let (id, action) = match front {
            Some(item) => item,
            None => {
                assert(false);
                return None;
            },
        };
        assert((id, action) == lane[i as int]);
        assert(background@ =~= lane.skip(i + 1) + kept);
        match find_running(running, id) {
            Some(position) => {
                assert(running@[position as int].id == id);
                assert(is_running(running@, id));
                background.push_back((id, action));
                proof {
                    kept = kept.push((id, action));
                }
            },
            None => {
                return Some((id, action));
            },
        }
        i += 1;
    }
    assert(lane.skip(i as int) =~= seq![]);
    None
}

impl JobQueue {
    fn is_live_entry(&self, job: QueuedJob) -> (live: bool)
        ensures
            live == is_live(self@.queued, job),
    {
        match self.queued.get(job.id) {
            Some(state) => state.epoch == job.epoch,
            None => false,
        }
    }

    fn choose_queued(&self) -> (chosen: Option<usize>)
        requires
            self.wf(),
        ensures
            match chosen {
                Some(best) => best_runnable(self@, self@.heap.len() as int) == Some(best as int)
                    && best < self@.heap.len(),
                None => best_runnable(self@, self@.heap.len() as int) is None,
            },
    {
        let speculative: bool = any_speculative(&self.in_flight);
        let mut chosen: Option<usize> = None;
        let mut i: usize = 0;
        while i < self.heap.len()
            invariant
                i <= self.heap@.len(),
                speculative == speculative_active(self@.running),
                match chosen {
                    Some(best) => best_runnable(self@, i as int) == Some(best as int) && best < i,
                    None => best_runnable(self@, i as int) is None,
                },
            decreases self.heap@.len() - i,
        {
            let job: QueuedJob = self.heap[i];
            assert(job == self@.heap[i as int]);
            let idle: bool = find_running(&self.in_flight, job.id).is_none();
            proof {
                if !idle {
                    assert(is_running(self@.running, job.id));
                }
            }
            let allowed: bool = !job.action.is_speculative_full() || (!speculative && (
            self.parallel_background_lanes || self.background_in_flight.is_none()));
            if self.is_live_entry(job) && idle && allowed {
                let better: bool = match chosen {
                    Some(best) => job.prio.precedes(self.heap[best].prio),
                    None => true,
                };
                if better {
                    chosen = Some(i);
                }
            }
            i += 1;
        }
        chosen
    }

    fn heap_without(&self, chosen: Option<usize>) -> (kept: Vec<QueuedJob>)
        requires
            chosen matches Some(best) ==> best < self@.heap.len(),
        ensures
            kept@ == heap_after(
                self@,
                match chosen {
                    Some(best) => Some(best as int),
                    None => None,
                },
                self@.heap.len() as int,
            ),
    {
        let ghost target = match chosen {
            Some(best) => Some(best as int),
            None => None,
        };
        let mut kept: Vec<QueuedJob> = Vec::new();
        let mut i: usize = 0;
        while i < self.heap.len()
            invariant
                i <= self.heap@.len(),
                chosen matches Some(best) ==> best < self@.heap.len() && target == Some(
                    best as int,
                ),
                chosen is None ==> target is None,
                kept@ == heap_after(self@, target, i as int),
            decreases self.heap@.len() - i,
        {
            let job: QueuedJob = self.heap[i];
            assert(job == self@.heap[i as int]);
            let live: bool = self.is_live_entry(job);
            let keep: bool = match chosen {
                Some(best) => i != best && (live || self.heap[best].prio.precedes(job.prio)),
                None => live,
            };
            if keep {
                kept.push(job);
            }
            i += 1;
        }
        kept
    }

    fn claim(&mut self, id: JobId, action: Action) -> (claim: Claim)
        requires
            old(self)@.generation < u64::MAX,
            old(self).queued.wf(),
            old(self).speculative_failures.wf(),
        ensures
            final(self)@ == claimed(old(self)@, id, action),
            final(self).queued.wf(),
            final(self).speculative_failures.wf(),
            claim == next_claim(old(self)@, id, action),
    {
        self.generation = self.generation + 1;
        self.in_flight.push(
            Running { id, action, generation: self.generation, cancelled: false },
        );
        assert(self@ =~= claimed(old(self)@, id, action));
        Claim { id, action, generation: self.generation }
    }

    /// Claims the highest-priority runnable job without waiting. Returns `None`
    /// when nothing can run and after shutdown.
    pub fn pop(&mut self) -> (job: Option<(JobId, Action, CancelToken)>)
        requires
            old(self).wf(),
            old(self)@.generation < u64::MAX,
        ensures
            final(self).wf(),
            final(self)@ == claim_next(old(self)@).model,
            job == match claim_next(old(self)@).claim {
                Some(claim) => Some((claim.id, claim.action, claim.token())),
                None => None,
            },
    {
        match self.try_claim() {
            Some(claim) => Some(
                (
                    claim.id,
                    claim.action,
                    CancelToken { id: claim.id, generation: claim.generation },
                ),
            ),
            None => None,
        }
    }

    fn try_claim(&mut self) -> (claim: Option<Claim>)
        requires
            old(self).wf(),
            old(self)@.generation < u64::MAX,
        ensures
            final(self).wf(),
            final(self)@ == claim_next(old(self)@).model,
            claim == claim_next(old(self)@).claim,
    {
        let ghost before = self@;
        proof {
            law_claim_is_consistent(before);
        }
        if self.closed {
            return None;
        }
        assert(distinct(before.running));
        let taken = take_urgent(&mut self.urgent, &mut self.in_flight);
        let ghost looked = self@;
        assert(looked =~= (QueueModel {
            urgent: urgent_outcome(before.urgent, seq![], before.running).lane,
            running: urgent_outcome(before.urgent, seq![], before.running).running,
            ..before
        }));
        if let Some((id, action)) = taken {
            // Invalidate a background copy only when this urgent copy is
            // actually claimed. Until then, replacing the urgent viewport
            // leaves the original background priority untouched.
            self.queued.remove(id);
            assert(self@ =~= (QueueModel { queued: before.queued.remove(id), ..looked }));
            return Some(self.claim(id, action));
        }
        proof {
            lemma_urgent_outcome(before.urgent, seq![], before.running);
            lemma_same_jobs_consistent(before, looked);
        }
        let chosen = self.choose_queued();
        let kept = self.heap_without(chosen);
        if let Some(best) = chosen {
            let job: QueuedJob = self.heap[best];
            assert(job == looked.heap[best as int]);
            self.heap = kept;
            self.queued.remove(job.id);
            assert(self@ =~= (QueueModel {
                heap: heap_after(looked, Some(best as int), looked.heap.len() as int),
                queued: looked.queued.remove(job.id),
                ..looked
            }));
            return Some(self.claim(job.id, job.action));
        }
        self.heap = kept;
        let ghost rest = self@;
        assert(rest =~= (QueueModel {
            heap: heap_after(looked, None, looked.heap.len() as int),
            ..looked
        }));
        // Persistent folder warming is strictly below both replaceable lanes
        // and owns at most one worker. A speculative Full job may use one more,
        // leaving at least one heavy dispatcher ready for foreground work.
        if self.background_in_flight.is_some() || (!self.parallel_background_lanes
            && any_speculative(&self.in_flight)) {
            return None;
        }
        let taken = take_background(&mut self.background, &self.in_flight);
        assert(self@ =~= (QueueModel {
            background: background_outcome(rest.background, seq![], rest.running).lane,
            ..rest
        }));
        match taken {
            Some((id, action)) => {
                let claim = self.claim(id, action);
                self.background_in_flight = Some(claim);
                assert(self@ =~= claim_background(rest).model);
                Some(claim)
            },
            None => None,
        }
    }
}

impl JobQueue {
    /// Returns whether a claim may publish a result: it is still the running
    /// job of its identity and was not cancelled.
    pub fn owns_publication(&self, token: CancelToken) -> (owner: bool)
        requires
            self.wf(),
        ensures
            owner == owns_live(self@.running, token.id, token.generation),
    {
        match find_running(&self.in_flight, token.id) {
            Some(i) => {
                let job: Running = self.in_flight[i];
                assert(job == self@.running[i as int]);
                job.generation == token.generation && !job.cancelled
            },
            None => false,
        }
    }

    fn cancel_claim(&mut self, token: CancelToken)
        requires
            old(self).wf(),
        ensures
            final(self).wf(),
            final(self)@ == (QueueModel {
                running: if owns(old(self)@.running, token.id, token.generation) {
                    cancel_id(old(self)@.running, token.id)
                } else {
                    old(self)@.running
                },
                ..old(self)@
            }),
    {
        let ghost before = self@;
        if let Some(i) = find_running(&self.in_flight, token.id) {
            let job: Running = self.in_flight[i];
            assert(job == before.running[i as int]);
            if job.generation == token.generation {
                assert(owns(before.running, token.id, token.generation));
                assert(distinct(before.running));
                cancel_running(&mut self.in_flight, i);
                proof {
                    let after = self@;
                    assert(after =~= (QueueModel {
                        running: cancel_id(before.running, token.id),
                        ..before
                    }));
                    if let Some(owner) = before.background_claim {
                        let k = choose|k: int|
                            0 <= k < before.running.len() && (#[trigger] before.running[k]).id
                                == owner.id && before.running[k].generation == owner.generation
                                && before.running[k].action == owner.action;
                        assert(after.running[k].id == owner.id);
                    }
                }
            } else {
                assert(!owns(before.running, token.id, token.generation));
            }
        }
        assert(self@ =~= (QueueModel {
            running: if owns(before.running, token.id, token.generation) {
                cancel_id(before.running, token.id)
            } else {
                before.running
            },
            ..before
        }));
    }

    /// Ends a token. Returns whether the publication that the worker offers
    /// with it, if any, may be sent.
    pub fn finish_with_publication(
        &mut self,
        token: CancelToken,
        completion: JobCompletion,
        publication: bool,
    ) -> (published: bool)
        requires
            old(self).wf(),
        ensures
            final(self).wf(),
            final(self)@ == finished(old(self)@, token, completion),
            published == (publication && owns_live(
                old(self)@.running,
                token.id,
                token.generation,
            )),
    {
        let ghost before = self@;
        proof {
            law_finished_is_consistent(before, token, completion);
        }
        let position = find_running(&self.in_flight, token.id);
        let (owned, live): (bool, bool) = match position {
            Some(i) => {
                let job: Running = self.in_flight[i];
                assert(job == before.running[i as int]);
                (
                    job.generation == token.generation,
                    job.generation == token.generation && !job.cancelled,
                )
            },
            None => (false, false),
        };
        assert(owned == owns(before.running, token.id, token.generation));
        assert(live == owns_live(before.running, token.id, token.generation));
        if live && matches!(completion, JobCompletion::SuppressSpeculative) {
            self.speculative_failures.insert(token.id, ());
        }
        if let Some(owner) = self.background_in_flight {
            if same_id(owner.id, token.id) && owner.generation == token.generation {
                self.background_in_flight = None;
                if !self.closed {
                    match completion {
                        JobCompletion::Complete => {},
                        JobCompletion::RetryBackground => {
                            self.background.push_back((token.id, owner.action));
                        },
                        JobCompletion::DeferBackground { required_bytes } => {
                            self.background_deferred.push_back(
                                DeferredJob {
                                    id: token.id,
                                    action: owner.action,
                                    required_bytes,
                                },
                            );
                        },
                        JobCompletion::SuppressSpeculative => {},
                    }
                }
            }
        }
        if owned {
            if let Some(i) = position {
                self.in_flight.remove(i);
                proof {
                    lemma_without_claim(before.running, token.id, token.generation, i as int);
                }
            }
        } else {
            proof {
                lemma_without_absent(before.running, token.id, token.generation);
            }
        }
        assert(self.speculative_failures@.dom() =~= finished(before, token, completion).failures);
        assert(self@ =~= finished(before, token, completion));
        publication && live
    }

    /// Ends a claim without a publication.
    pub fn finish_with(&mut self, token: CancelToken, completion: JobCompletion)
        requires
            old(self).wf(),
        ensures
            final(self).wf(),
            final(self)@ == finished(old(self)@, token, completion),
    {
        let _ = self.finish_with_publication(token, completion, false);
    }

    /// Ends a claim whose work is complete.
    pub fn finish(&mut self, token: CancelToken)
        requires
            old(self).wf(),
        ensures
            final(self).wf(),
            final(self)@ == finished(old(self)@, token, JobCompletion::Complete),
    {
        self.finish_with(token, JobCompletion::Complete);
    }

    /// Make one backpressured warm job runnable after persistence capacity or
    /// state changes. Releasing one at a time avoids a thundering herd of RAW
    /// decodes that would immediately saturate the byte budget again.
    pub fn release_one_deferred(&mut self, available_bytes: usize) -> (released_one: bool)
        requires
            old(self).wf(),
        ensures
            final(self).wf(),
            released_one == releasable(old(self)@, available_bytes),
            final(self)@ == released(old(self)@, available_bytes),
    {
        let ghost before = self@;
        if self.closed || self.background_deferred.len() == 0 {
            return false;
        }
        if self.background_deferred[0].required_bytes > available_bytes {
            return false;
        }
        if let Some(job) = self.background_deferred.pop_front() {
            self.background.push_back((job.id, job.action));
        }
        assert(self@ =~= released(before, available_bytes));
        true
    }

    /// Cancel active work and discard queued work. Every later operation finds
    /// the queue closed.
    pub fn close(&mut self)
        requires
            old(self).wf(),
        ensures
            final(self).wf(),
            final(self)@ == closed(old(self)@),
    {
        let ghost before = self@;
        self.closed = true;
        self.heap.clear();
        self.queued.clear();
        self.urgent.clear();
        self.background.clear();
        self.background_deferred.clear();
        let mut i: usize = 0;
        while i < self.in_flight.len()
            invariant
                i <= self.in_flight@.len(),
                self.in_flight@.len() == before.running.len(),
                self.queued.wf(),
                self.speculative_failures.wf(),
                self@ =~= (QueueModel {
                    running: self.in_flight@,
                    background_claim: before.background_claim,
                    ..closed(before)
                }),
                forall|k: int|
                    0 <= k < i ==> #[trigger] self.in_flight@[k] == cancelled(before.running[k]),
                forall|k: int|
                    i <= k < self.in_flight@.len() ==> #[trigger] self.in_flight@[k]
                        == before.running[k],
            decreases self.in_flight@.len() - i,
        {
            let job: Running = self.in_flight[i];
            self.in_flight[i] = Running { cancelled: true, ..job };
            i += 1;
        }
        self.background_in_flight = None;
        assert(self.in_flight@ =~= cancel_all(before.running));
        assert(self@ =~= closed(before));
    }

    /// Number of heap entries, inert ones included.
    pub fn resident_jobs(&self) -> (len: usize)
        ensures
            len == self@.heap.len(),
    {
        self.heap.len()
    }

    /// Returns whether no identity has a live heap entry.
    pub fn queued_is_empty(&self) -> (empty: bool)
        requires
            self.wf(),
        ensures
            empty == (self@.queued == Map::<JobId, QueuedState>::empty()),
    {
        self.queued.is_empty()
    }

    /// Number of jobs in the urgent lane.
    pub fn urgent_len(&self) -> (len: usize)
        ensures
            len == self@.urgent.len(),
    {
        self.urgent.len()
    }

    /// Number of claimed jobs that have not ended.
    pub fn in_flight_len(&self) -> (len: usize)
        ensures
            len == self@.running.len(),
    {
        self.in_flight.len()
    }

    /// Number of jobs waiting in the background lane.
    pub fn background_len(&self) -> (len: usize)
        ensures
            len == self@.background.len(),
    {
        self.background.len()
    }

    /// Number of warm jobs parked until persistence frees capacity.
    pub fn deferred_len(&self) -> (len: usize)
        ensures
            len == self@.deferred.len(),
    {
        self.background_deferred.len()
    }

    /// Returns whether a background job is running.
    pub fn background_is_running(&self) -> (running: bool)
        ensures
            running == self@.background_claim is Some,
    {
        self.background_in_flight.is_some()
    }

    /// Returns whether the queue was shut down.
    pub fn is_closed(&self) -> (is_closed: bool)
        ensures
            is_closed == self@.closed,
    {
        self.closed
    }
}

impl CancelToken {
    /// Marks the associated work as cancelled, if it is still running.
    pub fn cancel(&self, queue: &mut JobQueue)
        requires
            old(queue).wf(),
        ensures
            final(queue).wf(),
            final(queue)@ == (QueueModel {
                running: if owns(old(queue)@.running, self.id, self.generation) {
                    cancel_id(old(queue)@.running, self.id)
                } else {
                    old(queue)@.running
                },
                ..old(queue)@
            }),
    {
        queue.cancel_claim(*self);
    }

    /// Returns whether cancellation has been requested of work that is running.
    /// Work that has ended has nothing left to publish and counts as cancelled.
    pub fn cancelled(&self, queue: &JobQueue) -> (stale: bool)
        requires
            queue.wf(),
        ensures
            stale == !owns_live(queue@.running, self.id, self.generation),
            owns(queue@.running, self.id, self.generation) ==> stale == is_cancelled(
                queue@.running,
                self.id,
                self.generation,
            ),
    {
        proof {
            if is_cancelled(queue@.running, self.id, self.generation) && owns_live(
                queue@.running,
                self.id,
                self.generation,
            ) {
                let running = queue@.running;
                let i = choose|i: int|
                    0 <= i < running.len() && (#[trigger] running[i]).id == self.id
                        && running[i].generation == self.generation && running[i].cancelled;
                let j = choose|j: int|
                    0 <= j < running.len() && (#[trigger] running[j]).id == self.id
                        && running[j].generation == self.generation && !running[j].cancelled;
                assert(i < j || j < i);
                assert(false);
            }
        }
        !queue.owns_publication(*self)
    }
}

// ---------------------------------------------------------------------------
// Laws
// ---------------------------------------------------------------------------

proof fn lemma_enqueued_not_running(
    plan: Seq<PlannedJob>,
    running: Seq<Running>,
    want: Map<JobId, QueuedState>,
    epoch: u64,
    seq: int,
    n: int,
)
    requires
        0 <= n <= plan.len(),
    ensures
        forall|i: int|
            0 <= i < enqueue_plan(plan, running, want, epoch, seq, n).heap.len()
                ==> !runs_compatibly(
                running,
                (#[trigger] enqueue_plan(plan, running, want, epoch, seq, n).heap[i]).id,
                enqueue_plan(plan, running, want, epoch, seq, n).heap[i].action,
            ),
    decreases n,
{
    if n > 0 {
        lemma_enqueued_not_running(plan, running, want, epoch, seq, n - 1);
        let rest = enqueue_plan(plan, running, want, epoch, seq, n - 1);
        let all = enqueue_plan(plan, running, want, epoch, seq, n);
        assert forall|i: int| 0 <= i < all.heap.len() implies !runs_compatibly(
            running,
            (#[trigger] all.heap[i]).id,
            all.heap[i].action,
        ) by {
            if i < rest.heap.len() {
                assert(all.heap[i] == rest.heap[i]);
            }
        }
    }
}

/// A replan queues nothing that a live running job already does.
pub proof fn law_live_work_is_not_duplicated(m: QueueModel, plan: Seq<PlannedJob>, changed: bool)
    requires
        !m.closed,
    ensures
        ({
            let after = planned(m, plan, changed);
            forall|i: int|
                0 <= i < after.heap.len() ==> !runs_compatibly(
                    after.running,
                    (#[trigger] after.heap[i]).id,
                    after.heap[i].action,
                )
        }),
{
    let failures = failures_after(m, plan, changed);
    let kept = if changed {
        plan
    } else {
        retained(plan, failures, plan.len() as int)
    };
    let epoch = (m.epoch + 1) as u64;
    let want = wanted(kept, epoch, kept.len() as int);
    let running = displace(m.running, m.background_claim, want, changed && kept.len() > 0);
    lemma_enqueued_not_running(kept, running, want, epoch, m.seq, kept.len() as int);
}

/// A replan stops exactly the interactive jobs that nothing planned wants any
/// more, and leaves the others as they were.
pub proof fn law_replan_cancels_exactly_what_is_unwanted(
    m: QueueModel,
    plan: Seq<PlannedJob>,
    i: int,
)
    requires
        !m.closed,
        0 <= i < m.running.len(),
        !is_background(m.background_claim, m.running[i]),
    ensures
        ({
            let after = planned(m, plan, true).running[i];
            let want = wanted(plan, (m.epoch + 1) as u64, plan.len() as int);
            after == if want.contains_key(m.running[i].id) && m.running[i].action.satisfies(
                want[m.running[i].id].action,
            ) {
                m.running[i]
            } else {
                cancelled(m.running[i])
            }
        }),
{
}

proof fn lemma_wanted_absent(plan: Seq<PlannedJob>, epoch: u64, n: int, id: JobId)
    requires
        0 <= n <= plan.len(),
        forall|k: int| 0 <= k < plan.len() ==> (#[trigger] plan[k]).0 != id,
    ensures
        !wanted(plan, epoch, n).contains_key(id),
    decreases n,
{
    if n > 0 {
        lemma_wanted_absent(plan, epoch, n - 1, id);
    }
}

proof fn lemma_retained_members(plan: Seq<PlannedJob>, failures: Set<JobId>, n: int)
    requires
        0 <= n <= plan.len(),
    ensures
        forall|i: int|
            0 <= i < retained(plan, failures, n).len() ==> exists|k: int|
                0 <= k < n && plan[k] == #[trigger] retained(plan, failures, n)[i] && !(plan[k].3
                    == Action::PrefetchFull && failures.contains(plan[k].0)),
    decreases n,
{
    if n > 0 {
        lemma_retained_members(plan, failures, n - 1);
        let rest = retained(plan, failures, n - 1);
        let all = retained(plan, failures, n);
        assert forall|i: int| 0 <= i < all.len() implies exists|k: int|
            0 <= k < n && plan[k] == #[trigger] all[i] && !(plan[k].3 == Action::PrefetchFull
                && failures.contains(plan[k].0)) by {
            if i < rest.len() {
                assert(all[i] == rest[i]);
                let k = choose|k: int|
                    0 <= k < n - 1 && plan[k] == rest[i] && !(plan[k].3 == Action::PrefetchFull
                        && failures.contains(plan[k].0));
                assert(plan[k] == all[i]);
            } else {
                assert(plan[n - 1] == all[i]);
            }
        }
    }
}

/// A replan of the same navigation leaves background work alone unless it wants
/// that very image.
pub proof fn law_same_navigation_keeps_unrelated_background_running(
    m: QueueModel,
    plan: Seq<PlannedJob>,
    i: int,
)
    requires
        !m.closed,
        0 <= i < m.running.len(),
        is_background(m.background_claim, m.running[i]),
        forall|k: int| 0 <= k < plan.len() ==> (#[trigger] plan[k]).0 != m.running[i].id,
    ensures
        planned(m, plan, false).running[i] == m.running[i],
{
    let failures = failures_after(m, plan, false);
    let kept = retained(plan, failures, plan.len() as int);
    let epoch = (m.epoch + 1) as u64;
    lemma_retained_members(plan, failures, plan.len() as int);
    assert forall|k: int| 0 <= k < kept.len() implies (#[trigger] kept[k]).0 != m.running[i].id by {
        let j = choose|j: int|
            0 <= j < plan.len() && plan[j] == kept[k] && !(plan[j].3 == Action::PrefetchFull
                && failures.contains(plan[j].0));
        assert(plan[j].0 != m.running[i].id);
    }
    lemma_wanted_absent(kept, epoch, kept.len() as int, m.running[i].id);
}

/// A navigation change with work to do preempts the background lane.
pub proof fn law_navigation_change_preempts_background(
    m: QueueModel,
    plan: Seq<PlannedJob>,
    i: int,
)
    requires
        !m.closed,
        plan.len() > 0,
        0 <= i < m.running.len(),
        is_background(m.background_claim, m.running[i]),
    ensures
        planned(m, plan, true).running[i].cancelled,
{
}

proof fn lemma_enqueued_from_plan(
    plan: Seq<PlannedJob>,
    running: Seq<Running>,
    want: Map<JobId, QueuedState>,
    epoch: u64,
    seq: int,
    n: int,
)
    requires
        0 <= n <= plan.len(),
    ensures
        forall|i: int|
            0 <= i < enqueue_plan(plan, running, want, epoch, seq, n).heap.len() ==> exists|k: int|
                0 <= k < n && plan[k].0 == (#[trigger] enqueue_plan(
                    plan,
                    running,
                    want,
                    epoch,
                    seq,
                    n,
                ).heap[i]).id && plan[k].3 == enqueue_plan(
                    plan,
                    running,
                    want,
                    epoch,
                    seq,
                    n,
                ).heap[i].action,
    decreases n,
{
    if n > 0 {
        lemma_enqueued_from_plan(plan, running, want, epoch, seq, n - 1);
        let rest = enqueue_plan(plan, running, want, epoch, seq, n - 1);
        let all = enqueue_plan(plan, running, want, epoch, seq, n);
        assert forall|i: int| 0 <= i < all.heap.len() implies exists|k: int|
            0 <= k < n && plan[k].0 == (#[trigger] all.heap[i]).id && plan[k].3
                == all.heap[i].action by {
            if i < rest.heap.len() {
                assert(all.heap[i] == rest.heap[i]);
                let k = choose|k: int|
                    0 <= k < n - 1 && plan[k].0 == rest.heap[i].id && plan[k].3
                        == rest.heap[i].action;
                assert(plan[k].0 == all.heap[i].id);
            } else {
                assert(plan[n - 1].0 == all.heap[i].id);
            }
        }
    }
}

/// Optional Full work that failed is not queued again by replans of the same
/// navigation, unless the same image has become required.
pub proof fn law_failed_speculation_stays_suppressed(
    m: QueueModel,
    plan: Seq<PlannedJob>,
    id: JobId,
)
    requires
        !m.closed,
        m.failures.contains(id),
        !requires_id(plan, plan.len() as int, id),
    ensures
        planned(m, plan, false).failures.contains(id),
        forall|i: int|
            0 <= i < planned(m, plan, false).heap.len() ==> (#[trigger] planned(
                m,
                plan,
                false,
            ).heap[i]).id != id,
{
    let failures = failures_after(m, plan, false);
    let kept = retained(plan, failures, plan.len() as int);
    let epoch = (m.epoch + 1) as u64;
    let want = wanted(kept, epoch, kept.len() as int);
    let running = displace(m.running, m.background_claim, want, false);
    lemma_retained_members(plan, failures, plan.len() as int);
    lemma_enqueued_from_plan(kept, running, want, epoch, m.seq, kept.len() as int);
    let after = planned(m, plan, false);
    assert forall|i: int| 0 <= i < after.heap.len() implies (#[trigger] after.heap[i]).id != id by {
        let k = choose|k: int|
            0 <= k < kept.len() && kept[k].0 == after.heap[i].id && kept[k].3
                == after.heap[i].action;
        let j = choose|j: int|
            0 <= j < plan.len() && plan[j] == kept[k] && !(plan[j].3 == Action::PrefetchFull
                && failures.contains(plan[j].0));
        if plan[j].0 == id {
            assert(requires_id(plan, plan.len() as int, id));
        }
    }
}

/// A navigation change forgives every optional failure.
pub proof fn law_navigation_change_forgives_failures(m: QueueModel, plan: Seq<PlannedJob>)
    requires
        !m.closed,
    ensures
        planned(m, plan, true).failures == Set::<JobId>::empty(),
{
}

/// The job claimed from the heap could run, and no other heap entry that could
/// run comes before it. Equal classes and distances go in arrival order.
pub proof fn law_claims_follow_priority(m: QueueModel)
    requires
        consistent(m),
        !m.closed,
        best_runnable(m, m.heap.len() as int) is Some,
    ensures
        ({
            let best = best_runnable(m, m.heap.len() as int)->0;
            &&& 0 <= best < m.heap.len()
            &&& runnable(m, m.heap[best])
            &&& forall|i: int|
                0 <= i < m.heap.len() && i != best && runnable(m, #[trigger] m.heap[i])
                    ==> m.heap[best].prio.before(m.heap[i].prio)
            &&& claim_queued(m).claim == Some(
                next_claim(m, m.heap[best].id, m.heap[best].action),
            )
        }),
{
    lemma_best_runnable(m, m.heap.len() as int);
    let best = best_runnable(m, m.heap.len() as int)->0;
    assert forall|i: int|
        0 <= i < m.heap.len() && i != best && runnable(
            m,
            #[trigger] m.heap[i],
        ) implies m.heap[best].prio.before(m.heap[i].prio) by {
        if i < best {
            assert(m.heap[i].prio.seq < m.heap[best].prio.seq);
        } else {
            assert(m.heap[best].prio.seq < m.heap[i].prio.seq);
        }
    }
}

/// Background work starts only when neither urgent demand nor the heap has
/// anything that can run, and when no other background job is running.
pub proof fn law_background_yields_to_interactive_work(m: QueueModel)
    requires
        consistent(m),
        m.generation < u64::MAX,
        claim_next(m).model.background_claim is Some,
        m.background_claim is None,
    ensures
        ({
            let outcome = urgent_outcome(m.urgent, seq![], m.running);
            let looked = QueueModel { urgent: outcome.lane, running: outcome.running, ..m };
            &&& outcome.claimed is None
            &&& best_runnable(looked, looked.heap.len() as int) is None
            &&& claim_next(m).claim == claim_next(m).model.background_claim
        }),
{
}

/// Shutdown is final: a closed queue hands out no work, accepts none, and
/// forgets the retries of the jobs that end after it.
pub proof fn law_closed_queue_is_inert(
    m: QueueModel,
    plan: Seq<PlannedJob>,
    changed: bool,
    token: CancelToken,
    completion: JobCompletion,
    available: usize,
)
    requires
        consistent(m),
        m.closed,
    ensures
        claim_next(m) == (ClaimOutcome { model: m, claim: None }),
        planned(m, plan, changed) == m,
        extended(m, plan, plan.len() as int) == m,
        released(m, available) == m,
        !owns_live(m.running, token.id, token.generation),
        finished(m, token, completion).closed,
        finished(m, token, completion).background.len() == 0,
        finished(m, token, completion).deferred.len() == 0,
{
}

/// Whether a claim that was made can no longer publish.
pub open spec fn silenced(m: QueueModel, token: CancelToken) -> bool {
    token.generation <= m.generation && !owns_live(m.running, token.id, token.generation)
}

proof fn lemma_same_jobs_silenced(before: Seq<Running>, after: Seq<Running>, token: CancelToken)
    requires
        same_jobs(before, after),
        !owns_live(before, token.id, token.generation),
    ensures
        !owns_live(after, token.id, token.generation),
{
    if owns_live(after, token.id, token.generation) {
        let i = choose|i: int|
            0 <= i < after.len() && (#[trigger] after[i]).id == token.id && after[i].generation
                == token.generation && !after[i].cancelled;
        assert(before[i].id == token.id);
    }
}

/// Cancellation is permanent: a claim that lost the right to publish, by
/// cancellation or by ending, never regains it, whatever happens to the queue.
pub proof fn law_cancellation_is_permanent(
    m: QueueModel,
    token: CancelToken,
    plan: Seq<PlannedJob>,
    changed: bool,
    other: CancelToken,
    completion: JobCompletion,
)
    requires
        consistent(m),
        has_room(m, plan.len() as int),
        m.generation < u64::MAX,
        silenced(m, token),
    ensures
        silenced(planned(m, plan, changed), token),
        silenced(claim_next(m).model, token),
        silenced(finished(m, other, completion), token),
        silenced(closed(m), token),
{
    law_planned_is_consistent(m, plan, changed);
    lemma_same_jobs_silenced(m.running, planned(m, plan, changed).running, token);
    let outcome = urgent_outcome(m.urgent, seq![], m.running);
    lemma_urgent_outcome(m.urgent, seq![], m.running);
    lemma_same_jobs_silenced(m.running, outcome.running, token);
    let after = claim_next(m).model;
    if !m.closed && owns_live(after.running, token.id, token.generation) {
        let i = choose|i: int|
            0 <= i < after.running.len() && (#[trigger] after.running[i]).id == token.id
                && after.running[i].generation == token.generation && !after.running[i].cancelled;
        if i < outcome.running.len() {
            assert(after.running[i] == outcome.running[i]);
            assert(outcome.running[i].id == token.id);
        }
    }
    let ended = finished(m, other, completion);
    if owns_live(ended.running, token.id, token.generation) {
        lemma_without_members(m.running, other.id, other.generation);
        let i = choose|i: int|
            0 <= i < ended.running.len() && (#[trigger] ended.running[i]).id == token.id
                && ended.running[i].generation == token.generation && !ended.running[i].cancelled;
        assert(m.running.contains(ended.running[i]));
        let k = choose|k: int| 0 <= k < m.running.len() && m.running[k] == ended.running[i];
        assert(m.running[k].id == token.id);
    }
}

proof fn lemma_without_members(running: Seq<Running>, id: JobId, generation: u64)
    ensures
        forall|i: int|
            0 <= i < without_claim(running, id, generation).len() ==> running.contains(
                #[trigger] without_claim(running, id, generation)[i],
            ),
    decreases running.len(),
{
    if running.len() > 0 {
        let rest = running.drop_last();
        lemma_without_members(rest, id, generation);
        let all = without_claim(running, id, generation);
        assert forall|i: int| 0 <= i < all.len() implies running.contains(#[trigger] all[i]) by {
            if running.last().id == id && running.last().generation == generation {
                assert(all[i] == running[i]);
            } else if i < without_claim(rest, id, generation).len() {
                assert(all[i] == without_claim(rest, id, generation)[i]);
                let k = choose|k: int| 0 <= k < rest.len() && rest[k] == all[i];
                assert(running[k] == all[i]);
            } else {
                assert(all[i] == running[running.len() - 1]);
            }
        }
    }
}

/// A background job that was cancelled before it produced anything returns
/// behind the untouched background work, and one rejected by the persistence
/// lane returns only when enough bytes are free.
pub proof fn law_background_obligations_survive(
    m: QueueModel,
    claim: Claim,
    required_bytes: usize,
    available: usize,
)
    requires
        consistent(m),
        !m.closed,
        m.background_claim == Some(claim),
        m.deferred.len() == 0,
    ensures
        finished(m, claim.token(), JobCompletion::RetryBackground).background == m.background.push(
            (claim.id, claim.action),
        ),
        ({
            let parked = finished(m, claim.token(), JobCompletion::DeferBackground { required_bytes });
            &&& parked.background == m.background
            &&& released(parked, available).background == if required_bytes <= available {
                m.background.push((claim.id, claim.action))
            } else {
                m.background
            }
        }),
{
}

// ---------------------------------------------------------------------------
// A run of claims
// ---------------------------------------------------------------------------

/// The queue after `n` claims in a row.
pub open spec fn after_claims(m: QueueModel, n: nat) -> QueueModel
    decreases n,
{
    if n == 0 {
        m
    } else {
        claim_next(after_claims(m, (n - 1) as nat)).model
    }
}

/// Whether the planned job at `first` runs before the one at `second`: by
/// class, then by distance, then by position in the plan.
pub open spec fn comes_first(plan: Seq<PlannedJob>, first: int, second: int) -> bool {
    ||| plan[first].1 < plan[second].1
    ||| plan[first].1 == plan[second].1 && plan[first].2 < plan[second].2
    ||| plan[first].1 == plan[second].1 && plan[first].2 == plan[second].2 && first < second
}

/// Whether `order` lists positions of a plan in the order in which they run.
pub open spec fn in_run_order(plan: Seq<PlannedJob>, order: Seq<int>) -> bool {
    &&& forall|i: int| 0 <= i < order.len() ==> 0 <= #[trigger] order[i] < plan.len()
    &&& forall|i: int, j: int|
        0 <= i < j < order.len() ==> comes_first(plan, #[trigger] order[i], #[trigger] order[j])
}

/// The `i`-th claim of a run from `generation` that follows `order`.
pub open spec fn claim_in_order(
    plan: Seq<PlannedJob>,
    order: Seq<int>,
    generation: int,
    i: int,
) -> Claim {
    Claim {
        id: plan[order[i]].0,
        action: plan[order[i]].3,
        generation: (generation + i + 1) as u64,
    }
}

/// The running job of a claim that was not cancelled.
pub open spec fn live_job(claim: Claim) -> Running {
    Running {
        id: claim.id,
        action: claim.action,
        generation: claim.generation,
        cancelled: false,
    }
}

/// Whether the claims of a queue follow `order` to its end, and each of them is
/// then still live.
pub open spec fn claims_follow(m: QueueModel, plan: Seq<PlannedJob>, order: Seq<int>) -> bool {
    let after = after_claims(m, order.len());
    &&& after.running.len() == order.len()
    &&& forall|i: int|
        0 <= i < order.len() ==> #[trigger] claim_next(after_claims(m, i as nat)).claim == Some(
            claim_in_order(plan, order, m.generation, i),
        )
    &&& forall|i: int|
        0 <= i < order.len() ==> #[trigger] after.running[i] == live_job(
            claim_in_order(plan, order, m.generation, i),
        )
}

spec fn plan_entry(plan: Seq<PlannedJob>, seq: int, epoch: u64, p: int) -> QueuedJob {
    QueuedJob {
        prio: Prio { class: plan[p].1, eff_dist: plan[p].2, seq: (seq + p + 1) as u64 },
        epoch,
        id: plan[p].0,
        action: plan[p].3,
    }
}

spec fn distinct_ids(plan: Seq<PlannedJob>) -> bool {
    forall|i: int, j: int|
        0 <= i < j < plan.len() ==> (#[trigger] plan[i]).0 != (#[trigger] plan[j]).0
}

proof fn lemma_wanted_present(plan: Seq<PlannedJob>, epoch: u64, n: int)
    requires
        0 <= n <= plan.len(),
    ensures
        forall|p: int|
            0 <= p < n ==> wanted(plan, epoch, n).contains_key((#[trigger] plan[p]).0) && wanted(
                plan,
                epoch,
                n,
            )[plan[p].0].epoch == epoch,
    decreases n,
{
    if n > 0 {
        lemma_wanted_present(plan, epoch, n - 1);
    }
}

proof fn lemma_enqueued_while_idle(
    plan: Seq<PlannedJob>,
    running: Seq<Running>,
    want: Map<JobId, QueuedState>,
    epoch: u64,
    seq: int,
    n: int,
)
    requires
        0 <= n <= plan.len(),
        running.len() == 0,
    ensures
        ({
            let a = enqueue_plan(plan, running, want, epoch, seq, n);
            &&& a.heap.len() == n
            &&& a.seq == seq + n
            &&& a.queued == want
            &&& forall|p: int|
                0 <= p < n ==> #[trigger] a.heap[p] == plan_entry(plan, seq, epoch, p)
        }),
    decreases n,
{
    if n > 0 {
        lemma_enqueued_while_idle(plan, running, want, epoch, seq, n - 1);
        let rest = enqueue_plan(plan, running, want, epoch, seq, n - 1);
        let all = enqueue_plan(plan, running, want, epoch, seq, n);
        assert(!runs_compatibly(running, plan[n - 1].0, plan[n - 1].3));
        assert forall|p: int| 0 <= p < n implies #[trigger] all.heap[p] == plan_entry(
            plan,
            seq,
            epoch,
            p,
        ) by {
            if p < n - 1 {
                assert(all.heap[p] == rest.heap[p]);
            }
        }
    }
}

proof fn lemma_heap_after_live(m: QueueModel, best: int, n: int)
    requires
        0 <= n <= m.heap.len(),
        0 <= best < m.heap.len(),
        forall|i: int| 0 <= i < m.heap.len() ==> is_live(m.queued, #[trigger] m.heap[i]),
    ensures
        heap_after(m, Some(best), n) == if best < n {
            m.heap.take(n).remove(best)
        } else {
            m.heap.take(n)
        },
    decreases n,
{
    if n > 0 {
        lemma_heap_after_live(m, best, n - 1);
        assert(is_live(m.queued, m.heap[n - 1]));
        if best < n - 1 {
            assert(m.heap.take(n - 1).remove(best).push(m.heap[n - 1]) =~= m.heap.take(n).remove(
                best,
            ));
        } else if best == n - 1 {
            assert(m.heap.take(n).remove(best) =~= m.heap.take(n - 1));
        } else {
            assert(m.heap.take(n - 1).push(m.heap[n - 1]) =~= m.heap.take(n));
        }
    } else {
        assert(m.heap.take(0) =~= seq![]);
    }
}

/// Whether a heap entry is that of a planned job that comes after everything in
/// `order`.
#[verifier::opaque]
spec fn waits(
    job: QueuedJob,
    plan: Seq<PlannedJob>,
    epoch: u64,
    seq: int,
    order: Seq<int>,
) -> bool {
    let p = job.prio.seq - seq - 1;
    &&& 0 <= p < plan.len()
    &&& job == plan_entry(plan, seq, epoch, p)
    &&& forall|i: int| 0 <= i < order.len() ==> comes_first(plan, #[trigger] order[i], p)
}

/// The state of a run of claims: what was claimed, what is still queued, and
/// that everything claimed comes before everything queued.
spec fn run_state(
    m: QueueModel,
    plan: Seq<PlannedJob>,
    generation: int,
    epoch: u64,
    seq: int,
    order: Seq<int>,
) -> bool {
    &&& !m.closed
    &&& m.urgent.len() == 0
    &&& m.generation == generation + order.len()
    &&& in_run_order(plan, order)
    &&& m.running.len() == order.len()
    &&& forall|i: int|
        0 <= i < order.len() ==> #[trigger] m.running[i] == live_job(
            claim_in_order(plan, order, generation, i),
        )
    &&& m.heap.len() + order.len() == plan.len()
    &&& forall|k: int|
        0 <= k < m.heap.len() ==> waits(#[trigger] m.heap[k], plan, epoch, seq, order) && is_live(
            m.queued,
            m.heap[k],
        )
    &&& forall|j: int, k: int|
        0 <= j < k < m.heap.len() ==> (#[trigger] m.heap[j]).prio.seq < (
        #[trigger] m.heap[k]).prio.seq
}

proof fn lemma_waiting_can_run(
    m: QueueModel,
    plan: Seq<PlannedJob>,
    generation: int,
    epoch: u64,
    seq: int,
    order: Seq<int>,
    k: int,
)
    requires
        run_state(m, plan, generation, epoch, seq, order),
        distinct_ids(plan),
        forall|p: int| 0 <= p < plan.len() ==> (#[trigger] plan[p]).3 != Action::PrefetchFull,
        0 <= k < m.heap.len(),
    ensures
        runnable(m, m.heap[k]),
{
    reveal(waits);
    assert(waits(m.heap[k], plan, epoch, seq, order));
    let p = m.heap[k].prio.seq - seq - 1;
    assert(plan[p].3 != Action::PrefetchFull);
    if is_running(m.running, m.heap[k].id) {
        let i = choose|i: int|
            0 <= i < m.running.len() && (#[trigger] m.running[i]).id == m.heap[k].id;
        let q = order[i];
        assert(m.running[i] == live_job(claim_in_order(plan, order, generation, i)));
        assert(comes_first(plan, q, p));
        assert(plan[q].0 == plan[p].0);
        assert(q != p);
        assert(false);
    }
}

proof fn lemma_still_waits(
    plan: Seq<PlannedJob>,
    epoch: u64,
    seq: int,
    order: Seq<int>,
    chosen: QueuedJob,
    job: QueuedJob,
)
    requires
        waits(chosen, plan, epoch, seq, order),
        waits(job, plan, epoch, seq, order),
        distinct_ids(plan),
        job.prio.seq != chosen.prio.seq,
        !job.prio.before(chosen.prio),
    ensures
        waits(job, plan, epoch, seq, order.push(chosen.prio.seq - seq - 1)),
        job.id != chosen.id,
{
    reveal(waits);
    let position = chosen.prio.seq - seq - 1;
    let p = job.prio.seq - seq - 1;
    let longer = order.push(position);
    if p < position {
        assert(plan[p].0 != plan[position].0);
    } else {
        assert(plan[position].0 != plan[p].0);
    }
    assert(comes_first(plan, position, p));
    assert forall|i: int| 0 <= i < longer.len() implies comes_first(
        plan,
        #[trigger] longer[i],
        p,
    ) by {
        if i < order.len() {
            assert(longer[i] == order[i]);
        }
    }
}

proof fn lemma_longer_run_order(
    plan: Seq<PlannedJob>,
    epoch: u64,
    seq: int,
    order: Seq<int>,
    chosen: QueuedJob,
)
    requires
        in_run_order(plan, order),
        waits(chosen, plan, epoch, seq, order),
    ensures
        in_run_order(plan, order.push(chosen.prio.seq - seq - 1)),
        chosen == plan_entry(plan, seq, epoch, chosen.prio.seq - seq - 1),
{
    reveal(waits);
    let longer = order.push(chosen.prio.seq - seq - 1);
    assert forall|i: int, j: int| 0 <= i < j < longer.len() implies comes_first(
        plan,
        #[trigger] longer[i],
        #[trigger] longer[j],
    ) by {
        assert(longer[i] == order[i]);
        if j < order.len() {
            assert(longer[j] == order[j]);
        }
    }
}

/// What a claim takes from a queue whose heap entries all can run.
proof fn lemma_claim_takes_the_best(m: QueueModel) -> (best: int)
    requires
        !m.closed,
        m.urgent.len() == 0,
        m.heap.len() > 0,
        forall|k: int| 0 <= k < m.heap.len() ==> runnable(m, #[trigger] m.heap[k]),
    ensures
        0 <= best < m.heap.len(),
        forall|k: int|
            0 <= k < m.heap.len() ==> !(#[trigger] m.heap[k]).prio.before(m.heap[best].prio),
        ({
            let job = m.heap[best];
            &&& claim_next(m).claim == Some(next_claim(m, job.id, job.action))
            &&& claim_next(m).model == (QueueModel {
                heap: m.heap.remove(best),
                queued: m.queued.remove(job.id),
                urgent: seq![],
                running: m.running.push(live_job(next_claim(m, job.id, job.action))),
                generation: m.generation + 1,
                ..m
            })
        }),
{
    let n = m.heap.len() as int;
    assert(m.urgent =~= seq![]);
    assert(claim_next(m) == claim_queued(m));
    lemma_best_runnable(m, n);
    assert(runnable(m, m.heap[0]));
    let best = best_runnable(m, n)->0;
    lemma_heap_after_live(m, best, n);
    assert(m.heap.take(n) =~= m.heap);
    best
}

proof fn lemma_rest_still_waits(
    m: QueueModel,
    after: QueueModel,
    plan: Seq<PlannedJob>,
    epoch: u64,
    seq: int,
    order: Seq<int>,
    best: int,
)
    requires
        distinct_ids(plan),
        0 <= best < m.heap.len(),
        forall|k: int|
            0 <= k < m.heap.len() ==> waits(#[trigger] m.heap[k], plan, epoch, seq, order)
                && is_live(m.queued, m.heap[k]) && !m.heap[k].prio.before(m.heap[best].prio),
        forall|j: int, k: int|
            0 <= j < k < m.heap.len() ==> (#[trigger] m.heap[j]).prio.seq < (
            #[trigger] m.heap[k]).prio.seq,
        after.heap == m.heap.remove(best),
        after.queued == m.queued.remove(m.heap[best].id),
    ensures
        forall|k: int|
            0 <= k < after.heap.len() ==> waits(
                #[trigger] after.heap[k],
                plan,
                epoch,
                seq,
                order.push(m.heap[best].prio.seq - seq - 1),
            ) && is_live(after.queued, after.heap[k]),
        forall|j: int, k: int|
            0 <= j < k < after.heap.len() ==> (#[trigger] after.heap[j]).prio.seq < (
            #[trigger] after.heap[k]).prio.seq,
{
    let chosen = m.heap[best];
    assert forall|k: int| 0 <= k < after.heap.len() implies waits(
        #[trigger] after.heap[k],
        plan,
        epoch,
        seq,
        order.push(chosen.prio.seq - seq - 1),
    ) && is_live(after.queued, after.heap[k]) by {
        let from = if k < best {
            k
        } else {
            k + 1
        };
        assert(after.heap[k] == m.heap[from]);
        assert(waits(m.heap[best], plan, epoch, seq, order));
        lemma_still_waits(plan, epoch, seq, order, chosen, m.heap[from]);
    }
    assert forall|j: int, k: int| 0 <= j < k < after.heap.len() implies (
    #[trigger] after.heap[j]).prio.seq < (#[trigger] after.heap[k]).prio.seq by {
        let x = if j < best {
            j
        } else {
            j + 1
        };
        let y = if k < best {
            k
        } else {
            k + 1
        };
        assert(after.heap[j] == m.heap[x]);
        assert(after.heap[k] == m.heap[y]);
    }
}

proof fn lemma_run_step(
    m: QueueModel,
    plan: Seq<PlannedJob>,
    generation: int,
    epoch: u64,
    seq: int,
    order: Seq<int>,
) -> (position: int)
    requires
        run_state(m, plan, generation, epoch, seq, order),
        order.len() < plan.len(),
        distinct_ids(plan),
        forall|p: int| 0 <= p < plan.len() ==> (#[trigger] plan[p]).3 != Action::PrefetchFull,
    ensures
        run_state(claim_next(m).model, plan, generation, epoch, seq, order.push(position)),
        claim_next(m).claim == Some(
            claim_in_order(plan, order.push(position), generation, order.len() as int),
        ),
{
    assert forall|k: int| 0 <= k < m.heap.len() implies runnable(m, #[trigger] m.heap[k]) by {
        lemma_waiting_can_run(m, plan, generation, epoch, seq, order, k);
    }
    let best = lemma_claim_takes_the_best(m);
    let outcome = claim_next(m);
    let chosen = m.heap[best];
    let position = chosen.prio.seq - seq - 1;
    lemma_longer_run_order(plan, epoch, seq, order, chosen);
    lemma_rest_still_waits(m, outcome.model, plan, epoch, seq, order, best);
    lemma_run_goes_on(m, outcome, plan, generation, epoch, seq, order, best);
    position
}

proof fn lemma_run_goes_on(
    m: QueueModel,
    outcome: ClaimOutcome,
    plan: Seq<PlannedJob>,
    generation: int,
    epoch: u64,
    seq: int,
    order: Seq<int>,
    best: int,
)
    requires
        !m.closed,
        m.generation == generation + order.len(),
        m.running.len() == order.len(),
        forall|i: int|
            0 <= i < order.len() ==> #[trigger] m.running[i] == live_job(
                claim_in_order(plan, order, generation, i),
            ),
        m.heap.len() + order.len() == plan.len(),
        0 <= best < m.heap.len(),
        ({
            let job = m.heap[best];
            let position = job.prio.seq - seq - 1;
            let after = outcome.model;
            &&& job == plan_entry(plan, seq, epoch, position)
            &&& in_run_order(plan, order.push(position))
            &&& outcome.claim == Some(next_claim(m, job.id, job.action))
            &&& !after.closed
            &&& after.urgent.len() == 0
            &&& after.generation == m.generation + 1
            &&& after.running == m.running.push(live_job(next_claim(m, job.id, job.action)))
            &&& after.heap.len() == m.heap.len() - 1
            &&& forall|k: int|
                0 <= k < after.heap.len() ==> waits(
                    #[trigger] after.heap[k],
                    plan,
                    epoch,
                    seq,
                    order.push(position),
                ) && is_live(after.queued, after.heap[k])
            &&& forall|j: int, k: int|
                0 <= j < k < after.heap.len() ==> (#[trigger] after.heap[j]).prio.seq < (
                #[trigger] after.heap[k]).prio.seq
        }),
    ensures
        ({
            let longer = order.push(m.heap[best].prio.seq - seq - 1);
            &&& run_state(outcome.model, plan, generation, epoch, seq, longer)
            &&& outcome.claim == Some(
                claim_in_order(plan, longer, generation, order.len() as int),
            )
        }),
{
    let after = outcome.model;
    let longer = order.push(m.heap[best].prio.seq - seq - 1);
    assert forall|i: int| 0 <= i < longer.len() implies #[trigger] after.running[i] == live_job(
        claim_in_order(plan, longer, generation, i),
    ) by {
        if i < order.len() {
            assert(after.running[i] == m.running[i]);
            assert(longer[i] == order[i]);
        }
    }
}

proof fn lemma_run(
    start: QueueModel,
    plan: Seq<PlannedJob>,
    epoch: u64,
    seq: int,
    n: nat,
) -> (order: Seq<int>)
    requires
        run_state(start, plan, start.generation, epoch, seq, seq![]),
        n <= plan.len(),
        distinct_ids(plan),
        forall|p: int| 0 <= p < plan.len() ==> (#[trigger] plan[p]).3 != Action::PrefetchFull,
    ensures
        order.len() == n,
        run_state(after_claims(start, n), plan, start.generation, epoch, seq, order),
        claims_follow(start, plan, order),
    decreases n,
{
    if n == 0 {
        seq![]
    } else {
        let before = lemma_run(start, plan, epoch, seq, (n - 1) as nat);
        let m = after_claims(start, (n - 1) as nat);
        let position = lemma_run_step(m, plan, start.generation, epoch, seq, before);
        let order = before.push(position);
        assert forall|i: int| 0 <= i < order.len() implies #[trigger] claim_next(
            after_claims(start, i as nat),
        ).claim == Some(claim_in_order(plan, order, start.generation, i)) by {
            if i < before.len() {
                assert(order[i] == before[i]);
                assert(claim_next(after_claims(start, i as nat)).claim == Some(
                    claim_in_order(plan, before, start.generation, i),
                ));
            }
        }
        order
    }
}

/// A plan installed in an idle queue is claimed as a whole in priority order:
/// by class, then by distance, then in the order of the plan. Every job comes
/// once, with the action that the plan gave it and a token of its own, and none
/// of them is cancelled.
pub proof fn law_plan_is_claimed_in_priority_order(m: QueueModel, plan: Seq<PlannedJob>)
    requires
        consistent(m),
        !m.closed,
        m.running.len() == 0,
        m.urgent.len() == 0,
        has_room(m, plan.len() as int),
        forall|i: int, j: int|
            0 <= i < j < plan.len() ==> (#[trigger] plan[i]).0 != (#[trigger] plan[j]).0,
        forall|i: int| 0 <= i < plan.len() ==> (#[trigger] plan[i]).3 != Action::PrefetchFull,
    ensures
        exists|order: Seq<int>|
            order.len() == plan.len() && in_run_order(plan, order) && #[trigger] claims_follow(
                planned(m, plan, true),
                plan,
                order,
            ),
{
    let start = planned(m, plan, true);
    let n = plan.len() as int;
    let epoch = (m.epoch + 1) as u64;
    let want = wanted(plan, epoch, n);
    lemma_wanted_present(plan, epoch, n);
    let running = displace(m.running, m.background_claim, want, n > 0);
    lemma_enqueued_while_idle(plan, running, want, epoch, m.seq, n);
    assert forall|k: int| 0 <= k < start.heap.len() implies waits(
        #[trigger] start.heap[k],
        plan,
        epoch,
        m.seq,
        seq![],
    ) && is_live(start.queued, start.heap[k]) by {
        reveal(waits);
        assert(start.heap[k] == plan_entry(plan, m.seq, epoch, k));
        assert(want.contains_key(plan[k].0));
    }
    assert(run_state(start, plan, start.generation, epoch, m.seq, seq![]));
    let order = lemma_run(start, plan, epoch, m.seq, plan.len());
    assert(claims_follow(start, plan, order));
}

// ---------------------------------------------------------------------------
// Lanes
// ---------------------------------------------------------------------------

/// Whether a lane holds optional Full work.
pub open spec fn holds_speculation(lane: Seq<(JobId, Action)>) -> bool {
    exists|i: int| 0 <= i < lane.len() && (#[trigger] lane[i]).1 == Action::PrefetchFull
}

/// Whether optional Full work is running.
pub open spec fn speculates(running: Seq<Running>) -> bool {
    exists|i: int| 0 <= i < running.len() && (#[trigger] running[i]).action == Action::PrefetchFull
}

proof fn lemma_urgent_claim_is_listed(
    lane: Seq<(JobId, Action)>,
    kept: Seq<(JobId, Action)>,
    running: Seq<Running>,
)
    ensures
        urgent_outcome(lane, kept, running).claimed matches Some(job) ==> lane.contains(job),
    decreases lane.len(),
{
    if lane.len() > 0 {
        let (id, action) = lane[0];
        let rest = lane.skip(1);
        let job = urgent_outcome(lane, kept, running).claimed;
        if !is_running(running, id) {
            assert(lane[0] == (id, action));
        } else {
            if runs_exactly(running, id, action) {
                lemma_urgent_claim_is_listed(rest, kept, running);
            } else {
                lemma_urgent_claim_is_listed(
                    rest,
                    kept.push((id, action)),
                    cancel_id(running, id),
                );
            }
            if job is Some {
                let i = choose|i: int| 0 <= i < rest.len() && rest[i] == job->0;
                assert(lane[i + 1] == job->0);
            }
        }
    }
}

proof fn lemma_background_claim_is_listed(
    lane: Seq<(JobId, Action)>,
    kept: Seq<(JobId, Action)>,
    running: Seq<Running>,
)
    ensures
        background_outcome(lane, kept, running).claimed matches Some(job) ==> lane.contains(job),
    decreases lane.len(),
{
    if lane.len() > 0 {
        let rest = lane.skip(1);
        let job = background_outcome(lane, kept, running).claimed;
        if is_running(running, lane[0].0) {
            lemma_background_claim_is_listed(rest, kept.push(lane[0]), running);
            if job is Some {
                let i = choose|i: int| 0 <= i < rest.len() && rest[i] == job->0;
                assert(lane[i + 1] == job->0);
            }
        }
    }
}

proof fn lemma_lanes_hold_what_they_held(
    lane: Seq<(JobId, Action)>,
    kept: Seq<(JobId, Action)>,
    running: Seq<Running>,
)
    requires
        !holds_speculation(lane),
        !holds_speculation(kept),
    ensures
        !holds_speculation(urgent_outcome(lane, kept, running).lane),
        !holds_speculation(background_outcome(lane, kept, running).lane),
    decreases lane.len(),
{
    if lane.len() > 0 {
        let rest = lane.skip(1);
        let longer = kept.push(lane[0]);
        assert(lane[0].1 != Action::PrefetchFull);
        assert(!holds_speculation(rest)) by {
            assert forall|i: int| 0 <= i < rest.len() implies (#[trigger] rest[i]).1
                != Action::PrefetchFull by {
                assert(rest[i] == lane[i + 1]);
            }
        }
        assert(!holds_speculation(longer)) by {
            assert forall|i: int| 0 <= i < longer.len() implies (#[trigger] longer[i]).1
                != Action::PrefetchFull by {
                if i < kept.len() {
                    assert(longer[i] == kept[i]);
                }
            }
        }
        lemma_no_speculation_in_either(rest, kept);
        lemma_lanes_hold_what_they_held(rest, kept, running);
        lemma_lanes_hold_what_they_held(rest, longer, running);
        lemma_lanes_hold_what_they_held(rest, longer, cancel_id(running, lane[0].0));
        assert((lane[0].0, lane[0].1) == lane[0]);
    }
}

proof fn lemma_no_speculation_in_either(a: Seq<(JobId, Action)>, b: Seq<(JobId, Action)>)
    requires
        !holds_speculation(a),
        !holds_speculation(b),
    ensures
        !holds_speculation(a + b),
{
    assert forall|i: int| 0 <= i < (a + b).len() implies (#[trigger] (a + b)[i]).1
        != Action::PrefetchFull by {
        if i < a.len() {
            assert((a + b)[i] == a[i]);
        } else {
            assert((a + b)[i] == b[i - a.len()]);
        }
    }
}

/// Whether optional Full work is left to the plan: no other lane holds it, and no
/// background job is it.
pub open spec fn lanes_are_plain(m: QueueModel) -> bool {
    &&& !holds_speculation(m.urgent)
    &&& !holds_speculation(m.background)
    &&& forall|i: int|
        0 <= i < m.deferred.len() ==> (#[trigger] m.deferred[i]).action != Action::PrefetchFull
    &&& m.background_claim matches Some(claim) ==> claim.action != Action::PrefetchFull
}

proof fn lemma_pushed_lane(lane: Seq<(JobId, Action)>, job: (JobId, Action))
    requires
        !holds_speculation(lane),
        job.1 != Action::PrefetchFull,
    ensures
        !holds_speculation(lane.push(job)),
{
    let longer = lane.push(job);
    assert forall|i: int| 0 <= i < longer.len() implies (#[trigger] longer[i]).1
        != Action::PrefetchFull by {
        if i < lane.len() {
            assert(longer[i] == lane[i]);
        }
    }
}

/// Demand and warm work without optional Full work keep the lanes plain.
pub proof fn law_plain_jobs_keep_the_lanes_plain(m: QueueModel, jobs: Seq<(JobId, Action)>)
    requires
        lanes_are_plain(m),
        !holds_speculation(jobs),
    ensures
        !holds_speculation(m.background + jobs),
        !holds_speculation(urgent_lane(m.running, jobs, jobs.len() as int)),
{
    lemma_no_speculation_in_either(m.background, jobs);
    lemma_urgent_lane_is_plain(m.running, jobs, jobs.len() as int);
}

proof fn lemma_urgent_lane_is_plain(
    running: Seq<Running>,
    jobs: Seq<(JobId, Action)>,
    n: int,
)
    requires
        !holds_speculation(jobs),
        n <= jobs.len(),
    ensures
        !holds_speculation(urgent_lane(running, jobs, n)),
    decreases n,
{
    if n > 0 {
        lemma_urgent_lane_is_plain(running, jobs, n - 1);
        assert(jobs[n - 1].1 != Action::PrefetchFull);
        lemma_pushed_lane(urgent_lane(running, jobs, n - 1), jobs[n - 1]);
    }
}

/// Lanes that are plain stay so: plans, appended jobs, claims, ends, releases and
/// shutdown put no optional Full work into any lane but that of the plan.
pub proof fn law_lanes_stay_plain(
    m: QueueModel,
    plan: Seq<PlannedJob>,
    changed: bool,
    n: int,
    token: CancelToken,
    completion: JobCompletion,
    available: usize,
)
    requires
        lanes_are_plain(m),
        0 <= n <= plan.len(),
    ensures
        lanes_are_plain(planned(m, plan, changed)),
        lanes_are_plain(extended(m, plan, n)),
        lanes_are_plain(claim_next(m).model),
        lanes_are_plain(finished(m, token, completion)),
        lanes_are_plain(released(m, available)),
        lanes_are_plain(closed(m)),
{
    lemma_extended_keeps_the_lanes(m, plan, n);
    let outcome = urgent_outcome(m.urgent, seq![], m.running);
    lemma_lanes_hold_what_they_held(m.urgent, seq![], m.running);
    lemma_lanes_hold_what_they_held(m.background, seq![], outcome.running);
    lemma_background_claim_is_listed(m.background, seq![], outcome.running);
    if let Some(job) = background_outcome(m.background, seq![], outcome.running).claimed {
        let i = choose|i: int| 0 <= i < m.background.len() && m.background[i] == job;
        assert(m.background[i].1 == job.1);
    }
    if let Some(claim) = m.background_claim {
        lemma_pushed_lane(m.background, (token.id, claim.action));
    }
    if m.deferred.len() > 0 {
        assert(m.deferred[0].action != Action::PrefetchFull);
        lemma_pushed_lane(m.background, (m.deferred[0].id, m.deferred[0].action));
    }
}

pub(crate) proof fn lemma_extended_keeps_the_lanes(m: QueueModel, jobs: Seq<PlannedJob>, n: int)
    ensures
        ({
            let after = extended(m, jobs, n);
            &&& after.urgent == m.urgent
            &&& after.background == m.background
            &&& after.deferred == m.deferred
            &&& after.background_claim == m.background_claim
        }),
    decreases n,
{
    if !m.closed && n > 0 {
        lemma_extended_keeps_the_lanes(m, jobs, n - 1);
    }
}

/// A claim never starts a job beside one that bars it: its identity was not
/// running and is live afterwards; optional Full work that the plan asked for
/// starts only where none is running; background work starts only where none is
/// running; and without parallel lanes neither of the two starts beside the
/// other. The urgent lane holds no optional Full work; where the background lane
/// holds none either, all of it is work that the plan asked for.
pub proof fn law_claims_keep_the_lanes_apart(m: QueueModel)
    requires
        consistent(m),
        m.generation < u64::MAX,
        !holds_speculation(m.urgent),
    ensures
        ({
            let after = claim_next(m).model;
            claim_next(m).claim matches Some(claim) ==> {
                let planned = after.background_claim == m.background_claim;
                &&& !is_running(m.running, claim.id)
                &&& owns_live(after.running, claim.id, claim.generation)
                &&& claim.action == Action::PrefetchFull && planned ==> !speculates(m.running) && (
                m.parallel || m.background_claim is None)
                &&& claim.action == Action::PrefetchFull && !holds_speculation(m.background)
                    ==> planned
                &&& !planned ==> m.background_claim is None && after.background_claim == Some(claim)
                    && (m.parallel || !speculates(m.running))
            }
        }),
{
    if !m.closed {
        law_claim_is_consistent(m);
        let outcome = urgent_outcome(m.urgent, seq![], m.running);
        lemma_urgent_outcome(m.urgent, seq![], m.running);
        lemma_urgent_claim_is_listed(m.urgent, seq![], m.running);
        let looked = QueueModel { urgent: outcome.lane, running: outcome.running, ..m };
        let after = claim_next(m).model;
        assert(speculates(m.running) ==> speculative_active(outcome.running)) by {
            if speculates(m.running) {
                let i = choose|i: int|
                    0 <= i < m.running.len() && (#[trigger] m.running[i]).action
                        == Action::PrefetchFull;
                assert(outcome.running[i].action == Action::PrefetchFull);
            }
        }
        if let Some(claim) = claim_next(m).claim {
            if let Some((id, action)) = outcome.claimed {
                assert(action != Action::PrefetchFull) by {
                    let i = choose|i: int| 0 <= i < m.urgent.len() && m.urgent[i] == (id, action);
                    assert(m.urgent[i].1 == action);
                }
            } else {
                let n = looked.heap.len() as int;
                lemma_best_runnable(looked, n);
                if best_runnable(looked, n) is None {
                    lemma_background_claim_is_listed(m.background, seq![], outcome.running);
                    let job = background_outcome(m.background, seq![], outcome.running).claimed->0;
                    let i = choose|i: int| 0 <= i < m.background.len() && m.background[i] == job;
                    assert(m.background[i].1 == job.1);
                }
            }
            let last = after.running.len() - 1;
            assert(after.running[last].id == claim.id && after.running[last].generation
                == claim.generation && !after.running[last].cancelled);
        }
    }
}

} // verus!
