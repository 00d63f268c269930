//! The engine's state: both job queues, the persistence lane and the display
//! order, with the operations that the UI drives.
//!
//! Threads, channels and caches are the caller's. A navigation therefore has
//! two halves: the first says what to pin and what to render, the second turns
//! what the caches hold of it into jobs.

use std::collections::HashMap;

use vstd::prelude::*;

use crate::jobs::ids::{IdMap, JobId};
use crate::jobs::navigation::{
    ascends, background_metadata_jobs, background_warm_jobs, desired_full_entries,
    lemma_orders_name_images_once, navigation_jobs, navigation_pins, quality_for, CacheFacts,
    NavState, NavigationOrder,
};
use crate::jobs::persistence::PersistenceQueue;
use crate::jobs::queue::{Action, JobQueue, PlannedJob};
use crate::planning::coverage::{is_left_of, law_normalization_keeps_first_occurrences};
use crate::planning::{
    build_plan_targets, build_plan_targets_with_full_prefetch,
    build_plan_targets_with_normalized_prefetch, lemma_normalized_fixed, BrowsePrefetchBudget,
    FullPrefetchBudget, NavigationPrefetchBudgets, PlanKind, PlanTarget,
};
use crate::types::Tier;

verus! {

/// Workers of the heavy queue.
pub const HEAVY_WORKERS: usize = 3;

/// Workers of the light queue.
pub const LIGHT_WORKERS: usize = 2;

/// Default JPEG quality used by persistent Browse and Full renders.
pub const CACHE_JPEG_QUALITY: u8 = 97;

/// Lowest cache JPEG quality exposed by the application preference.
pub const MIN_CACHE_JPEG_QUALITY: u8 = 80;

/// Highest cache JPEG quality exposed by the application preference.
pub const MAX_CACHE_JPEG_QUALITY: u8 = 100;

/// Most workers of the JPEG pool.
pub const MAX_JPEG_WORKERS: usize = 10;

/// The processing threads of a limit, where zero means automatic.
pub open spec fn resolved_threads(limit: int, available: int) -> int {
    let host = if available < 1 {
        1
    } else {
        available
    };
    if limit == 0 || limit > host {
        host
    } else {
        limit
    }
}

/// Resolves zero-as-automatic or a fixed processing-thread limit against the
/// available logical CPU capacity.
///
/// A fixed limit is a ceiling rather than a request to oversubscribe the host.
/// At least one thread is always returned.
pub fn resolve_worker_threads_for_available(limit: usize, available: usize) -> (threads: usize)
    ensures
        threads == resolved_threads(limit as int, available as int),
        threads >= 1,
{
    let available: usize = if available < 1 {
        1
    } else {
        available
    };
    if limit == 0 {
        available
    } else if limit < available {
        limit
    } else {
        available
    }
}

/// The workers of the JPEG pool on a host: at least one, and no more than pay
/// off.
pub open spec fn jpeg_worker_count(available: int) -> int {
    if available < 1 {
        1
    } else if available > MAX_JPEG_WORKERS {
        MAX_JPEG_WORKERS as int
    } else {
        available
    }
}

/// The workers of the JPEG pool on a host.
pub fn jpeg_workers(available: usize) -> (workers: usize)
    ensures
        workers == jpeg_worker_count(available as int),
{
    if available < 1 {
        1
    } else if available > MAX_JPEG_WORKERS {
        MAX_JPEG_WORKERS
    } else {
        available
    }
}

/// Returns the default production persistence quality for a benchmark tier.
pub fn benchmark_jpeg_quality(_tier: Tier) -> (quality: u8)
    ensures
        quality == CACHE_JPEG_QUALITY,
{
    CACHE_JPEG_QUALITY
}

/// Construction options for an image-processing [`Engine`].
#[derive(Debug, Clone, Copy, PartialEq, Eq)]
pub struct EngineOptions {
    jpeg_quality: u8,
    worker_threads: Option<usize>,
}

/// A quality moved into the range that the application exposes.
pub open spec fn clamped_quality(quality: u8) -> u8 {
    if quality < MIN_CACHE_JPEG_QUALITY {
        MIN_CACHE_JPEG_QUALITY
    } else if quality > MAX_CACHE_JPEG_QUALITY {
        MAX_CACHE_JPEG_QUALITY
    } else {
        quality
    }
}

impl Default for EngineOptions {
    fn default() -> (options: Self)
        ensures
            options.quality() == CACHE_JPEG_QUALITY,
            options.threads() is None,
    {
        EngineOptions { jpeg_quality: CACHE_JPEG_QUALITY, worker_threads: None }
    }
}

impl EngineOptions {
    /// The persistent-cache JPEG quality.
    pub closed spec fn quality(self) -> u8 {
        self.jpeg_quality
    }

    /// The processing threads, or `None` in automatic mode.
    pub closed spec fn threads(self) -> Option<usize> {
        self.worker_threads
    }

    /// Selects the persistent-cache JPEG quality.
    ///
    /// Values outside the supported application range are clamped.
    #[must_use]
    pub fn with_jpeg_quality(self, jpeg_quality: u8) -> (options: Self)
        ensures
            options.quality() == clamped_quality(jpeg_quality),
            options.threads() == self.threads(),
    {
        let quality: u8 = if jpeg_quality < MIN_CACHE_JPEG_QUALITY {
            MIN_CACHE_JPEG_QUALITY
        } else if jpeg_quality > MAX_CACHE_JPEG_QUALITY {
            MAX_CACHE_JPEG_QUALITY
        } else {
            jpeg_quality
        };
        EngineOptions { jpeg_quality: quality, worker_threads: self.worker_threads }
    }

    /// Selects the number of CPU-heavy image-processing workers, out of the
    /// `available` logical CPUs.
    ///
    /// This also brings cache JPEG encoding under the same strict limit. It
    /// does not count the UI/render thread or lightweight queue, metadata,
    /// database/update, and disk-cache persistence/maintenance service threads.
    #[must_use]
    pub fn with_worker_threads(self, worker_threads: usize, available: usize) -> (options: Self)
        ensures
            options.quality() == self.quality(),
            options.threads() == Some(
                resolved_threads(worker_threads as int, available as int) as usize,
            ),
    {
        EngineOptions {
            jpeg_quality: self.jpeg_quality,
            worker_threads: Some(resolve_worker_threads_for_available(worker_threads, available)),
        }
    }

    /// Returns the persistent-cache JPEG quality.
    pub fn jpeg_quality(&self) -> (quality: u8)
        ensures
            quality == self.quality(),
    {
        self.jpeg_quality
    }

    /// Returns the processing threads, or `None` in automatic mode.
    pub fn worker_threads(&self) -> (threads: Option<usize>)
        ensures
            threads == self.threads(),
    {
        self.worker_threads
    }

    /// Whether background and speculative work may run side by side: there are
    /// enough workers to keep one for foreground work.
    pub open spec fn parallel_lanes(self) -> bool {
        match self.threads() {
            Some(threads) => threads >= HEAVY_WORKERS,
            None => true,
        }
    }

    fn parallel_background_lanes(&self) -> (parallel: bool)
        ensures
            parallel == self.parallel_lanes(),
    {
        match self.worker_threads {
            Some(threads) => threads >= HEAVY_WORKERS,
            None => true,
        }
    }
}

/// The first half of a navigation: what the caches should pin and keep, and
/// what to render.
pub struct NavigationRequest {
    /// The normalized navigation state.
    pub nav: NavState,
    /// Whether it differs from the last one planned against this order.
    pub changed: bool,
    /// Cache entries to pin.
    pub pins: Vec<JobId>,
    /// Full-resolution entries to keep.
    pub desired: Vec<JobId>,
    /// Renders that the navigation wants, in plan order.
    pub targets: Vec<PlanTarget>,
}

/// Scheduling state of prioritized RAW, thumbnail, and cache work.
///
/// The folder is immutable for the engine's lifetime, making its indices stable
/// across events and cache keys. Interactive navigation plans replace one
/// another, viewport thumbnail demand is replaceable, and folder-wide Browse
/// warming occupies a persistent lowest-priority lane.
pub struct Engine {
    /// Number of folder entries.
    pub len: usize,
    /// Whether a disk cache is configured.
    pub disk: bool,
    /// Persistent-cache JPEG quality.
    pub jpeg_quality: u8,
    /// Development, rehydration and warming.
    pub heavy: JobQueue,
    /// Metadata and thumbnails.
    pub light: JobQueue,
    /// JPEG encoding and persistence.
    pub persistence: PersistenceQueue,
    /// Display order and its last navigation.
    pub navigation: NavigationOrder,
    /// Full entries whose disk object was observed without loading it.
    pub known_present: IdMap<()>,
}

/// The thumbnail jobs of the first `n` demanded indices that are in the folder.
pub open spec fn thumbnail_demand(len: nat, indices: Seq<usize>, n: int) -> Seq<(JobId, Action)>
    decreases n,
{
    if n <= 0 {
        seq![]
    } else {
        let rest = thumbnail_demand(len, indices, n - 1);
        if indices[n - 1] < len {
            rest.push(((indices[n - 1], Tier::Thumb), Action::Thumb))
        } else {
            rest
        }
    }
}

impl Engine {
    /// Whether every part is consistent, optional Full work comes from navigation
    /// plans alone, and the display order names images of the folder only.
    pub open spec fn wf(&self) -> bool {
        &&& self.heavy.wf()
        &&& self.light.wf()
        &&& crate::jobs::queue::lanes_are_plain(self.heavy@)
        &&& crate::jobs::queue::lanes_are_plain(self.light@)
        &&& self.persistence.wf()
        &&& self.navigation.wf()
        &&& crate::planning::valid_order(self.len as nat, self.navigation@.indices)
    }

    /// Whether this is the state of a folder that was just opened: the outward
    /// metadata wave from `start` is queued, and nothing else.
    pub open spec fn is_new(
        &self,
        len: usize,
        start: usize,
        disk: bool,
        quality: u8,
        parallel_lanes: bool,
    ) -> bool {
        let jobs = crate::jobs::navigation::metadata_jobs(
            crate::jobs::navigation::folder_outward(len as nat, start as int),
        );
        &&& self.wf()
        &&& self.len == len
        &&& self.disk == disk
        &&& self.jpeg_quality == quality
        &&& self.heavy@ == crate::jobs::queue::empty_queue(parallel_lanes)
        &&& self.light@ == crate::jobs::queue::extended(
            crate::jobs::queue::empty_queue(true),
            jobs,
            jobs.len() as int,
        )
        &&& self.persistence@.pending.len() == 0
        &&& self.persistence@.active is None
        &&& !self.persistence@.closed
        &&& self.persistence@.budget == crate::jobs::persistence::PERSIST_PENDING_BUDGET_BYTES
        &&& self.navigation@.indices.len() == 0
        &&& self.navigation@.last_nav is None
        &&& self.known_present@ == Map::<JobId, ()>::empty()
    }

    /// Creates the state of a folder with default options.
    pub fn new(len: usize, start: usize, disk: bool) -> (engine: Self)
        ensures
            engine.is_new(len, start, disk, CACHE_JPEG_QUALITY, true),
    {
        Self::new_with_options(len, start, disk, EngineOptions::default())
    }

    /// Creates the state of a folder with a selected persistent-cache JPEG
    /// quality. Values outside the supported application range are clamped.
    pub fn new_with_jpeg_quality(len: usize, start: usize, disk: bool, jpeg_quality: u8) -> (engine:
        Self)
        ensures
            engine.is_new(len, start, disk, clamped_quality(jpeg_quality), true),
    {
        let options = EngineOptions::default().with_jpeg_quality(jpeg_quality);
        Self::new_with_options(len, start, disk, options)
    }

    /// Creates the state of a folder and queues the outward metadata wave from
    /// `start`; preview pixels remain demand-driven.
    pub fn new_with_options(
        len: usize,
        start: usize,
        disk: bool,
        options: EngineOptions,
    ) -> (engine: Self)
        ensures
            engine.is_new(len, start, disk, options.quality(), options.parallel_lanes()),
    {
        let mut light = JobQueue::new();
        let jobs = background_metadata_jobs(len, start);
        let count: usize = jobs.len();
        assert(count <= u64::MAX);
        proof {
            crate::jobs::queue::lemma_extended_keeps_the_lanes(
                light@,
                jobs@,
                jobs@.len() as int,
            );
        }
        light.extend(jobs);
        Engine {
            len,
            disk,
            jpeg_quality: options.jpeg_quality(),
            heavy: JobQueue::new_with_parallel_background_lanes(
                options.parallel_background_lanes(),
            ),
            light,
            persistence: PersistenceQueue::new(),
            navigation: NavigationOrder::new(),
            known_present: IdMap::new(),
        }
    }

    /// Plans a navigation against the current display order. Current and
    /// immediate visible neighbors are always requested and pinned at Full
    /// resolution; farther Full renders grow to the dedicated ring's byte
    /// budget. Returns `None` for an empty folder.
    pub fn navigate(&mut self, nav: NavState, budgets: &NavigationPrefetchBudgets) -> (request:
        Option<NavigationRequest>)
        requires
            old(self).wf(),
        ensures
            final(self).wf(),
            final(self).len == old(self).len,
            final(self).disk == old(self).disk,
            final(self).jpeg_quality == old(self).jpeg_quality,
            final(self).heavy == old(self).heavy,
            final(self).light == old(self).light,
            final(self).persistence == old(self).persistence,
            final(self).known_present == old(self).known_present,
            match request {
                None => old(self).len == 0 && final(self).navigation@ == old(self).navigation@,
                Some(request) => {
                    let order = old(self).navigation@;
                    let state = crate::jobs::navigation::normalized_nav(old(self).len as nat, nav);
                    let origin = crate::planning::origin_of(state.current as int, order.indices);
                    &&& old(self).len > 0
                    &&& final(self).navigation@ == (crate::jobs::navigation::OrderModel {
                        last_nav: Some(state),
                        ..order
                    })
                    &&& request.nav == state
                    &&& request.changed == (order.last_nav != Some(state))
                    &&& request.pins@ == crate::jobs::navigation::pins(
                        old(self).len as nat,
                        state.current as int,
                        origin,
                        order.indices,
                    )
                    &&& request.targets@ == crate::planning::adaptive_plan(
                        old(self).len as nat,
                        state.current as int,
                        origin,
                        state.direction >= 0,
                        state.zoomed,
                        order.indices,
                        budgets.full_model(),
                        budgets.browse_model(),
                        false,
                    )
                    &&& request.desired@ == crate::jobs::navigation::desired_full(
                        request.targets@,
                        request.targets@.len() as int,
                    )
                },
            },
    {
        if self.len == 0 {
            return None;
        }
        let state = nav.normalize(self.len);
        let changed: bool = self.navigation.update_navigation(state);
        let position: usize = self.navigation.current_position(state.current);
        proof {
            crate::planning::lemma_origin_in_order(
                self.len as nat,
                state.current as int,
                self.navigation@.indices,
            );
        }
        let pins = navigation_pins(self.len, state.current, position, self.navigation.indices());
        let targets = build_plan_targets_with_normalized_prefetch(
            self.len,
            state.current,
            state.direction,
            state.zoomed,
            (self.navigation.indices(), position),
            budgets,
            false,
        );
        let desired = desired_full_entries(&targets);
        Some(NavigationRequest { nav: state, changed, pins, desired, targets })
    }

    /// Synchronizes the heavy queue with a planned navigation, given what the
    /// caches hold of each target once its pins and desired entries were
    /// installed. The first call with a disk cache also installs the one-shot
    /// folder-wide Browse warm lane.
    pub fn apply_navigation(&mut self, request: NavigationRequest, facts: Vec<CacheFacts>)
        requires
            old(self).wf(),
            facts@.len() == request.targets@.len(),
            crate::jobs::queue::has_room(old(self).heavy@, request.targets@.len() as int),
        ensures
            final(self).wf(),
            final(self).len == old(self).len,
            final(self).disk == old(self).disk,
            final(self).jpeg_quality == old(self).jpeg_quality,
            final(self).light == old(self).light,
            final(self).persistence == old(self).persistence,
            final(self).navigation == old(self).navigation,
            final(self).known_present == old(self).known_present,
            ({
                let jobs = crate::jobs::navigation::target_jobs(
                    request.targets@,
                    facts@,
                    old(self).disk,
                    request.targets@.len() as int,
                );
                let replanned = crate::jobs::queue::planned(
                    old(self).heavy@,
                    jobs,
                    request.changed,
                );
                final(self).heavy@ == if old(self).disk && !replanned.closed
                    && !replanned.background_initialized {
                    crate::jobs::queue::QueueModel {
                        background: replanned.background + crate::jobs::navigation::warm_jobs(
                            crate::jobs::navigation::folder_outward(
                                old(self).len as nat,
                                request.nav.current as int,
                            ),
                        ),
                        background_initialized: true,
                        ..replanned
                    }
                } else {
                    replanned
                }
            }),
    {
        let jobs = navigation_jobs(&request.targets, &facts, self.disk);
        self.heavy.set_plan(jobs, request.changed);
        if self.disk && !self.heavy.background_initialized() {
            let warm = background_warm_jobs(self.len, request.nav.current);
            proof {
                assert(!crate::jobs::queue::holds_speculation(warm@));
                crate::jobs::queue::law_plain_jobs_keep_the_lanes_plain(self.heavy@, warm@);
            }
            let _ = self.heavy.initialize_background(warm);
        }
    }

    /// Sets the display order followed by navigation and pinning.
    ///
    /// An empty vector restores identity order. This call removes out-of-range
    /// entries and later duplicates once; later navigation replans reuse the
    /// normalized order.
    pub fn set_sequence(&mut self, sequence: Vec<usize>)
        requires
            old(self).wf(),
        ensures
            final(self).wf(),
            final(self).len == old(self).len,
            final(self).disk == old(self).disk,
            final(self).jpeg_quality == old(self).jpeg_quality,
            final(self).heavy == old(self).heavy,
            final(self).light == old(self).light,
            final(self).persistence == old(self).persistence,
            final(self).known_present == old(self).known_present,
            final(self).navigation@ == (crate::jobs::navigation::OrderModel {
                indices: crate::planning::normalized(old(self).len as nat, sequence@),
                last_nav: None,
            }),
    {
        proof {
            crate::planning::lemma_normalized(self.len as nat, sequence@);
        }
        self.navigation.replace_indices(self.len, sequence);
    }

    /// Replace the thumbnail viewport demand lane. It is intentionally
    /// separate from the folder-wide metadata wave so rapid scrolling drops
    /// stale urgency. Claiming a thumbnail displaces queued metadata for that
    /// file because the thumbnail decode returns the same metadata.
    ///
    /// Invalid indices and duplicates are discarded. Returns `false` only
    /// after shutdown has closed the light-work queue.
    pub fn set_thumbnail_demand(&mut self, indices: &[usize]) -> (accepted: bool)
        requires
            old(self).wf(),
        ensures
            final(self).wf(),
            final(self).len == old(self).len,
            final(self).disk == old(self).disk,
            final(self).jpeg_quality == old(self).jpeg_quality,
            final(self).heavy == old(self).heavy,
            final(self).persistence == old(self).persistence,
            final(self).navigation == old(self).navigation,
            final(self).known_present == old(self).known_present,
            accepted == !old(self).light@.closed,
            ({
                let demand = thumbnail_demand(
                    old(self).len as nat,
                    indices@,
                    indices@.len() as int,
                );
                final(self).light@ == if accepted {
                    crate::jobs::queue::QueueModel {
                        urgent: crate::jobs::queue::urgent_lane(
                            old(self).light@.running,
                            demand,
                            demand.len() as int,
                        ),
                        ..old(self).light@
                    }
                } else {
                    old(self).light@
                }
            }),
    {
        let mut jobs: Vec<(JobId, Action)> = Vec::new();
        let mut i: usize = 0;
        while i < indices.len()
            invariant
                i <= indices@.len(),
                jobs@ == thumbnail_demand(self.len as nat, indices@, i as int),
                !crate::jobs::queue::holds_speculation(jobs@),
            decreases indices@.len() - i,
        {
            let index: usize = indices[i];
            if index < self.len {
                jobs.push(((index, Tier::Thumb), Action::Thumb));
            }
            i += 1;
        }
        proof {
            crate::jobs::queue::law_plain_jobs_keep_the_lanes_plain(self.light@, jobs@);
        }
        self.light.set_urgent(jobs)
    }

    /// Shuts both job queues down. The persistence lane is closed by
    /// [`close_persistence`](Self::close_persistence) once the workers ended.
    pub fn close(&mut self)
        requires
            old(self).wf(),
        ensures
            final(self).wf(),
            final(self).heavy@ == crate::jobs::queue::closed(old(self).heavy@),
            final(self).light@ == crate::jobs::queue::closed(old(self).light@),
            final(self).persistence == old(self).persistence,
            final(self).navigation == old(self).navigation,
            final(self).len == old(self).len,
    {
        self.heavy.close();
        self.light.close();
    }

    /// Stops accepting persistence requests; accepted ones can be drained.
    pub fn close_persistence(&mut self)
        requires
            old(self).wf(),
        ensures
            final(self).wf(),
            final(self).persistence@ == (crate::jobs::persistence::PersistenceModel {
                closed: true,
                ..old(self).persistence@
            }),
            final(self).heavy == old(self).heavy,
            final(self).light == old(self).light,
            final(self).navigation == old(self).navigation,
            final(self).len == old(self).len,
    {
        self.persistence.close();
    }
}

// ---------------------------------------------------------------------------
// Benchmark fixtures
// ---------------------------------------------------------------------------

/// Metadata queue without decoder threads.
pub struct BenchmarkMetadataQueue {
    queue: JobQueue,
}

/// The metadata jobs of the first `n` indices in identity order.
pub open spec fn identity_metadata(n: int) -> Seq<PlannedJob> {
    Seq::new(
        n as nat,
        |i: int|
            (
                (i as usize, Tier::Thumb),
                5u8,
                crate::planning::clamp_u32(i) as u32,
                Action::Metadata,
            ),
    )
}

impl BenchmarkMetadataQueue {
    /// The queue.
    pub closed spec fn queue(&self) -> crate::jobs::queue::QueueModel {
        self.queue@
    }

    /// Builds the production metadata queue without starting decoder threads.
    pub fn new(len: usize) -> (fixture: Self)
        ensures
            fixture.queue() == crate::jobs::queue::extended(
                crate::jobs::queue::empty_queue(true),
                identity_metadata(len as int),
                len as int,
            ),
    {
        let mut jobs: Vec<PlannedJob> = Vec::new();
        let mut index: usize = 0;
        while index < len
            invariant
                index <= len,
                jobs@ =~= identity_metadata(index as int),
            decreases len - index,
        {
            let distance: u32 = if index > u32::MAX as usize {
                u32::MAX
            } else {
                index as u32
            };
            jobs.push(((index, Tier::Thumb), 5, distance, Action::Metadata));
            index += 1;
        }
        let mut queue = JobQueue::new();
        queue.extend(jobs);
        BenchmarkMetadataQueue { queue }
    }

    /// Returns the number of jobs retained by the production queue.
    pub fn resident_jobs(&self) -> (jobs: usize)
        ensures
            jobs == self.queue().heap.len(),
    {
        self.queue.resident_jobs()
    }
}

proof fn lemma_extended_heap(m: crate::jobs::queue::QueueModel, jobs: Seq<PlannedJob>, n: int)
    requires
        !m.closed,
        0 <= n <= jobs.len(),
    ensures
        crate::jobs::queue::extended(m, jobs, n).heap.len() == m.heap.len() + n,
    decreases n,
{
    if n > 0 {
        lemma_extended_heap(m, jobs, n - 1);
    }
}

/// The metadata queue retains one job per folder entry.
pub proof fn law_metadata_queue_is_complete(len: nat)
    requires
        len <= usize::MAX,
    ensures
        crate::jobs::queue::extended(
            crate::jobs::queue::empty_queue(true),
            identity_metadata(len as int),
            len as int,
        ).heap.len() == len,
{
    lemma_extended_heap(
        crate::jobs::queue::empty_queue(true),
        identity_metadata(len as int),
        len as int,
    );
}

/// Priority-queue synchronization isolated from decoder threads.
pub struct BenchmarkNavigationQueue {
    queue: JobQueue,
    len: usize,
    budgets: NavigationPrefetchBudgets,
    order: NavigationOrder,
}

/// The job that the fixture queues for a target, if any: everything visible is
/// developed.
pub open spec fn fixture_job(target: PlanTarget, prefetch: bool) -> Option<PlannedJob> {
    let id = (target.index, target.tier);
    match target.kind {
        PlanKind::Display => Some(
            (
                id,
                target.class,
                target.effective_distance,
                Action::Develop(crate::jobs::navigation::tier_quality(target.tier)),
            ),
        ),
        PlanKind::Prefetch => if prefetch {
            Some((id, target.class, target.effective_distance, Action::PrefetchFull))
        } else {
            None
        },
        PlanKind::Warm => None,
    }
}

/// The jobs that the fixture queues for the first `n` targets.
pub open spec fn fixture_jobs(targets: Seq<PlanTarget>, prefetch: bool, n: int) -> Seq<PlannedJob>
    decreases n,
{
    if n <= 0 {
        seq![]
    } else {
        let rest = fixture_jobs(targets, prefetch, n - 1);
        match fixture_job(targets[n - 1], prefetch) {
            Some(job) => rest.push(job),
            None => rest,
        }
    }
}

fn collect_fixture_jobs(targets: Vec<PlanTarget>, prefetch: bool) -> (jobs: Vec<PlannedJob>)
    ensures
        jobs@ == fixture_jobs(targets@, prefetch, targets@.len() as int),
        jobs@.len() <= targets@.len(),
{
    let mut jobs: Vec<PlannedJob> = Vec::new();
    let mut i: usize = 0;
    while i < targets.len()
        invariant
            i <= targets@.len(),
            jobs@ == fixture_jobs(targets@, prefetch, i as int),
            jobs@.len() <= i,
        decreases targets@.len() - i,
    {
        let target: PlanTarget = targets[i];
        let id: JobId = (target.index, target.tier);
        match target.kind {
            PlanKind::Display => jobs.push(
                (
                    id,
                    target.class,
                    target.effective_distance,
                    Action::Develop(quality_for(target.tier)),
                ),
            ),
            PlanKind::Prefetch => if prefetch {
                jobs.push((id, target.class, target.effective_distance, Action::PrefetchFull));
            },
            PlanKind::Warm => {},
        }
        i += 1;
    }
    jobs
}

/// The Full and Browse budgets of the fixture.
pub open spec fn fixture_full_budget() -> crate::planning::BudgetModel {
    crate::planning::BudgetModel {
        limit: 1_073_741_824,
        fallback: 134_217_728,
        known: Map::empty(),
    }
}

/// The Browse budget of the fixture.
pub open spec fn fixture_browse_budget() -> crate::planning::BudgetModel {
    crate::planning::BudgetModel {
        limit: 1_073_741_824,
        fallback: 33_554_432,
        known: Map::empty(),
    }
}

impl BenchmarkNavigationQueue {
    /// The queue.
    pub closed spec fn queue(&self) -> crate::jobs::queue::QueueModel {
        self.queue@
    }

    /// Number of images in the synthetic folder.
    pub closed spec fn folder_len(&self) -> nat {
        self.len as nat
    }

    /// The filtered order.
    pub closed spec fn sequence(&self) -> Seq<usize> {
        self.order@.indices
    }

    /// Whether the fixture is consistent.
    pub closed spec fn wf(&self) -> bool {
        &&& self.queue.wf()
        &&& self.order.wf()
        &&& crate::planning::valid_order(self.len as nat, self.order@.indices)
        &&& self.budgets.full_model() == fixture_full_budget()
        &&& self.budgets.browse_model() == fixture_browse_budget()
    }

    /// Creates an empty production queue for a synthetic folder.
    pub fn new(len: usize) -> (fixture: Self)
        ensures
            fixture.wf(),
            fixture.queue() == crate::jobs::queue::empty_queue(true),
            fixture.folder_len() == len,
            fixture.sequence().len() == 0,
    {
        broadcast use vstd::std_specs::hash::group_hash_axioms;

        let full = FullPrefetchBudget::new(1_073_741_824, 134_217_728, HashMap::new());
        let browse = BrowsePrefetchBudget::new(1_073_741_824, 33_554_432, HashMap::new());
        BenchmarkNavigationQueue {
            queue: JobQueue::new(),
            len,
            budgets: NavigationPrefetchBudgets::new(full, browse),
            order: NavigationOrder::new(),
        }
    }

    /// Normalizes and installs a filtered production navigation sequence once.
    pub fn set_sequence(&mut self, sequence: Vec<usize>)
        requires
            old(self).wf(),
        ensures
            final(self).wf(),
            final(self).queue() == old(self).queue(),
            final(self).folder_len() == old(self).folder_len(),
            final(self).sequence() == crate::planning::normalized(
                old(self).folder_len(),
                sequence@,
            ),
    {
        proof {
            crate::planning::lemma_normalized(self.len as nat, sequence@);
        }
        self.order.replace_indices(self.len, sequence);
    }

    /// The jobs of one adaptive fit-mode navigation.
    pub open spec fn adaptive_jobs(&self, current: usize) -> Seq<PlannedJob> {
        let len = self.folder_len();
        let order = self.sequence();
        let targets = if len == 0 {
            seq![]
        } else {
            crate::planning::adaptive_plan(
                len,
                crate::planning::clamp_index(len, current as int),
                crate::planning::clamp_index(
                    crate::planning::ordered_len(len, order),
                    crate::planning::origin_of(current as int, order),
                ),
                true,
                false,
                order,
                fixture_full_budget(),
                fixture_browse_budget(),
                false,
            )
        };
        fixture_jobs(targets, true, targets.len() as int)
    }

    /// The jobs of one navigation under the fixed policy of one Full neighbor
    /// on either side.
    pub open spec fn fixed_jobs(&self, current: usize) -> Seq<PlannedJob> {
        let targets = crate::planning::plan(
            self.folder_len(),
            current as int,
            true,
            false,
            seq![],
            false,
        );
        fixture_jobs(targets, false, targets.len() as int)
    }

    /// Replans one production adaptive fit-mode navigation and returns the
    /// queued target count.
    pub fn navigate(&mut self, current: usize) -> (count: usize)
        requires
            old(self).wf(),
            crate::jobs::queue::has_room(
                old(self).queue(),
                old(self).adaptive_jobs(current).len() as int,
            ),
        ensures
            final(self).wf(),
            final(self).folder_len() == old(self).folder_len(),
            final(self).sequence() == old(self).sequence(),
            final(self).queue() == crate::jobs::queue::planned(
                old(self).queue(),
                old(self).adaptive_jobs(current),
                true,
            ),
            count == final(self).queue().heap.len(),
    {
        let position: usize = self.order.current_position(current);
        let targets = build_plan_targets_with_normalized_prefetch(
            self.len,
            current,
            1,
            false,
            (self.order.indices(), position),
            &self.budgets,
            false,
        );
        let jobs = collect_fixture_jobs(targets, true);
        assert(jobs@ == old(self).adaptive_jobs(current));
        self.queue.set_plan(jobs, true);
        self.queue.resident_jobs()
    }

    /// Replans the fixed policy of one Full neighbor on either side as a
    /// benchmark reference.
    pub fn navigate_fixed_reference(&mut self, current: usize) -> (count: usize)
        requires
            old(self).wf(),
            crate::jobs::queue::has_room(
                old(self).queue(),
                old(self).fixed_jobs(current).len() as int,
            ),
        ensures
            final(self).wf(),
            final(self).folder_len() == old(self).folder_len(),
            final(self).sequence() == old(self).sequence(),
            final(self).queue() == crate::jobs::queue::planned(
                old(self).queue(),
                old(self).fixed_jobs(current),
                true,
            ),
            count == final(self).queue().heap.len(),
    {
        let identity: Vec<usize> = Vec::new();
        let targets = build_plan_targets(self.len, current, 1, false, identity.as_slice(), false);
        assert(identity@ =~= seq![]);
        let jobs = collect_fixture_jobs(targets, false);
        assert(jobs@ == old(self).fixed_jobs(current));
        self.queue.set_plan(jobs, true);
        self.queue.resident_jobs()
    }
}

// ---------------------------------------------------------------------------
// Laws
// ---------------------------------------------------------------------------

/// Worker counts stay on the host: a limit is kept where it is not zero and the host
/// has that many threads, else the whole host is used, and at least one thread. The
/// JPEG pool has as many workers as the host, up to ten.
pub proof fn law_worker_counts_stay_on_the_host(
    limit: usize,
    available: usize,
    threads: usize,
    workers: usize,
)
    requires
        call_ensures(resolve_worker_threads_for_available, (limit, available), threads),
        call_ensures(jpeg_workers, (available,), workers),
    ensures
        0 < limit <= available ==> threads == limit,
        available > 0 && (limit == 0 || limit > available) ==> threads == available,
        available == 0 ==> threads == 1,
        available == 0 ==> workers == 1,
        0 < available <= 10 ==> workers == available,
        available > 10 ==> workers == 10,
{
}

/// Options hold what was selected: a quality from 80 to 100, the nearest one where it
/// lies outside, and 97 where none was; and the threads that the host grants, or none.
pub proof fn law_options_hold_what_was_selected(
    options: EngineOptions,
    selected: u8,
    rated: EngineOptions,
    limit: usize,
    available: usize,
    threads: usize,
    limited: EngineOptions,
    quality: u8,
    granted: Option<usize>,
    tier: Tier,
    benchmark: u8,
)
    requires
        call_ensures(EngineOptions::with_jpeg_quality, (options, selected), rated),
        call_ensures(EngineOptions::with_worker_threads, (options, limit, available), limited),
        call_ensures(resolve_worker_threads_for_available, (limit, available), threads),
        call_ensures(EngineOptions::jpeg_quality, (&options,), quality),
        call_ensures(EngineOptions::worker_threads, (&options,), granted),
        call_ensures(benchmark_jpeg_quality, (tier,), benchmark),
    ensures
        80 <= selected <= 100 ==> rated.quality() == selected,
        selected < 80 ==> rated.quality() == 80,
        selected > 100 ==> rated.quality() == 100,
        rated.threads() == options.threads(),
        limited.quality() == options.quality(),
        limited.threads() == Some(threads),
        quality == options.quality(),
        granted == options.threads(),
        benchmark == 97,
{
}

/// A folder that was just opened has its metadata wave queued and nothing else: the
/// heavy queue and the persistence lane are empty, and the folder is shown as it is.
/// Background and speculative work run side by side unless fewer than three threads
/// were granted.
pub proof fn law_opened_folders_read_their_metadata(
    len: usize,
    start: usize,
    disk: bool,
    options: EngineOptions,
    engine: Engine,
    jobs: Vec<PlannedJob>,
    light: &mut JobQueue,
    parallel: bool,
    heavy: JobQueue,
    fresh: JobQueue,
    lane: PersistenceQueue,
    id: JobId,
)
    requires
        call_ensures(Engine::new_with_options, (len, start, disk, options), engine),
        call_ensures(background_metadata_jobs, (len, start), jobs),
        call_ensures(JobQueue::new, (), fresh),
        old(light)@ == fresh@,
        call_ensures(JobQueue::extend, (light, jobs), ()),
        parallel <==> !(options.threads() matches Some(threads) && threads < 3),
        call_ensures(JobQueue::new_with_parallel_background_lanes, (parallel,), heavy),
        call_ensures(PersistenceQueue::new, (), lane),
    ensures
        engine.len == len,
        engine.disk == disk,
        engine.jpeg_quality == options.quality(),
        engine.light@ == final(light)@,
        engine.heavy@ == heavy@,
        engine.persistence@.pending.len() == lane@.pending.len(),
        engine.persistence@.active == lane@.active,
        engine.persistence@.budget == lane@.budget,
        engine.persistence@.closed == lane@.closed,
        engine.navigation@.indices.len() == 0,
        engine.navigation@.last_nav is None,
        !engine.known_present@.contains_key(id),
{
}

/// A folder opened without options has quality 97, one opened with a quality has the
/// nearest one from 80 to 100, and both are otherwise alike.
pub proof fn law_opening_without_options_takes_the_defaults(
    len: usize,
    start: usize,
    disk: bool,
    selected: u8,
    plain: Engine,
    rated: Engine,
)
    requires
        call_ensures(Engine::new, (len, start, disk), plain),
        call_ensures(Engine::new_with_jpeg_quality, (len, start, disk, selected), rated),
    ensures
        plain.jpeg_quality == 97,
        80 <= selected <= 100 ==> rated.jpeg_quality == selected,
        selected < 80 ==> rated.jpeg_quality == 80,
        selected > 100 ==> rated.jpeg_quality == 100,
        plain.len == len && rated.len == len,
        plain.disk == disk && rated.disk == disk,
        plain.heavy@ == rated.heavy@ && plain.heavy@.parallel,
        plain.light@ == rated.light@,
{
}

/// A navigation plans what its parts do from the normalized state and the current
/// display order: what is pinned, what is rendered, and what stays in Full resolution.
/// It counts as changed unless it is the one planned last, which it now is. Nothing
/// else changes, and an empty folder plans nothing.
pub proof fn law_navigation_plans_from_its_parts(
    engine: &mut Engine,
    nav: NavState,
    budgets: &NavigationPrefetchBudgets,
    request: Option<NavigationRequest>,
    state: NavState,
    position: usize,
    order: &[usize],
    pins: Vec<JobId>,
    targets: Vec<PlanTarget>,
    desired: Vec<JobId>,
)
    requires
        old(engine).wf(),
        call_ensures(Engine::navigate, (engine, nav, budgets), request),
        order@ == old(engine).navigation@.indices,
        old(engine).len > 0 ==> {
            &&& call_ensures(NavState::normalize, (nav, old(engine).len), state)
            &&& call_ensures(
                NavigationOrder::current_position,
                (&old(engine).navigation, state.current),
                position,
            )
            &&& call_ensures(
                navigation_pins,
                (old(engine).len, state.current, position, order),
                pins,
            )
            &&& call_ensures(
                build_plan_targets_with_full_prefetch,
                (
                    old(engine).len,
                    state.current,
                    state.direction,
                    state.zoomed,
                    order,
                    budgets,
                    false,
                ),
                targets,
            )
            &&& call_ensures(desired_full_entries, (&targets,), desired)
        },
    ensures
        request is None <==> old(engine).len == 0,
        request matches Some(request) ==> {
            &&& request.nav == state
            &&& request.pins@ == pins@
            &&& request.targets@ == targets@
            &&& request.desired@ == desired@
            &&& request.changed <==> !(old(engine).navigation@.last_nav matches Some(last) && last
                == state)
            &&& final(engine).navigation@.last_nav == Some(state)
        },
        request is None ==> final(engine).navigation@ == old(engine).navigation@,
        final(engine).navigation@.indices == old(engine).navigation@.indices,
        final(engine).heavy == old(engine).heavy,
        final(engine).light == old(engine).light,
        final(engine).persistence == old(engine).persistence,
        final(engine).known_present == old(engine).known_present,
        final(engine).len == old(engine).len,
        final(engine).disk == old(engine).disk,
        final(engine).jpeg_quality == old(engine).jpeg_quality,
{
    if old(engine).len > 0 {
        lemma_orders_name_images_once(old(engine).navigation);
        lemma_normalized_fixed(old(engine).len as nat, order@);
    }
}

/// Applying a navigation plans the jobs that its targets need, as a changed or
/// unchanged navigation. With a disk cache it then installs the warm wave outward from
/// the current image, which a queue takes once. Nothing but the heavy queue changes.
pub proof fn law_applied_navigation_plans_and_warms(
    engine: &mut Engine,
    request: NavigationRequest,
    facts: Vec<CacheFacts>,
    jobs: Vec<PlannedJob>,
    queue: &mut JobQueue,
    warm: Vec<(JobId, Action)>,
    warmed: &mut JobQueue,
    installed: bool,
)
    requires
        old(engine).wf(),
        facts@.len() == request.targets@.len(),
        crate::jobs::queue::has_room(old(engine).heavy@, request.targets@.len() as int),
        call_ensures(Engine::apply_navigation, (engine, request, facts), ()),
        call_ensures(navigation_jobs, (&request.targets, &facts, old(engine).disk), jobs),
        old(queue)@ == old(engine).heavy@,
        call_ensures(JobQueue::set_plan, (queue, jobs, request.changed), ()),
        call_ensures(background_warm_jobs, (old(engine).len, request.nav.current), warm),
        old(warmed)@ == final(queue)@,
        call_ensures(JobQueue::initialize_background, (warmed, warm), installed),
    ensures
        final(engine).heavy@ == if old(engine).disk {
            final(warmed)@
        } else {
            final(queue)@
        },
        final(engine).light == old(engine).light,
        final(engine).persistence == old(engine).persistence,
        final(engine).navigation == old(engine).navigation,
        final(engine).known_present == old(engine).known_present,
        final(engine).len == old(engine).len,
        final(engine).disk == old(engine).disk,
        final(engine).jpeg_quality == old(engine).jpeg_quality,
{
}

/// A new sequence becomes the display order, with every image of the folder in it once
/// in the order of first occurrence, and the next navigation counts as changed.
/// Nothing else changes.
pub proof fn law_sequences_become_the_display_order(engine: &mut Engine, sequence: Vec<usize>)
    requires
        old(engine).wf(),
        call_ensures(Engine::set_sequence, (engine, sequence), ()),
    ensures
        is_left_of(old(engine).len as int, sequence@, final(engine).navigation@.indices),
        final(engine).navigation@.last_nav is None,
        final(engine).heavy == old(engine).heavy,
        final(engine).light == old(engine).light,
        final(engine).persistence == old(engine).persistence,
        final(engine).known_present == old(engine).known_present,
        final(engine).len == old(engine).len,
        final(engine).disk == old(engine).disk,
        final(engine).jpeg_quality == old(engine).jpeg_quality,
{
    law_normalization_keeps_first_occurrences(old(engine).len as int, sequence@);
}

proof fn lemma_demand_at(len: nat, indices: Seq<usize>, n: int) -> (at: Seq<int>)
    requires
        0 <= n <= indices.len(),
    ensures
        ascends(at, n),
        at.len() == thumbnail_demand(len, indices, n).len(),
        forall|k: int|
            0 <= k < at.len() ==> indices[#[trigger] at[k]] < len && thumbnail_demand(
                len,
                indices,
                n,
            )[k] == ((indices[at[k]], Tier::Thumb), Action::Thumb),
        forall|i: int| 0 <= i < n && (#[trigger] indices[i]) < len ==> at.contains(i),
    decreases n,
{
    if n <= 0 {
        seq![]
    } else {
        let before = lemma_demand_at(len, indices, n - 1);
        if indices[n - 1] < len {
            let at = before.push(n - 1);
            let all = thumbnail_demand(len, indices, n);
            let rest = thumbnail_demand(len, indices, n - 1);
            assert(at[before.len() as int] == n - 1);
            assert forall|k: int| 0 <= k < at.len() implies indices[#[trigger] at[k]] < len
                && all[k] == ((indices[at[k]], Tier::Thumb), Action::Thumb) by {
                if k < before.len() {
                    assert(at[k] == before[k] && all[k] == rest[k]);
                }
            }
            assert forall|i: int| 0 <= i < n && (#[trigger] indices[i])
                < len implies at.contains(i) by {
                if i < n - 1 {
                    let k = choose|k: int| 0 <= k < before.len() && before[k] == i;
                    assert(at[k] == i);
                }
            }
            at
        } else {
            before
        }
    }
}

/// Thumbnail demand becomes the urgent demand of the light queue: one thumbnail for
/// each demanded image of the folder, in order. Nothing else changes.
pub proof fn law_thumbnail_demand_is_urgent(
    engine: &mut Engine,
    indices: &[usize],
    accepted: bool,
    at: Seq<int>,
    jobs: Vec<(JobId, Action)>,
    queue: &mut JobQueue,
    taken: bool,
)
    requires
        old(engine).wf(),
        call_ensures(Engine::set_thumbnail_demand, (engine, indices), accepted),
        ascends(at, indices@.len() as int),
        at.len() == jobs@.len(),
        forall|k: int|
            0 <= k < at.len() ==> indices@[#[trigger] at[k]] < old(engine).len && jobs@[k] == (
                (indices@[at[k]], Tier::Thumb),
                Action::Thumb,
            ),
        forall|i: int|
            0 <= i < indices@.len() && (#[trigger] indices@[i]) < old(engine).len ==> at.contains(
                i,
            ),
        old(queue)@ == old(engine).light@,
        call_ensures(JobQueue::set_urgent, (queue, jobs), taken),
    ensures
        accepted == taken,
        final(engine).light@ == final(queue)@,
        final(engine).heavy == old(engine).heavy,
        final(engine).persistence == old(engine).persistence,
        final(engine).navigation == old(engine).navigation,
        final(engine).known_present == old(engine).known_present,
        final(engine).len == old(engine).len,
        final(engine).disk == old(engine).disk,
        final(engine).jpeg_quality == old(engine).jpeg_quality,
{
    let n = indices@.len() as int;
    let len = old(engine).len as nat;
    let mine = lemma_demand_at(len, indices@, n);
    assert(mine =~= at) by {
        lemma_same_positions(mine, at, n);
    }
    let demand = thumbnail_demand(len, indices@, n);
    assert(demand =~= jobs@) by {
        assert forall|k: int| 0 <= k < demand.len() implies demand[k] == jobs@[k] by {
            assert(mine[k] == at[k]);
        }
    }
}

proof fn lemma_same_positions(a: Seq<int>, b: Seq<int>, n: int)
    requires
        ascends(a, n),
        ascends(b, n),
        forall|k: int| 0 <= k < a.len() ==> b.contains(#[trigger] a[k]),
        forall|k: int| 0 <= k < b.len() ==> a.contains(#[trigger] b[k]),
    ensures
        a == b,
    decreases a.len() + b.len(),
{
    if a.len() == 0 {
        if b.len() > 0 {
            assert(a.contains(b[0]));
        }
        assert(a =~= b);
    } else if b.len() == 0 {
        assert(b.contains(a[0]));
    } else {
        let x = a.last();
        let y = b.last();
        assert(b.contains(a[a.len() - 1]));
        assert(a.contains(b[b.len() - 1]));
        let i = choose|i: int| 0 <= i < b.len() && b[i] == x;
        let j = choose|j: int| 0 <= j < a.len() && a[j] == y;
        if i < b.len() - 1 {
            assert(b[i] < b[b.len() - 1]);
        }
        if j < a.len() - 1 {
            assert(a[j] < a[a.len() - 1]);
        }
        assert(x == y);
        let p = a.drop_last();
        let q = b.drop_last();
        assert(ascends(p, n)) by {
            assert forall|k: int, m: int| 0 <= k < m < p.len() implies #[trigger] p[k]
                < #[trigger] p[m] by {
                assert(a[k] < a[m]);
            }
            assert forall|k: int| 0 <= k < p.len() implies 0 <= #[trigger] p[k] < n by {
                assert(0 <= a[k] < n);
            }
        }
        assert(ascends(q, n)) by {
            assert forall|k: int, m: int| 0 <= k < m < q.len() implies #[trigger] q[k]
                < #[trigger] q[m] by {
                assert(b[k] < b[m]);
            }
            assert forall|k: int| 0 <= k < q.len() implies 0 <= #[trigger] q[k] < n by {
                assert(0 <= b[k] < n);
            }
        }
        assert forall|k: int| 0 <= k < p.len() implies q.contains(#[trigger] p[k]) by {
            assert(a[k] < a[a.len() - 1]);
            let m = choose|m: int| 0 <= m < b.len() && b[m] == a[k];
            assert(q[m] == p[k]);
        }
        assert forall|k: int| 0 <= k < q.len() implies p.contains(#[trigger] q[k]) by {
            assert(b[k] < b[b.len() - 1]);
            let m = choose|m: int| 0 <= m < a.len() && a[m] == b[k];
            assert(p[m] == q[k]);
        }
        lemma_same_positions(p, q, n);
        assert(a =~= p.push(x));
        assert(b =~= q.push(y));
    }
}

/// Closing an engine closes both job queues, and closing its persistence closes that
/// lane; neither touches anything else.
pub proof fn law_closing_closes_the_queues(
    engine: &mut Engine,
    heavy: &mut JobQueue,
    light: &mut JobQueue,
    other: &mut Engine,
    lane: &mut PersistenceQueue,
)
    requires
        old(engine).wf(),
        call_ensures(Engine::close, (engine,), ()),
        old(heavy)@ == old(engine).heavy@,
        old(light)@ == old(engine).light@,
        call_ensures(JobQueue::close, (heavy,), ()),
        call_ensures(JobQueue::close, (light,), ()),
        old(other).wf(),
        call_ensures(Engine::close_persistence, (other,), ()),
        old(lane)@ == old(other).persistence@,
        call_ensures(PersistenceQueue::close, (lane,), ()),
    ensures
        final(engine).heavy@ == final(heavy)@,
        final(engine).light@ == final(light)@,
        final(engine).persistence == old(engine).persistence,
        final(engine).navigation == old(engine).navigation,
        final(engine).len == old(engine).len,
        final(other).persistence@ == final(lane)@,
        final(other).heavy == old(other).heavy,
        final(other).light == old(other).light,
        final(other).navigation == old(other).navigation,
        final(other).len == old(other).len,
{
}

/// The metadata fixture queues one metadata job for each image, in the order of the
/// folder, and tells how many there are.
pub proof fn law_metadata_fixture_queues_every_image(
    len: usize,
    fixture: BenchmarkMetadataQueue,
    jobs: usize,
    i: int,
)
    requires
        call_ensures(BenchmarkMetadataQueue::new, (len,), fixture),
        call_ensures(BenchmarkMetadataQueue::resident_jobs, (&fixture,), jobs),
    ensures
        jobs == len,
        fixture.queue().heap.len() == len,
        0 <= i < len ==> {
            let entry = fixture.queue().heap[i];
            &&& entry.id == (i as usize, Tier::Thumb) && entry.action == Action::Metadata
            &&& entry.prio.class == 5 && (i <= u32::MAX ==> entry.prio.eff_dist == i)
        },
{
    law_metadata_queue_is_complete(len as nat);
    lemma_metadata_entries(len as int, len as int);
}

proof fn lemma_metadata_entries(len: int, n: int)
    requires
        0 <= n <= len <= usize::MAX,
    ensures
        ({
            let heap = crate::jobs::queue::extended(
                crate::jobs::queue::empty_queue(true),
                identity_metadata(len),
                n,
            ).heap;
            &&& heap.len() == n
            &&& forall|i: int|
                0 <= i < n ==> (#[trigger] heap[i]).id == (i as usize, Tier::Thumb)
                    && heap[i].action == Action::Metadata && heap[i].prio.class == 5 && (i
                    <= u32::MAX ==> heap[i].prio.eff_dist == i)
        }),
    decreases n,
{
    if n > 0 {
        lemma_metadata_entries(len, n - 1);
    }
}

} // verus!
