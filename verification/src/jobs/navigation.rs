//! Display order, pinning and the jobs of one navigation.

use std::collections::HashMap;

use vstd::prelude::*;

use crate::jobs::ids::JobId;
use crate::jobs::queue::{Action, PlannedJob, Quality};
use crate::planning::coverage::{
    apart, is_left_of, law_navigation_starts_at_the_current_image,
    law_normalization_keeps_first_occurrences, shown_count, starts_at,
};
use crate::planning::{PlanKind, PlanTarget};
use crate::types::Tier;

verus! {

broadcast use vstd::std_specs::hash::group_hash_axioms;

/// Current navigation state used to reprioritize image work.
#[derive(Debug, Clone, Copy, PartialEq, Eq, Structural)]
pub struct NavState {
    /// Current folder index.
    pub current: usize,
    /// +1 browsing forward, -1 backward.
    pub direction: i8,
    /// Whether the current view needs Full-tier renders.
    ///
    /// Full resolution fills its adaptive RAM working set in every mode. This
    /// flag raises the current Full render's priority.
    pub zoomed: bool,
}

/// A navigation state with its index inside the folder and its direction
/// reduced to a sign.
pub open spec fn normalized_nav(len: nat, nav: NavState) -> NavState {
    NavState {
        current: crate::planning::clamp_index(len, nav.current as int) as usize,
        direction: if nav.direction < 0 {
            -1i8
        } else {
            1i8
        },
        zoomed: nav.zoomed,
    }
}

impl NavState {
    /// Moves the index into a nonempty folder and reduces the direction to a
    /// sign.
    pub fn normalize(self, len: usize) -> (nav: NavState)
        requires
            len > 0,
        ensures
            nav == normalized_nav(len as nat, self),
    {
        NavState {
            current: if self.current < len {
                self.current
            } else {
                len - 1
            },
            direction: if self.direction < 0 {
                -1
            } else {
                1
            },
            zoomed: self.zoomed,
        }
    }
}

/// Display order after filtering, with the last navigation planned against it.
pub struct NavigationOrder {
    /// Display order after filtering. Empty means identity order.
    indices: Vec<usize>,
    /// Folder index to filtered position, built once when a filter changes.
    positions: HashMap<usize, usize>,
    /// The last normalized state planned against `indices`. A sequence change
    /// invalidates it.
    last_nav: Option<NavState>,
}

/// What a [`NavigationOrder`] holds.
#[verifier::ext_equal]
pub struct OrderModel {
    pub indices: Seq<usize>,
    pub last_nav: Option<NavState>,
}

impl View for NavigationOrder {
    type V = OrderModel;

    closed spec fn view(&self) -> OrderModel {
        OrderModel { indices: self.indices@, last_nav: self.last_nav }
    }
}

impl NavigationOrder {
    /// Whether the position table agrees with the display order, which names
    /// each index once.
    pub closed spec fn wf(&self) -> bool {
        &&& self.indices@.no_duplicates()
        &&& forall|index: usize| #[trigger]
            self.positions@.contains_key(index) <==> self.indices@.contains(index)
        &&& forall|position: int|
            0 <= position < self.indices@.len() ==> self.positions@.contains_key(
                #[trigger] self.indices@[position],
            ) && self.positions@[self.indices@[position]] == position
    }

    /// Creates the identity order.
    pub fn new() -> (order: Self)
        ensures
            order.wf(),
            order@ == (OrderModel { indices: seq![], last_nav: None }),
    {
        let order = NavigationOrder {
            indices: Vec::new(),
            positions: HashMap::new(),
            last_nav: None,
        };
        assert(order@.indices =~= seq![]);
        order
    }

    /// Records a navigation. Returns whether it differs from the last one
    /// planned against this order.
    pub fn update_navigation(&mut self, nav: NavState) -> (changed: bool)
        requires
            old(self).wf(),
        ensures
            final(self).wf(),
            changed == (old(self)@.last_nav != Some(nav)),
            final(self)@ == (OrderModel { last_nav: Some(nav), ..old(self)@ }),
    {
        let changed: bool = match self.last_nav {
            Some(last) => last != nav,
            None => true,
        };
        self.last_nav = Some(nav);
        changed
    }

    /// Position of a folder index in display order; the start where the order
    /// omits it.
    pub fn current_position(&self, current: usize) -> (position: usize)
        requires
            self.wf(),
        ensures
            position == crate::planning::origin_of(current as int, self@.indices),
    {
        if self.indices.len() == 0 {
            return current;
        }
        proof {
            self.indices@.index_of_first_ensures(current);
        }
        match self.positions.get(&current) {
            Some(position) => {
                proof {
                    let first = self.indices@.index_of_first(current)->0;
                    assert(self.indices@.contains(current));
                    assert(self.indices@[first] == current);
                }
                *position
            },
            None => {
                assert(!self.indices@.contains(current));
                0
            },
        }
    }

    /// Replaces the display order, removing out-of-range entries and later
    /// duplicates once. The next navigation counts as a change.
    pub fn replace_indices(&mut self, len: usize, indices: Vec<usize>)
        ensures
            final(self).wf(),
            final(self)@ == (OrderModel {
                indices: crate::planning::normalized(len as nat, indices@),
                last_nav: None,
            }),
    {
        self.indices.clear();
        self.positions.clear();
        self.last_nav = None;
        let mut i: usize = 0;
        assert(indices@.take(0) =~= seq![]);
        assert(self.indices@ =~= seq![]);
        while i < indices.len()
            invariant
                i <= indices@.len(),
                self.wf(),
                self.last_nav is None,
                self.indices@.len() <= i,
                self.indices@ == crate::planning::normalized(
                    len as nat,
                    indices@.take(i as int),
                ),
            decreases indices@.len() - i,
        {
            let index: usize = indices[i];
            assert(indices@.take(i + 1).drop_last() =~= indices@.take(i as int));
            if index < len && !self.positions.contains_key(&index) {
                let position: usize = self.indices.len();
                let ghost before = self.indices@;
                let ghost table = self.positions@;
                self.positions.insert(index, position);
                self.indices.push(index);
                proof {
                    let order = self.indices@;
                    assert forall|other: usize| #[trigger]
                        self.positions@.contains_key(other) <==> order.contains(other) by {
                        assert(table.contains_key(other) <==> before.contains(other));
                        if before.contains(other) {
                            let k = choose|k: int| 0 <= k < before.len() && before[k] == other;
                            assert(order[k] == other);
                        }
                        if other == index {
                            assert(order[before.len() as int] == other);
                        }
                        if order.contains(other) && other != index {
                            let k = choose|k: int| 0 <= k < order.len() && order[k] == other;
                            assert(before[k] == other);
                        }
                    }
                    assert forall|p: int| 0 <= p < order.len() implies self.positions@.contains_key(
                        #[trigger] order[p],
                    ) && self.positions@[order[p]] == p by {
                        if p < before.len() {
                            assert(order[p] == before[p]);
                            assert(before.contains(before[p]));
                        }
                    }
                    assert forall|a: int, b: int|
                        0 <= a < order.len() && 0 <= b < order.len() && a != b implies order[a]
                        != order[b] by {
                        if a < before.len() {
                            assert(before.contains(before[a]));
                        }
                        if b < before.len() {
                            assert(before.contains(before[b]));
                        }
                    }
                }
            }
            i += 1;
        }
        assert(indices@.take(i as int) =~= indices@);
    }

    /// Borrows the display order.
    pub fn indices(&self) -> (indices: &[usize])
        ensures
            indices@ == self@.indices,
    {
        self.indices.as_slice()
    }
}

// ---------------------------------------------------------------------------
// Pins
// ---------------------------------------------------------------------------

/// The three tiers of each of the first `n` indices.
pub open spec fn tier_pins(indices: Seq<usize>, n: int) -> Seq<JobId>
    decreases n,
{
    if n <= 0 {
        seq![]
    } else {
        tier_pins(indices, n - 1) + seq![
            (indices[n - 1], Tier::Thumb),
            (indices[n - 1], Tier::Browse),
            (indices[n - 1], Tier::Full),
        ]
    }
}

/// The folder indices shown at the positions `first..end`.
pub open spec fn shown(len: nat, sequence: Seq<usize>, first: int, end: int) -> Seq<usize>
    decreases end - first,
{
    if first >= end {
        seq![]
    } else {
        let rest = shown(len, sequence, first, end - 1);
        let index = crate::planning::index_at(sequence, end - 1);
        if index < len {
            rest.push(index as usize)
        } else {
            rest
        }
    }
}

/// The indices that a navigation pins: the current image and its visible
/// neighbors.
pub open spec fn pinned_indices(len: nat, current: int, position: int, sequence: Seq<usize>) -> Seq<
    usize,
> {
    if sequence.len() == 0 {
        shown(
            len,
            sequence,
            crate::planning::near_first(current),
            crate::planning::near_end(current, len as int),
        )
    } else {
        let origin = crate::planning::clamp_index(sequence.len(), position);
        let visible = shown(
            len,
            sequence,
            crate::planning::near_first(origin),
            crate::planning::near_end(origin, sequence.len() as int),
        );
        if visible.contains(current as usize) {
            visible
        } else {
            visible.push(current as usize)
        }
    }
}

/// The cache entries that a navigation pins.
pub open spec fn pins(len: nat, current: int, position: int, sequence: Seq<usize>) -> Seq<JobId> {
    if len == 0 {
        seq![]
    } else {
        let indices = pinned_indices(
            len,
            crate::planning::clamp_index(len, current),
            position,
            sequence,
        );
        tier_pins(indices, indices.len() as int)
    }
}

fn contains_index(indices: &Vec<usize>, index: usize) -> (found: bool)
    ensures
        found == indices@.contains(index),
{
    let mut i: usize = 0;
    while i < indices.len()
        invariant
            i <= indices@.len(),
            forall|k: int| 0 <= k < i ==> indices@[k] != index,
        decreases indices@.len() - i,
    {
        if indices[i] == index {
            return true;
        }
        i += 1;
    }
    false
}

/// The cache entries to pin: every tier of the current image and of its visible
/// neighbors.
pub fn navigation_pins(
    len: usize,
    current: usize,
    current_position: usize,
    sequence: &[usize],
) -> (pinned: Vec<JobId>)
    ensures
        pinned@ == pins(len as nat, current as int, current_position as int, sequence@),
{
    if len == 0 {
        return Vec::new();
    }
    let current: usize = if current < len {
        current
    } else {
        len - 1
    };
    let identity: bool = sequence.len() == 0;
    let count: usize = if identity {
        len
    } else {
        sequence.len()
    };
    let origin: usize = if identity {
        current
    } else if current_position < count {
        current_position
    } else {
        count - 1
    };
    let first: usize = origin.saturating_sub(1);
    let end: usize = if origin + 1 < count {
        origin + 2
    } else {
        count
    };
    let mut indices: Vec<usize> = Vec::new();
    let mut position: usize = first;
    while position < end
        invariant
            first <= position <= end <= count,
            identity == (sequence@.len() == 0),
            !identity ==> count == sequence@.len(),
            indices@ =~= shown(len as nat, sequence@, first as int, position as int),
        decreases end - position,
    {
        let index: usize = if identity {
            position
        } else {
            sequence[position]
        };
        if index < len {
            indices.push(index);
        }
        position += 1;
    }
    if !identity && !contains_index(&indices, current) {
        indices.push(current);
    }
    assert(indices@ =~= pinned_indices(
        len as nat,
        current as int,
        current_position as int,
        sequence@,
    ));
    let mut pinned: Vec<JobId> = Vec::new();
    let mut i: usize = 0;
    while i < indices.len()
        invariant
            i <= indices@.len(),
            pinned@ =~= tier_pins(indices@, i as int),
        decreases indices@.len() - i,
    {
        let index: usize = indices[i];
        pinned.push((index, Tier::Thumb));
        pinned.push((index, Tier::Browse));
        pinned.push((index, Tier::Full));
        i += 1;
    }
    pinned
}

proof fn lemma_shown_contains(len: nat, sequence: Seq<usize>, first: int, end: int, position: int)
    requires
        first <= position < end,
        0 <= crate::planning::index_at(sequence, position) < len <= usize::MAX,
    ensures
        shown(len, sequence, first, end).contains(
            crate::planning::index_at(sequence, position) as usize,
        ),
    decreases end - first,
{
    let index = crate::planning::index_at(sequence, position) as usize;
    let rest = shown(len, sequence, first, end - 1);
    let all = shown(len, sequence, first, end);
    if position == end - 1 {
        assert(all[rest.len() as int] == index);
    } else {
        lemma_shown_contains(len, sequence, first, end - 1, position);
        let k = choose|k: int| 0 <= k < rest.len() && rest[k] == index;
        assert(all[k] == index);
    }
}

/// The current image is pinned, whatever the display order shows.
pub proof fn law_current_image_is_pinned(
    len: nat,
    current: int,
    position: int,
    sequence: Seq<usize>,
)
    requires
        0 < len <= usize::MAX,
        0 <= current < len,
    ensures
        pinned_indices(len, current, position, sequence).contains(current as usize),
{
    if sequence.len() == 0 {
        lemma_shown_contains(
            len,
            sequence,
            crate::planning::near_first(current),
            crate::planning::near_end(current, len as int),
            current,
        );
    } else {
        let origin = crate::planning::clamp_index(sequence.len(), position);
        let visible = shown(
            len,
            sequence,
            crate::planning::near_first(origin),
            crate::planning::near_end(origin, sequence.len() as int),
        );
        if !visible.contains(current as usize) {
            assert(visible.push(current as usize)[visible.len() as int] == current as usize);
        }
    }
}

// ---------------------------------------------------------------------------
// Outward order
// ---------------------------------------------------------------------------

/// The indices within `distance` of `start`, nearest first and ahead before
/// behind.
pub open spec fn outward(len: nat, start: int, distance: int) -> Seq<usize>
    decreases distance,
{
    if distance <= 0 {
        seq![start as usize]
    } else {
        let rest = outward(len, start, distance - 1);
        let ahead = if start + distance < len {
            rest.push((start + distance) as usize)
        } else {
            rest
        };
        if start - distance >= 0 {
            ahead.push((start - distance) as usize)
        } else {
            ahead
        }
    }
}

/// The whole folder, outward from `start`.
pub open spec fn folder_outward(len: nat, start: int) -> Seq<usize> {
    if len == 0 {
        seq![]
    } else {
        outward(len, crate::planning::clamp_index(len, start), len - 1)
    }
}

/// Orders the indices of a folder outward from `start`.
pub fn outward_order(len: usize, start: usize) -> (order: Vec<usize>)
    ensures
        order@ == folder_outward(len as nat, start as int),
{
    let mut order: Vec<usize> = Vec::new();
    if len == 0 {
        return order;
    }
    let start: usize = if start < len {
        start
    } else {
        len - 1
    };
    order.push(start);
    let mut distance: usize = 1;
    assert(order@ =~= outward(len as nat, start as int, 0));
    while distance < len
        invariant
            1 <= distance <= len,
            start < len,
            order@ == outward(len as nat, start as int, distance - 1),
        decreases len - distance,
    {
        if distance < len - start {
            order.push(start + distance);
        }
        if distance <= start {
            order.push(start - distance);
        }
        distance += 1;
    }
    order
}

proof fn lemma_outward(len: nat, start: int, distance: int)
    requires
        0 <= start < len <= usize::MAX,
        0 <= distance,
    ensures
        ({
            let order = outward(len, start, distance);
            &&& order.no_duplicates()
            &&& forall|i: int|
                0 <= i < order.len() ==> (#[trigger] order[i]) < len && crate::planning::gap(
                    order[i] as int,
                    start,
                ) <= distance
            &&& forall|i: int, j: int|
                0 <= i < j < order.len() ==> crate::planning::gap(
                    (#[trigger] order[i]) as int,
                    start,
                ) <= crate::planning::gap((#[trigger] order[j]) as int, start)
            &&& forall|index: int|
                0 <= index < len && crate::planning::gap(index, start) <= distance
                    ==> order.contains(#[trigger] (index as usize))
        }),
    decreases distance,
{
    let order = outward(len, start, distance);
    if distance == 0 {
        assert(order[0] == start as usize);
        assert forall|index: int|
            0 <= index < len && crate::planning::gap(index, start)
                <= distance implies order.contains(#[trigger] (index as usize)) by {
            assert(index == start);
        }
    } else {
        lemma_outward(len, start, distance - 1);
        let rest = outward(len, start, distance - 1);
        assert forall|i: int| 0 <= i < rest.len() implies order[i] == rest[i] by {}
        assert forall|index: int|
            0 <= index < len && crate::planning::gap(index, start)
                <= distance implies order.contains(#[trigger] (index as usize)) by {
            if crate::planning::gap(index, start) < distance {
                assert(rest.contains(index as usize));
                let k = choose|k: int| 0 <= k < rest.len() && rest[k] == index as usize;
                assert(order[k] == index as usize);
            } else if index > start {
                assert(order[rest.len() as int] == index as usize);
            } else {
                assert(order[order.len() - 1] == index as usize);
            }
        }
    }
}

/// The outward order visits every index of the folder exactly once, nearest
/// first.
pub proof fn law_outward_order_is_a_permutation(len: nat, start: int)
    requires
        len <= usize::MAX,
        0 <= start,
    ensures
        ({
            let order = folder_outward(len, start);
            &&& order.no_duplicates()
            &&& forall|i: int| 0 <= i < order.len() ==> (#[trigger] order[i]) < len
            &&& forall|index: int|
                0 <= index < len ==> order.contains(#[trigger] (index as usize))
            &&& forall|i: int, j: int|
                0 <= i < j < order.len() ==> crate::planning::gap(
                    (#[trigger] order[i]) as int,
                    crate::planning::clamp_index(len, start),
                ) <= crate::planning::gap(
                    (#[trigger] order[j]) as int,
                    crate::planning::clamp_index(len, start),
                )
        }),
{
    if len > 0 {
        lemma_outward(len, crate::planning::clamp_index(len, start), len - 1);
    }
}

/// The warm job of each index.
pub open spec fn warm_jobs(indices: Seq<usize>) -> Seq<(JobId, Action)> {
    Seq::new(
        indices.len(),
        |i: int| ((indices[i], Tier::Browse), Action::WarmDevelop(Quality::Browse)),
    )
}

/// The folder-wide warm jobs, outward from `start`.
pub fn background_warm_jobs(len: usize, start: usize) -> (jobs: Vec<(JobId, Action)>)
    ensures
        jobs@ == warm_jobs(folder_outward(len as nat, start as int)),
{
    let order = outward_order(len, start);
    let mut jobs: Vec<(JobId, Action)> = Vec::new();
    let mut i: usize = 0;
    while i < order.len()
        invariant
            i <= order@.len(),
            jobs@ =~= warm_jobs(order@.take(i as int)),
        decreases order@.len() - i,
    {
        jobs.push(((order[i], Tier::Browse), Action::WarmDevelop(Quality::Browse)));
        i += 1;
    }
    assert(order@.take(i as int) =~= order@);
    jobs
}

/// The metadata job of each index, with its rank as distance.
pub open spec fn metadata_jobs(indices: Seq<usize>) -> Seq<PlannedJob> {
    Seq::new(
        indices.len(),
        |i: int|
            (
                (indices[i], Tier::Thumb),
                5u8,
                i as u32,
                Action::Metadata,
            ),
    )
}

/// The folder-wide metadata wave, outward from `start`.
pub fn background_metadata_jobs(len: usize, start: usize) -> (jobs: Vec<PlannedJob>)
    ensures
        jobs@ == metadata_jobs(folder_outward(len as nat, start as int)),
{
    let order = outward_order(len, start);
    let mut jobs: Vec<PlannedJob> = Vec::new();
    let mut i: usize = 0;
    while i < order.len()
        invariant
            i <= order@.len(),
            jobs@ =~= metadata_jobs(order@.take(i as int)),
        decreases order@.len() - i,
    {
        let distance: u32 = #[verifier::truncate] (i as u32);
        jobs.push(((order[i], Tier::Thumb), 5, distance, Action::Metadata));
        i += 1;
    }
    assert(order@.take(i as int) =~= order@);
    jobs
}

// ---------------------------------------------------------------------------
// From targets to jobs
// ---------------------------------------------------------------------------

/// What the caches hold of one planned target.
#[derive(Debug, Clone, Copy, PartialEq, Eq, Structural)]
pub struct CacheFacts {
    /// Decoded pixels are resident.
    pub has_rgba: bool,
    /// Encoded bytes are resident.
    pub has_jpeg: bool,
    /// The matching disk object was observed without loading it.
    pub known_present: bool,
}

/// Development quality of a tier.
pub open spec fn tier_quality(tier: Tier) -> Quality {
    if tier == Tier::Full {
        Quality::Full
    } else {
        Quality::Browse
    }
}

/// Returns the development quality of a tier.
pub fn quality_for(tier: Tier) -> (quality: Quality)
    ensures
        quality == tier_quality(tier),
{
    match tier {
        Tier::Full => Quality::Full,
        _ => Quality::Browse,
    }
}

/// The job that a planned target needs in view of the caches, if any. A
/// configured disk cache is probed by the worker, never while planning.
pub open spec fn target_job(target: PlanTarget, facts: CacheFacts, disk: bool) -> Option<
    PlannedJob,
> {
    let id = (target.index, target.tier);
    match target.kind {
        PlanKind::Display => if facts.has_rgba {
            if target.tier == Tier::Full && !facts.has_jpeg && !facts.known_present {
                Some((id, 3u8, target.effective_distance, Action::PersistResident))
            } else {
                None
            }
        } else if facts.has_jpeg || disk {
            Some((id, target.class, target.effective_distance, Action::Rehydrate))
        } else {
            Some(
                (
                    id,
                    target.class,
                    target.effective_distance,
                    Action::Develop(tier_quality(target.tier)),
                ),
            )
        },
        PlanKind::Prefetch => if facts.has_rgba {
            None
        } else {
            Some((id, target.class, target.effective_distance, Action::PrefetchFull))
        },
        // Folder warming lives in the persistent background lane.
        PlanKind::Warm => None,
    }
}

fn job_for_target(target: PlanTarget, facts: CacheFacts, disk: bool) -> (job: Option<PlannedJob>)
    ensures
        job == target_job(target, facts, disk),
{
    let id: JobId = (target.index, target.tier);
    match target.kind {
        PlanKind::Display => {
            if facts.has_rgba {
                if target.tier == Tier::Full && !facts.has_jpeg && !facts.known_present {
                    return Some((id, 3, target.effective_distance, Action::PersistResident));
                }
                return None;
            }
            let action: Action = if facts.has_jpeg || disk {
                Action::Rehydrate
            } else {
                Action::Develop(quality_for(target.tier))
            };
            Some((id, target.class, target.effective_distance, action))
        },
        PlanKind::Prefetch => {
            if facts.has_rgba {
                None
            } else {
                Some((id, target.class, target.effective_distance, Action::PrefetchFull))
            }
        },
        PlanKind::Warm => None,
    }
}

/// The jobs of the first `n` targets, in target order.
pub open spec fn target_jobs(
    targets: Seq<PlanTarget>,
    facts: Seq<CacheFacts>,
    disk: bool,
    n: int,
) -> Seq<PlannedJob>
    decreases n,
{
    if n <= 0 {
        seq![]
    } else {
        let rest = target_jobs(targets, facts, disk, n - 1);
        match target_job(targets[n - 1], facts[n - 1], disk) {
            Some(job) => rest.push(job),
            None => rest,
        }
    }
}

/// Chooses the job of each planned target from what the caches hold of it.
pub fn navigation_jobs(targets: &Vec<PlanTarget>, facts: &Vec<CacheFacts>, disk: bool) -> (jobs:
    Vec<PlannedJob>)
    requires
        targets@.len() == facts@.len(),
    ensures
        jobs@ == target_jobs(targets@, facts@, disk, targets@.len() as int),
        jobs@.len() <= targets@.len(),
{
    let mut jobs: Vec<PlannedJob> = Vec::new();
    let mut i: usize = 0;
    while i < targets.len()
        invariant
            i <= targets@.len(),
            targets@.len() == facts@.len(),
            jobs@ == target_jobs(targets@, facts@, disk, i as int),
            jobs@.len() <= i,
        decreases targets@.len() - i,
    {
        if let Some(job) = job_for_target(targets[i], facts[i], disk) {
            jobs.push(job);
        }
        i += 1;
    }
    jobs
}

/// The Full-resolution entries that a navigation wants resident, in target
/// order.
pub open spec fn desired_full(targets: Seq<PlanTarget>, n: int) -> Seq<JobId>
    decreases n,
{
    if n <= 0 {
        seq![]
    } else {
        let rest = desired_full(targets, n - 1);
        if targets[n - 1].tier == Tier::Full {
            rest.push((targets[n - 1].index, Tier::Full))
        } else {
            rest
        }
    }
}

/// Lists the Full-resolution entries that a navigation wants resident.
pub fn desired_full_entries(targets: &Vec<PlanTarget>) -> (desired: Vec<JobId>)
    ensures
        desired@ == desired_full(targets@, targets@.len() as int),
{
    let mut desired: Vec<JobId> = Vec::new();
    let mut i: usize = 0;
    while i < targets.len()
        invariant
            i <= targets@.len(),
            desired@ == desired_full(targets@, i as int),
        decreases targets@.len() - i,
    {
        let target: PlanTarget = targets[i];
        if target.tier == Tier::Full {
            desired.push((target.index, Tier::Full));
        }
        i += 1;
    }
    desired
}

/// Decoded pixels that are resident are never developed or rehydrated again.
pub proof fn law_resident_pixels_are_not_rendered_again(
    target: PlanTarget,
    facts: CacheFacts,
    disk: bool,
)
    requires
        facts.has_rgba,
    ensures
        target_job(target, facts, disk) matches Some(job) ==> job.3 == Action::PersistResident,
{
}

// ---------------------------------------------------------------------------
// What a navigation reaches
// ---------------------------------------------------------------------------

/// A consistent display order names each image once.
pub proof fn lemma_orders_name_images_once(order: NavigationOrder)
    requires
        order.wf(),
    ensures
        order@.indices.no_duplicates(),
{
}

/// Replacing a display order leaves every image of the folder in the new one once, in
/// the order of first occurrence, and forgets the last navigation. A navigation counts
/// as changed unless it is the one that was last planned against the order.
pub proof fn law_replaced_orders_start_over(
    order: &mut NavigationOrder,
    len: usize,
    indices: Vec<usize>,
    other: &mut NavigationOrder,
    nav: NavState,
    changed: bool,
    fresh: NavigationOrder,
)
    requires
        call_ensures(NavigationOrder::replace_indices, (order, len, indices), ()),
        old(other).wf(),
        call_ensures(NavigationOrder::update_navigation, (other, nav), changed),
        call_ensures(NavigationOrder::new, (), fresh),
    ensures
        is_left_of(len as int, indices@, final(order)@.indices),
        final(order)@.last_nav is None,
        changed <==> !(old(other)@.last_nav matches Some(last) && last == nav),
        final(other)@.last_nav == Some(nav),
        final(other)@.indices == old(other)@.indices,
        fresh@.indices.len() == 0,
        fresh@.last_nav is None,
{
    law_normalization_keeps_first_occurrences(len as int, indices@);
}

/// A normalized state names an image of the folder, the last one where the index
/// lies beyond it, and goes one step in the direction of the given sign.
pub proof fn law_normalized_states_stay_in_the_folder(nav: NavState, len: usize, out: NavState)
    requires
        len > 0,
        call_ensures(NavState::normalize, (nav, len), out),
    ensures
        out.current < len,
        nav.current < len ==> out.current == nav.current,
        nav.current >= len ==> out.current + 1 == len,
        nav.direction < 0 ==> out.direction == -1,
        nav.direction >= 0 ==> out.direction == 1,
        out.zoomed == nav.zoomed,
{
}

/// The position of an image is the first one of the display order that shows it, or
/// the first of all where none does.
pub proof fn law_position_is_where_the_image_is_shown(
    order: NavigationOrder,
    len: int,
    current: usize,
    position: usize,
)
    requires
        current < len <= usize::MAX,
        call_ensures(NavigationOrder::current_position, (&order, current), position),
    ensures
        starts_at(
            order@.indices,
            shown_count(len, order@.indices),
            current as int,
            position as int,
        ),
{
    law_navigation_starts_at_the_current_image(len, current as int, order@.indices);
}

/// Whether a navigation pins an image: it is the current one, or is shown at the
/// position of the navigation or beside it.
pub open spec fn is_kept(
    len: int,
    sequence: Seq<usize>,
    count: int,
    image: int,
    origin: int,
    index: usize,
) -> bool {
    ||| index == image
    ||| exists|p: int|
        0 <= p < count && apart(p, origin) <= 1 && index < len
            && #[trigger] crate::planning::coverage::shown(sequence, p) == index
}

proof fn lemma_shown_is_shown(
    len: nat,
    sequence: Seq<usize>,
    first: int,
    end: int,
    index: usize,
)
    requires
        0 <= first,
        len <= usize::MAX,
        end <= shown_count(len as int, sequence),
    ensures
        shown(len, sequence, first, end).contains(index) <==> index < len && exists|p: int|
            first <= p < end && #[trigger] crate::planning::coverage::shown(sequence, p) == index,
    decreases end - first,
{
    if first < end {
        let rest = shown(len, sequence, first, end - 1);
        let all = shown(len, sequence, first, end);
        lemma_shown_is_shown(len, sequence, first, end - 1, index);
        let here = crate::planning::coverage::shown(sequence, end - 1);
        if here < len {
            assert(all =~= rest.push(here as usize));
            assert(all[rest.len() as int] == here as usize);
            if rest.contains(index) {
                let k = choose|k: int| 0 <= k < rest.len() && rest[k] == index;
                assert(all[k] == index);
            }
            if all.contains(index) && index != here {
                let k = choose|k: int| 0 <= k < all.len() && all[k] == index;
                assert(rest[k] == index);
            }
        }
    } else {
        assert(!shown(len, sequence, first, end).contains(index));
    }
}

proof fn lemma_pinned_tiers(indices: Seq<usize>, n: int, id: JobId)
    requires
        0 <= n <= indices.len(),
    ensures
        tier_pins(indices, n).contains(id) <==> indices.take(n).contains(id.0),
    decreases n,
{
    if n > 0 {
        lemma_pinned_tiers(indices, n - 1, id);
        let rest = tier_pins(indices, n - 1);
        let all = tier_pins(indices, n);
        let last = indices[n - 1];
        let at = rest.len() as int;
        assert(all[at] == (last, Tier::Thumb));
        assert(all[at + 1] == (last, Tier::Browse));
        assert(all[at + 2] == (last, Tier::Full));
        assert(indices.take(n) =~= indices.take(n - 1).push(last));
        assert(indices.take(n)[n - 1] == last);
        if id.0 == last {
            match id.1 {
                Tier::Thumb => {
                    assert(all[at] == id);
                },
                Tier::Browse => {
                    assert(all[at + 1] == id);
                },
                Tier::Full => {
                    assert(all[at + 2] == id);
                },
            }
        }
        if rest.contains(id) {
            let k = choose|k: int| 0 <= k < rest.len() && rest[k] == id;
            assert(all[k] == id);
        }
        if all.contains(id) && id.0 != last {
            let k = choose|k: int| 0 <= k < all.len() && all[k] == id;
            assert(rest[k] == id);
        }
        if indices.take(n - 1).contains(id.0) {
            let k = choose|k: int|
                0 <= k < n - 1 && #[trigger] indices.take(n - 1)[k] == id.0;
            assert(indices.take(n)[k] == id.0);
        }
        if indices.take(n).contains(id.0) && id.0 != last {
            let k = choose|k: int| 0 <= k < n && #[trigger] indices.take(n)[k] == id.0;
            assert(indices.take(n - 1)[k] == id.0);
        }
    }
}

/// A navigation pins every tier of the current image and of the images shown at its
/// position and beside it, and nothing else.
pub proof fn law_pins_are_the_visible_neighbors(
    len: usize,
    current: usize,
    position: usize,
    sequence: &[usize],
    pinned: Vec<JobId>,
    image: int,
    origin: int,
    id: JobId,
)
    requires
        call_ensures(navigation_pins, (len, current, position, sequence), pinned),
        len > 0,
        image == if current < len {
            current as int
        } else {
            len - 1
        },
        sequence@.len() == 0 ==> origin == image,
        sequence@.len() > 0 ==> origin == if position < sequence@.len() {
            position as int
        } else {
            sequence@.len() - 1
        },
    ensures
        pinned@.contains(id) <==> is_kept(
            len as int,
            sequence@,
            shown_count(len as int, sequence@),
            image,
            origin,
            id.0,
        ),
{
    let count = shown_count(len as int, sequence@);
    let indices = pinned_indices(len as nat, image, position as int, sequence@);
    let first = crate::planning::near_first(origin);
    let end = crate::planning::near_end(origin, count);
    let visible = shown(len as nat, sequence@, first, end);
    lemma_pinned_tiers(indices, indices.len() as int, id);
    assert(indices.take(indices.len() as int) =~= indices);
    lemma_shown_is_shown(len as nat, sequence@, first, end, id.0);
    assert(visible.contains(id.0) <==> id.0 < len && exists|p: int|
        0 <= p < count && apart(p, origin) <= 1 && id.0 < len
            && #[trigger] crate::planning::coverage::shown(sequence@, p) == id.0) by {
        if exists|p: int|
            0 <= p < count && apart(p, origin) <= 1 && id.0 < len
                && #[trigger] crate::planning::coverage::shown(sequence@, p) == id.0 {
            let p = choose|p: int|
                0 <= p < count && apart(p, origin) <= 1 && id.0 < len
                    && #[trigger] crate::planning::coverage::shown(sequence@, p) == id.0;
            assert(first <= p < end);
        }
        if visible.contains(id.0) {
            let p = choose|p: int|
                first <= p < end && #[trigger] crate::planning::coverage::shown(sequence@, p)
                    == id.0;
            assert(0 <= p < count && apart(p, origin) <= 1);
        }
    }
    if sequence@.len() == 0 {
        assert(crate::planning::coverage::shown(sequence@, image) == image);
        if id.0 == image {
            assert(0 <= image < count && apart(image, origin) <= 1);
        }
    } else if !visible.contains(image as usize) {
        assert(indices =~= visible.push(image as usize));
        assert(indices[visible.len() as int] == image as usize);
        if visible.contains(id.0) {
            let k = choose|k: int| 0 <= k < visible.len() && visible[k] == id.0;
            assert(indices[k] == id.0);
        }
        if indices.contains(id.0) && id.0 != image {
            let k = choose|k: int| 0 <= k < indices.len() && indices[k] == id.0;
            assert(visible[k] == id.0);
        }
    }
}

proof fn lemma_outward_ties(len: nat, start: int, distance: int)
    requires
        0 <= start < len <= usize::MAX,
        0 <= distance,
    ensures
        forall|i: int, j: int|
            0 <= i < j < outward(len, start, distance).len() ==> apart(
                (#[trigger] outward(len, start, distance)[i]) as int,
                start,
            ) < apart((#[trigger] outward(len, start, distance)[j]) as int, start) || outward(
                len,
                start,
                distance,
            )[i] > outward(len, start, distance)[j],
    decreases distance,
{
    if distance > 0 {
        lemma_outward_ties(len, start, distance - 1);
        lemma_outward(len, start, distance - 1);
        let order = outward(len, start, distance);
        let rest = outward(len, start, distance - 1);
        assert forall|i: int, j: int| 0 <= i < j < order.len() implies apart(
            (#[trigger] order[i]) as int,
            start,
        ) < apart((#[trigger] order[j]) as int, start) || order[i] > order[j] by {
            if j < rest.len() {
                assert(order[i] == rest[i] && order[j] == rest[j]);
            } else if i < rest.len() {
                assert(order[i] == rest[i]);
                assert(crate::planning::gap(rest[i] as int, start) <= distance - 1);
                assert(apart(order[j] as int, start) == distance);
            }
        }
    }
}

/// The outward order of a folder visits each of its images once, from the nearest to
/// the farthest, and of two that are equally near the one ahead first. A start beyond
/// the folder stands for its last image.
pub proof fn law_outward_order_goes_outward(
    len: usize,
    start: usize,
    order: Vec<usize>,
    from: int,
    i: int,
    j: int,
    index: usize,
)
    requires
        call_ensures(outward_order, (len, start), order),
        from == if start < len {
            start as int
        } else {
            len - 1
        },
    ensures
        order@.contains(index) <==> index < len,
        0 <= i < j < order@.len() ==> order@[i] != order@[j] && (apart(order@[i] as int, from)
            < apart(order@[j] as int, from) || (apart(order@[i] as int, from) == apart(
            order@[j] as int,
            from,
        ) && order@[i] > order@[j])),
        len > 0 ==> order@.len() > 0 && order@[0] == from,
{
    law_outward_order_is_a_permutation(len as nat, start as int);
    if index < len {
        assert(order@.contains((index as int) as usize));
    }
    if len > 0 {
        lemma_outward_ties(len as nat, from, len - 1);
        assert(order@.contains(from as usize));
        let at = choose|at: int| 0 <= at < order@.len() && order@[at] == from as usize;
        if at > 0 {
            assert(crate::planning::gap(order@[0] as int, from) <= crate::planning::gap(
                order@[at] as int,
                from,
            ));
            assert(order@[0] != order@[at]);
        }
        if 0 <= i < j < order@.len() {
            assert(crate::planning::gap(order@[i] as int, from) <= crate::planning::gap(
                order@[j] as int,
                from,
            ));
        }
    }
}

/// The background waves of a folder follow its outward order: each image is warmed
/// in Browse quality, and its metadata is read at its rank.
pub proof fn law_background_waves_follow_the_outward_order(
    len: usize,
    start: usize,
    order: Vec<usize>,
    warm: Vec<(JobId, Action)>,
    metadata: Vec<PlannedJob>,
    i: int,
)
    requires
        call_ensures(outward_order, (len, start), order),
        call_ensures(background_warm_jobs, (len, start), warm),
        call_ensures(background_metadata_jobs, (len, start), metadata),
    ensures
        warm@.len() == order@.len(),
        metadata@.len() == order@.len(),
        0 <= i < order@.len() ==> {
            &&& warm@[i] == ((order@[i], Tier::Browse), Action::WarmDevelop(Quality::Browse))
            &&& metadata@[i].0 == (order@[i], Tier::Thumb)
            &&& metadata@[i].1 == 5
            &&& i <= u32::MAX ==> metadata@[i].2 == i
            &&& metadata@[i].3 == Action::Metadata
        },
{
}

/// Whether a target, in view of what the caches hold of it, needs a job. Pixels that
/// are resident are not made again: in Full resolution they are persisted where the
/// caches hold no encoding of them. Pixels that are not are rehydrated where an
/// encoding may be found, else developed in the quality of their tier, or prefetched
/// where they are not yet visible. What is to be warmed needs none.
pub open spec fn is_needed(
    target: PlanTarget,
    facts: CacheFacts,
    disk: bool,
    job: PlannedJob,
) -> bool {
    &&& job.0 == (target.index, target.tier)
    &&& job.2 == target.effective_distance
    &&& {
        ||| target.kind == PlanKind::Display && facts.has_rgba && target.tier == Tier::Full
            && !facts.has_jpeg && !facts.known_present && job.1 == 3 && job.3
            == Action::PersistResident
        ||| target.kind == PlanKind::Display && !facts.has_rgba && (facts.has_jpeg || disk) && job.1
            == target.class && job.3 == Action::Rehydrate
        ||| target.kind == PlanKind::Display && !facts.has_rgba && !facts.has_jpeg && !disk && job.1
            == target.class && target.tier == Tier::Full && job.3 == Action::Develop(Quality::Full)
        ||| target.kind == PlanKind::Display && !facts.has_rgba && !facts.has_jpeg && !disk && job.1
            == target.class && target.tier != Tier::Full && job.3 == Action::Develop(
            Quality::Browse,
        )
        ||| target.kind == PlanKind::Prefetch && !facts.has_rgba && job.1 == target.class && job.3
            == Action::PrefetchFull
    }
}

/// Whether positions ascend and lie below a bound.
pub open spec fn ascends(at: Seq<int>, n: int) -> bool {
    &&& forall|i: int| 0 <= i < at.len() ==> 0 <= #[trigger] at[i] < n
    &&& forall|i: int, j: int| 0 <= i < j < at.len() ==> #[trigger] at[i] < #[trigger] at[j]
}

proof fn lemma_jobs_at(
    targets: Seq<PlanTarget>,
    facts: Seq<CacheFacts>,
    disk: bool,
    n: int,
) -> (at: Seq<int>)
    requires
        0 <= n <= targets.len(),
        targets.len() == facts.len(),
    ensures
        ({
            let jobs = target_jobs(targets, facts, disk, n);
            &&& ascends(at, n)
            &&& at.len() == jobs.len()
            &&& forall|i: int|
                0 <= i < at.len() ==> is_needed(
                    targets[#[trigger] at[i]],
                    facts[at[i]],
                    disk,
                    jobs[i],
                )
            &&& forall|k: int, job: PlannedJob|
                0 <= k < n && #[trigger] is_needed(targets[k], facts[k], disk, job) ==> at.contains(
                    k,
                )
        }),
    decreases n,
{
    if n <= 0 {
        seq![]
    } else {
        let before = lemma_jobs_at(targets, facts, disk, n - 1);
        let jobs = target_jobs(targets, facts, disk, n);
        let rest = target_jobs(targets, facts, disk, n - 1);
        match target_job(targets[n - 1], facts[n - 1], disk) {
            Some(job) => {
                let at = before.push(n - 1);
                assert(at[before.len() as int] == n - 1);
                assert forall|i: int| 0 <= i < at.len() implies is_needed(
                    targets[#[trigger] at[i]],
                    facts[at[i]],
                    disk,
                    jobs[i],
                ) by {
                    if i < before.len() {
                        assert(at[i] == before[i] && jobs[i] == rest[i]);
                    }
                }
                assert forall|k: int, job: PlannedJob|
                    0 <= k < n && #[trigger] is_needed(
                        targets[k],
                        facts[k],
                        disk,
                        job,
                    ) implies at.contains(k) by {
                    if k < n - 1 {
                        assert(before.contains(k));
                        let i = choose|i: int| 0 <= i < before.len() && before[i] == k;
                        assert(at[i] == k);
                    }
                }
                at
            },
            None => {
                assert forall|k: int, job: PlannedJob|
                    0 <= k < n && #[trigger] is_needed(
                        targets[k],
                        facts[k],
                        disk,
                        job,
                    ) implies before.contains(k) by {}
                before
            },
        }
    }
}

/// A navigation's jobs are those that its targets need, in the order of the targets:
/// every target that needs a job has one, and there are no others.
pub proof fn law_every_target_gets_the_job_it_needs(
    targets: &Vec<PlanTarget>,
    facts: &Vec<CacheFacts>,
    disk: bool,
    jobs: Vec<PlannedJob>,
) -> (at: Seq<int>)
    requires
        targets@.len() == facts@.len(),
        call_ensures(navigation_jobs, (targets, facts, disk), jobs),
    ensures
        ascends(at, targets@.len() as int),
        at.len() == jobs@.len(),
        forall|i: int|
            0 <= i < at.len() ==> is_needed(
                targets@[#[trigger] at[i]],
                facts@[at[i]],
                disk,
                jobs@[i],
            ),
        forall|k: int, job: PlannedJob|
            0 <= k < targets@.len() && #[trigger] is_needed(targets@[k], facts@[k], disk, job)
                ==> at.contains(k),
{
    lemma_jobs_at(targets@, facts@, disk, targets@.len() as int)
}

proof fn lemma_desired_at(targets: Seq<PlanTarget>, n: int) -> (at: Seq<int>)
    requires
        0 <= n <= targets.len(),
    ensures
        ({
            let desired = desired_full(targets, n);
            &&& ascends(at, n)
            &&& at.len() == desired.len()
            &&& forall|i: int|
                0 <= i < at.len() ==> targets[#[trigger] at[i]].tier == Tier::Full && desired[i]
                    == (targets[at[i]].index, Tier::Full)
            &&& forall|k: int|
                0 <= k < n && (#[trigger] targets[k]).tier == Tier::Full ==> at.contains(k)
        }),
    decreases n,
{
    if n <= 0 {
        seq![]
    } else {
        let before = lemma_desired_at(targets, n - 1);
        let desired = desired_full(targets, n);
        let rest = desired_full(targets, n - 1);
        if targets[n - 1].tier == Tier::Full {
            let at = before.push(n - 1);
            assert(at[before.len() as int] == n - 1);
            assert forall|i: int| 0 <= i < at.len() implies targets[#[trigger] at[i]].tier
                == Tier::Full && desired[i] == (targets[at[i]].index, Tier::Full) by {
                if i < before.len() {
                    assert(at[i] == before[i] && desired[i] == rest[i]);
                }
            }
            assert forall|k: int|
                0 <= k < n && (#[trigger] targets[k]).tier == Tier::Full implies at.contains(k) by {
                if k < n - 1 {
                    let i = choose|i: int| 0 <= i < before.len() && before[i] == k;
                    assert(at[i] == k);
                }
            }
            at
        } else {
            before
        }
    }
}

/// The Full-resolution entries that a navigation wants resident are those of its
/// Full targets, in the order of the targets.
pub proof fn law_every_full_target_is_wanted(targets: &Vec<PlanTarget>, desired: Vec<JobId>) -> (at:
    Seq<int>)
    requires
        call_ensures(desired_full_entries, (targets,), desired),
    ensures
        ascends(at, targets@.len() as int),
        at.len() == desired@.len(),
        forall|i: int|
            0 <= i < at.len() ==> targets@[#[trigger] at[i]].tier == Tier::Full && desired@[i] == (
                targets@[at[i]].index,
                Tier::Full,
            ),
        forall|k: int|
            0 <= k < targets@.len() && (#[trigger] targets@[k]).tier == Tier::Full ==> at.contains(
                k,
            ),
{
    lemma_desired_at(targets@, targets@.len() as int)
}

} // verus!
